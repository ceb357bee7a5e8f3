//! Shape and element size of one array of a flattened sample.

use crate::arith::{lemma_wrap_mul, lemma_wrap_small, sum_usize, wrap_usize, wrapped_sum_usize};
use vstd::prelude::*;

verus! {

/// The product of all entries of a shape; 1 for a scalar.
pub open spec fn shape_product(shape: Seq<usize>) -> nat
    decreases shape.len(),
{
    if shape.len() == 0 {
        1
    } else {
        shape_product(shape.drop_last()) * (shape.last() as nat)
    }
}

/// Metadata for a single array in the flattened sample.
#[derive(Debug, Clone)]
pub struct ArraySpec {
    pub shape: Vec<usize>,
    /// Bytes per element.
    pub dtype_size: usize,
}

impl View for ArraySpec {
    type V = (Seq<usize>, usize);

    open spec fn view(&self) -> (Seq<usize>, usize) {
        (self.shape@, self.dtype_size)
    }
}

impl ArraySpec {
    /// The size of one array in bytes, before any wrap-around.
    pub open spec fn byte_count(&self) -> nat {
        shape_product(self.shape@) * (self.dtype_size as nat)
    }

    pub fn new(shape: Vec<usize>, dtype_size: usize) -> (r: Self)
        ensures
            r@ == (shape@, dtype_size),
    {
        Self { shape, dtype_size }
    }

    /// Total bytes for one array. Wraps when the product does not fit in
    /// `usize`; keeping it in range is up to the caller.
    pub fn num_bytes(&self) -> (r: usize)
        ensures
            r == wrap_usize(self.byte_count()),
            self.byte_count() <= usize::MAX ==> r == self.byte_count(),
    {
        let mut elements: usize = 1;
        let mut i: usize = 0;
        proof {
            assert(self.shape@.take(0) =~= Seq::<usize>::empty());
            lemma_wrap_small(1);
        }
        while i < self.shape.len()
            invariant
                i <= self.shape.len(),
                elements == wrap_usize(shape_product(self.shape@.take(i as int))),
            decreases self.shape.len() - i,
        {
            proof {
                let before = shape_product(self.shape@.take(i as int));
                let dim = self.shape@[i as int] as nat;
                assert(self.shape@.take(i + 1).drop_last() =~= self.shape@.take(i as int));
                lemma_wrap_mul(before, dim);
            }
            elements = elements.wrapping_mul(self.shape[i]);
            i = i + 1;
        }
        proof {
            assert(self.shape@.take(i as int) =~= self.shape@);
            lemma_wrap_mul(shape_product(self.shape@), self.dtype_size as nat);
            lemma_wrap_small(self.byte_count());
        }
        elements.wrapping_mul(self.dtype_size)
    }
}

/// The size in bytes of each of several arrays.
pub open spec fn sizes_of(specs: Seq<ArraySpec>) -> Seq<usize> {
    Seq::new(specs.len(), |j: int| wrap_usize(specs[j].byte_count()) as usize)
}

/// The size in bytes of each array of a sample.
pub fn array_sizes(specs: &Vec<ArraySpec>) -> (r: Vec<usize>)
    ensures
        r@ == sizes_of(specs@),
{
    let mut sizes: Vec<usize> = Vec::new();
    while sizes.len() < specs.len()
        invariant
            sizes@.len() <= specs@.len(),
            forall|j: int|
                0 <= j < sizes@.len() ==> #[trigger] sizes@[j] == wrap_usize(
                    specs@[j].byte_count(),
                ),
        decreases specs.len() - sizes.len(),
    {
        sizes.push(specs[sizes.len()].num_bytes());
    }
    assert(sizes@ =~= sizes_of(specs@));
    sizes
}

/// The size in bytes of a whole sample. Wraps when it does not fit in `usize`;
/// keeping it in range is up to the caller.
pub fn payload_size(specs: &Vec<ArraySpec>) -> (r: usize)
    ensures
        r == wrap_usize(sum_usize(sizes_of(specs@))),
        sum_usize(sizes_of(specs@)) <= usize::MAX ==> r == sum_usize(sizes_of(specs@)),
{
    proof {
        lemma_wrap_small(sum_usize(sizes_of(specs@)));
    }
    wrapped_sum_usize(&array_sizes(specs))
}

} // verus!
