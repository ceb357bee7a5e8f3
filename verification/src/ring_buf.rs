//! Backing store for samples: one contiguous byte buffer per array, cut into
//! equally sized slots.
//!
//! Slot `i` of array `j` occupies the bytes from `i * slot_bytes[j]` on in the
//! `j`-th buffer. The type keeps no record of which slots are in use; that is
//! the business of the store that owns it.

use vstd::prelude::*;

verus! {

/// Contents of a ring: `slots[j][i]` are the bytes of array `j` in slot `i`.
pub type Slots = Seq<Seq<Seq<u8>>>;

/// `bytes` cut into `count` pieces of `width` bytes each.
pub open spec fn cut(bytes: Seq<u8>, width: int, count: nat) -> Seq<Seq<u8>> {
    Seq::new(count, |i: int| bytes.subrange(i * width, i * width + width))
}

/// `bytes` with the bytes from `start` on replaced by `data`.
pub open spec fn spliced(bytes: Seq<u8>, start: int, data: Seq<u8>) -> Seq<u8> {
    bytes.take(start) + data + bytes.skip(start + data.len())
}

/// The pieces joined in order.
pub open spec fn joined(pieces: Seq<Seq<u8>>) -> Seq<u8>
    decreases pieces.len(),
{
    if pieces.len() == 0 {
        Seq::empty()
    } else {
        joined(pieces.drop_last()) + pieces.last()
    }
}

/// Why a ring of the given dimensions cannot be built.
#[derive(Debug, Clone, Copy, PartialEq, Eq, Structural)]
pub enum RingDefect {
    /// `capacity` is zero.
    NoCapacity,
    /// `capacity` is not a multiple of `batch_size`.
    RaggedCapacity,
    /// There is no array to store.
    NoArrays,
}

/// The first of the three demands on a ring's dimensions that is not met.
pub open spec fn ring_defect(arrays: nat, capacity: nat, batch_size: nat) -> Option<RingDefect> {
    if capacity == 0 {
        Some(RingDefect::NoCapacity)
    } else if batch_size == 0 || capacity % batch_size != 0 {
        Some(RingDefect::RaggedCapacity)
    } else if arrays == 0 {
        Some(RingDefect::NoArrays)
    } else {
        None
    }
}

/// Pre-allocated slots for every array of a sample.
pub struct PytreeRingBuf {
    /// One contiguous buffer per array.
    buffers: Vec<Vec<u8>>,
    /// Bytes per slot for each array.
    slot_bytes: Vec<usize>,
    /// Total number of slots.
    capacity: usize,
}

impl View for PytreeRingBuf {
    type V = Slots;

    closed spec fn view(&self) -> Slots {
        Seq::new(
            self.buffers@.len(),
            |j: int|
                cut(self.buffers@[j]@, self.slot_bytes@[j] as int, self.capacity as nat),
        )
    }
}

impl PytreeRingBuf {
    /// The number of slots.
    pub closed spec fn slot_count(&self) -> usize {
        self.capacity
    }

    /// The bytes that one slot takes, for each array.
    pub closed spec fn widths(&self) -> Seq<usize> {
        self.slot_bytes@
    }

    /// The buffers have the sizes that the slots ask for.
    pub closed spec fn wf(&self) -> bool {
        &&& 0 < self.capacity
        &&& 0 < self.slot_bytes@.len()
        &&& self.buffers@.len() == self.slot_bytes@.len()
        &&& forall|j: int|
            0 <= j < self.buffers@.len() ==> (#[trigger] self.buffers@[j])@.len()
                == self.slot_bytes@[j] * self.capacity
        &&& forall|j: int|
            0 <= j < self.slot_bytes@.len() ==> (#[trigger] self.slot_bytes@[j]) * self.capacity
                <= isize::MAX
    }

    /// A well-formed ring holds `slot_count` slots for each array, each as
    /// wide as that array's samples.
    pub proof fn lemma_shape(&self)
        requires
            self.wf(),
        ensures
            0 < self.slot_count(),
            0 < self.widths().len(),
            self@.len() == self.widths().len(),
            forall|j: int|
                0 <= j < self@.len() ==> (#[trigger] self@[j]).len() == self.slot_count(),
            forall|j: int, i: int|
                0 <= j < self@.len() && 0 <= i < self.slot_count() ==> (#[trigger] self@[j][i]).len()
                    == self.widths()[j],
    {
        assert forall|j: int, i: int|
            0 <= j < self@.len() && 0 <= i < self.slot_count() implies (#[trigger] self@[j][i]).len()
            == self.widths()[j] by {
            lemma_piece_fits(i, self.slot_bytes@[j] as int, self.capacity as int);
            assert(self.buffers@[j]@.len() == self.slot_bytes@[j] * self.capacity);
        }
    }

    /// Which demand on the dimensions of a ring fails first, if any does.
    pub fn defect(slot_bytes: &Vec<usize>, capacity: usize, batch_size: usize) -> (r: Option<
        RingDefect,
    >)
        ensures
            r == ring_defect(slot_bytes@.len(), capacity as nat, batch_size as nat),
    {
        if capacity == 0 {
            Some(RingDefect::NoCapacity)
        } else if batch_size == 0 || capacity % batch_size != 0 {
            Some(RingDefect::RaggedCapacity)
        } else if slot_bytes.len() == 0 {
            Some(RingDefect::NoArrays)
        } else {
            None
        }
    }

    /// A ring of zeroed slots. `capacity` has to be a multiple of
    /// `batch_size`, so that no batch spans the wrap-around point.
    pub fn new(slot_bytes: Vec<usize>, capacity: usize, batch_size: usize) -> (r: Self)
        requires
            ring_defect(slot_bytes@.len(), capacity as nat, batch_size as nat) is None,
            forall|j: int|
                0 <= j < slot_bytes@.len() ==> (#[trigger] slot_bytes@[j]) * capacity
                    <= isize::MAX,
        ensures
            r.wf(),
            r.slot_count() == capacity,
            r.widths() == slot_bytes@,
            forall|j: int, i: int, k: int|
                0 <= j < r@.len() && 0 <= i < capacity && 0 <= k < slot_bytes@[j]
                    ==> #[trigger] r@[j][i][k] == 0u8,
    {
        let mut buffers: Vec<Vec<u8>> = Vec::new();
        let mut j: usize = 0;
        while j < slot_bytes.len()
            invariant
                j <= slot_bytes.len(),
                buffers@.len() == j,
                forall|m: int|
                    0 <= m < slot_bytes@.len() ==> (#[trigger] slot_bytes@[m]) * capacity
                        <= isize::MAX,
                forall|m: int|
                    0 <= m < j ==> (#[trigger] buffers@[m])@.len() == slot_bytes@[m] * capacity,
                forall|m: int, k: int|
                    0 <= m < j && 0 <= k < buffers@[m]@.len() ==> #[trigger] buffers@[m]@[k] == 0u8,
            decreases slot_bytes.len() - j,
        {
            assert(slot_bytes@[j as int] * capacity >= 0) by (nonlinear_arith);
            let total: usize = slot_bytes[j] * capacity;
            buffers.push(vec![0u8; total]);
            j = j + 1;
        }
        let r = Self { buffers, slot_bytes, capacity };
        proof {
            assert forall|j: int, i: int, k: int|
                0 <= j < r@.len() && 0 <= i < capacity && 0 <= k < slot_bytes@[j] implies
                #[trigger] r@[j][i][k] == 0u8 by {
                lemma_piece_fits(i, slot_bytes@[j] as int, capacity as int);
                assert(r@[j][i][k] == buffers@[j]@[i * slot_bytes@[j] + k]);
            }
        }
        r
    }

    pub fn capacity(&self) -> (r: usize)
        ensures
            r == self.slot_count(),
    {
        self.capacity
    }

    pub fn num_arrays(&self) -> (r: usize)
        ensures
            r == self.widths().len(),
    {
        self.slot_bytes.len()
    }

    /// The bytes of one array in one slot, for writing. Other slots, and other
    /// arrays of the same slot, keep their bytes.
    pub fn slot_mut(&mut self, slot: usize, array_idx: usize) -> (r: &mut [u8])
        requires
            old(self).wf(),
            slot < old(self).slot_count(),
            array_idx < old(self).widths().len(),
        ensures
            r@ == old(self)@[array_idx as int][slot as int],
            final(self).slot_count() == old(self).slot_count(),
            final(self).widths() == old(self).widths(),
            final(r)@.len() == r@.len() ==> {
                &&& final(self).wf()
                &&& final(self)@ == old(self)@.update(
                    array_idx as int,
                    old(self)@[array_idx as int].update(slot as int, final(r)@),
                )
            },
    {
        let width: usize = self.slot_bytes[array_idx];
        proof {
            lemma_piece_fits(slot as int, width as int, self.capacity as int);
            assert(self.buffers@[array_idx as int]@.len() == width * self.capacity);
        }
        let offset: usize = slot * width;
        let ghost before = self.buffers@[array_idx as int]@;
        assert forall|data: Seq<u8>| data.len() == width implies cut(
            #[trigger] spliced(before, offset as int, data),
            width as int,
            self.capacity as nat,
        ) == cut(before, width as int, self.capacity as nat).update(slot as int, data) by {
            lemma_cut_update(before, width as int, self.capacity as nat, slot as int, data);
        }
        let piece = piece_mut(&mut self.buffers[array_idx], offset, width);
        piece
    }

    /// The bytes of one array in one slot.
    pub fn slot_ref(&self, slot: usize, array_idx: usize) -> (r: &[u8])
        requires
            self.wf(),
            slot < self.slot_count(),
            array_idx < self.widths().len(),
        ensures
            r@ == self@[array_idx as int][slot as int],
    {
        let width: usize = self.slot_bytes[array_idx];
        proof {
            lemma_piece_fits(slot as int, width as int, self.capacity as int);
            assert(self.buffers@[array_idx as int]@.len() == width * self.capacity);
        }
        let offset: usize = slot * width;
        vstd::slice::slice_subrange(self.buffers[array_idx].as_slice(), offset, offset + width)
    }

    /// Copies `data` over the first bytes of one array in one slot; the bytes
    /// of the slot beyond `data` stay.
    pub fn write_slot(&mut self, slot: usize, array_idx: usize, data: &[u8])
        requires
            old(self).wf(),
            slot < old(self).slot_count(),
            array_idx < old(self).widths().len(),
            data@.len() <= old(self).widths()[array_idx as int],
        ensures
            final(self).wf(),
            final(self).slot_count() == old(self).slot_count(),
            final(self).widths() == old(self).widths(),
            final(self)@ == old(self)@.update(
                array_idx as int,
                old(self)@[array_idx as int].update(
                    slot as int,
                    overlaid(old(self)@[array_idx as int][slot as int], data@),
                ),
            ),
    {
        proof {
            self.lemma_shape();
        }
        copy_over(self.slot_mut(slot, array_idx), data);
    }

    /// Where `count` slots of one array lie in that array's buffer, from slot
    /// `start` on: the offset of the first byte and the number of bytes.
    pub fn range_ptr(&self, array_idx: usize, start: usize, count: usize) -> (r: (usize, usize))
        requires
            self.wf(),
            array_idx < self.widths().len(),
            start + count <= self.slot_count(),
        ensures
            r.0 == start * self.widths()[array_idx as int],
            r.1 == count * self.widths()[array_idx as int],
            r.0 + r.1 <= self.slot_count() * self.widths()[array_idx as int],
    {
        let width: usize = self.slot_bytes[array_idx];
        proof {
            lemma_range_fits(start as int, count as int, width as int, self.capacity as int);
            assert(self.slot_bytes@[array_idx as int] * self.capacity <= isize::MAX);
        }
        (start * width, count * width)
    }

    /// The bytes of `count` adjacent slots of one array, from slot `start` on.
    pub fn range_bytes(&self, array_idx: usize, start: usize, count: usize) -> (r: &[u8])
        requires
            self.wf(),
            array_idx < self.widths().len(),
            start + count <= self.slot_count(),
        ensures
            r@ == joined(self@[array_idx as int].subrange(start as int, start + count)),
            r@.len() == count * self.widths()[array_idx as int],
    {
        let (offset, len) = self.range_ptr(array_idx, start, count);
        proof {
            let width = self.slot_bytes@[array_idx as int] as int;
            let bytes = self.buffers@[array_idx as int]@;
            assert(bytes.len() == width * self.capacity);
            assert(width * self.capacity == self.capacity * width) by (nonlinear_arith);
            lemma_joined_cut(bytes, width, self.capacity as nat, start as int, count as nat);
        }
        vstd::slice::slice_subrange(self.buffers[array_idx].as_slice(), offset, offset + len)
    }
}

/// `bytes` with its first bytes replaced by `data`.
pub open spec fn overlaid(bytes: Seq<u8>, data: Seq<u8>) -> Seq<u8> {
    data + bytes.skip(data.len() as int)
}

/// Copies `src` over the first bytes of `dst`.
fn copy_over(dst: &mut [u8], src: &[u8])
    requires
        src@.len() <= old(dst)@.len(),
    ensures
        final(dst)@ == overlaid(old(dst)@, src@),
{
    let mut i: usize = 0;
    while i < src.len()
        invariant
            i <= src@.len() <= old(dst)@.len(),
            dst@ == overlaid(old(dst)@, src@.take(i as int)),
        decreases src.len() - i,
    {
        dst[i] = src[i];
        i = i + 1;
        assert(dst@ =~= overlaid(old(dst)@, src@.take(i as int)));
    }
    assert(src@.take(i as int) =~= src@);
}

/// `len` bytes of `bytes` from `start` on, for writing.
fn piece_mut(bytes: &mut Vec<u8>, start: usize, len: usize) -> (r: &mut [u8])
    requires
        start + len <= old(bytes)@.len(),
    ensures
        r@ == old(bytes)@.subrange(start as int, start + len),
        final(r)@.len() == len ==> final(bytes)@ == spliced(old(bytes)@, start as int, final(r)@),
{
    let (_head, tail) = bytes.as_mut_slice().split_at_mut(start);
    let (piece, _rest) = tail.split_at_mut(len);
    piece
}

/// Piece number `i` of `count` pieces lies inside the whole.
proof fn lemma_piece_fits(i: int, width: int, count: int)
    requires
        0 <= i < count,
        0 <= width,
    ensures
        0 <= i * width,
        i * width + width <= width * count,
{
    assert(0 <= i * width && i * width + width <= width * count) by (nonlinear_arith)
        requires
            0 <= i < count,
            0 <= width,
    ;
}

/// A range of slots lies inside the whole.
proof fn lemma_range_fits(start: int, count: int, width: int, capacity: int)
    requires
        0 <= start,
        0 <= count,
        start + count <= capacity,
        0 <= width,
    ensures
        0 <= start * width,
        0 <= count * width,
        start * width + count * width <= capacity * width,
        capacity * width == width * capacity,
{
    assert(0 <= start * width && 0 <= count * width && start * width + count * width <= capacity
        * width && capacity * width == width * capacity) by (nonlinear_arith)
        requires
            0 <= start,
            0 <= count,
            start + count <= capacity,
            0 <= width,
    ;
}

/// Joining adjacent pieces gives back the bytes that they were cut from.
proof fn lemma_joined_cut(bytes: Seq<u8>, width: int, total: nat, start: int, count: nat)
    requires
        0 <= width,
        0 <= start,
        start + count <= total,
        bytes.len() == width * total,
    ensures
        joined(cut(bytes, width, total).subrange(start, start + count)) == bytes.subrange(
            start * width,
            start * width + count * width,
        ),
    decreases count,
{
    lemma_range_fits(start, count as int, width, total as int);
    let pieces = cut(bytes, width, total).subrange(start, start + count);
    if count == 0 {
        assert(pieces.len() == 0);
        assert(bytes.subrange(start * width, start * width + count * width) =~= Seq::<u8>::empty())
            by {
            assert(count * width == 0) by (nonlinear_arith)
                requires
                    count == 0,
            ;
        }
    } else {
        let fewer = (count - 1) as nat;
        lemma_joined_cut(bytes, width, total, start, fewer);
        lemma_range_fits(start, fewer as int, width, total as int);
        assert(pieces.drop_last() =~= cut(bytes, width, total).subrange(start, start + fewer));
        assert((start + fewer) * width == start * width + fewer * width && count * width == fewer
            * width + width) by (nonlinear_arith)
            requires
                count == fewer + 1,
        ;
        lemma_piece_fits(start + fewer, width, total as int);
        assert(joined(pieces) =~= bytes.subrange(start * width, start * width + count * width));
    }
}

/// Replacing piece number `at` leaves the other pieces as they were.
proof fn lemma_cut_update(bytes: Seq<u8>, width: int, count: nat, at: int, data: Seq<u8>)
    requires
        0 <= at < count,
        0 <= width,
        bytes.len() == width * count,
        data.len() == width,
    ensures
        cut(spliced(bytes, at * width, data), width, count) == cut(bytes, width, count).update(
            at,
            data,
        ),
{
    lemma_piece_fits(at, width, count as int);
    let changed = spliced(bytes, at * width, data);
    let left = cut(changed, width, count);
    let right = cut(bytes, width, count).update(at, data);
    assert forall|i: int| 0 <= i < count implies left[i] =~= right[i] by {
        lemma_piece_fits(i, width, count as int);
        if i < at {
            assert(i * width + width <= at * width) by (nonlinear_arith)
                requires
                    i < at,
                    0 <= width,
            ;
        } else if at < i {
            assert(at * width + width <= i * width) by (nonlinear_arith)
                requires
                    at < i,
                    0 <= width,
            ;
        }
    }
    assert(left =~= right);
}

} // verus!
