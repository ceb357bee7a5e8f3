//! Sizes, slots and samples as bytes.

use crate::arith::{
    lemma_distinct_remainders, lemma_sum_concat, sum_u64, sum_usize, wrap_u64, wrap_usize,
};
use crate::array_spec::{shape_product, sizes_of, ArraySpec};
use crate::protocol::{sound, FifoStore, History};
use crate::ring_buf::{joined, overlaid, ring_defect, Slots};
use crate::selector::{Remover, Sampler};
use crate::store::{
    allocatable, at_most, batches_touched, bytes_of, pieces, placed, ring_with, split_samples,
    store_defect, ConsumerView, Store, StoreDefect,
};
use vstd::prelude::*;

verus! {

/// A number kept in a machine word stays in range and differs from the number
/// by whole ranges only; what fits stays as it is.
pub proof fn lemma_wraps(n: nat)
    ensures
        wrap_usize(n) <= usize::MAX,
        (n - wrap_usize(n)) % (usize::MAX + 1) == 0,
        n <= usize::MAX ==> wrap_usize(n) == n,
        wrap_u64(n) <= u64::MAX,
        (n - wrap_u64(n)) % (u64::MAX + 1) == 0,
        n <= u64::MAX ==> wrap_u64(n) == n,
{
    lemma_remainder(n as int, usize::MAX + 1);
    lemma_remainder(n as int, u64::MAX + 1);
}

/// What is left after taking the remainder away.
proof fn lemma_remainder(n: int, m: int)
    requires
        0 <= n,
        0 < m,
    ensures
        0 <= n % m < m,
        (n - n % m) % m == 0,
        n < m ==> n % m == n,
{
    vstd::arithmetic::div_mod::lemma_fundamental_div_mod(n, m);
    vstd::arithmetic::div_mod::lemma_mod_bound(n, m);
    vstd::arithmetic::div_mod::lemma_mod_multiples_basic(n / m, m);
    assert(n - n % m == (n / m) * m) by (nonlinear_arith)
        requires
            n == m * (n / m) + n % m,
    ;
    if n < m {
        vstd::arithmetic::div_mod::lemma_small_mod(n as nat, m as nat);
    }
}

/// Sums of counts: one value is its own sum, and the parts add up.
pub proof fn lemma_sums(first: Seq<u64>, then: Seq<u64>, one: u64)
    ensures
        sum_u64(Seq::empty()) == 0,
        sum_u64(seq![one]) == one,
        sum_u64(first + then) == sum_u64(first) + sum_u64(then),
    decreases then.len(),
{
    assert(seq![one].drop_last() =~= Seq::<u64>::empty());
    assert(sum_u64(seq![one].drop_last()) == 0);
    if then.len() == 0 {
        assert(first + then =~= first);
    } else {
        lemma_sums(first, then.drop_last(), one);
        assert((first + then).drop_last() =~= first + then.drop_last());
    }
}

/// Sums of sizes: one value is its own sum, and the parts add up.
pub proof fn lemma_size_sums(first: Seq<usize>, then: Seq<usize>, one: usize)
    ensures
        sum_usize(Seq::empty()) == 0,
        sum_usize(seq![one]) == one,
        sum_usize(first + then) == sum_usize(first) + sum_usize(then),
{
    assert(seq![one].drop_last() =~= Seq::<usize>::empty());
    assert(sum_usize(seq![one].drop_last()) == 0);
    lemma_sum_concat(first, then);
}

/// The elements of an array: a scalar is one element, one dimension is as many
/// as it says, and the elements of two shapes together are the product.
pub proof fn lemma_elements(first: Seq<usize>, then: Seq<usize>, one: usize)
    ensures
        shape_product(Seq::empty()) == 1,
        shape_product(seq![one]) == one,
        shape_product(first + then) == shape_product(first) * shape_product(then),
    decreases then.len(),
{
    assert(seq![one].drop_last() =~= Seq::<usize>::empty());
    assert(shape_product(seq![one].drop_last()) == 1);
    if then.len() == 0 {
        assert(first + then =~= first);
        assert(shape_product(first) * 1 == shape_product(first));
    } else {
        let rest = then.drop_last();
        lemma_elements(first, rest, one);
        assert((first + then).drop_last() =~= first + rest);
        assert((first + then).last() == then.last());
        let (a, b, c) = (shape_product(first), shape_product(rest), then.last() as nat);
        assert((a * b) * c == a * (b * c)) by (nonlinear_arith);
    }
}

/// The bytes of an array are as many as the elements of its shape with one more
/// dimension, the bytes of an element. Sizes of several arrays stand at the
/// places of the arrays, each in a machine word.
pub proof fn lemma_array_bytes(specs: Seq<ArraySpec>, j: int)
    requires
        0 <= j < specs.len(),
    ensures
        specs[j].byte_count() == shape_product(specs[j].shape@.push(specs[j].dtype_size)),
        sizes_of(specs).len() == specs.len(),
        specs[j].byte_count() <= usize::MAX ==> sizes_of(specs)[j] == specs[j].byte_count(),
        (specs[j].byte_count() - sizes_of(specs)[j]) % (usize::MAX + 1) == 0,
{
    let shape = specs[j].shape@;
    let size = specs[j].dtype_size;
    assert(shape.push(size) =~= shape + seq![size]);
    lemma_elements(shape, seq![size], size);
    lemma_wraps(specs[j].byte_count());
}

/// Joining: one piece is itself, and what is joined of two parts follows each
/// other.
pub proof fn lemma_joined(first: Seq<Seq<u8>>, then: Seq<Seq<u8>>, one: Seq<u8>)
    ensures
        joined(Seq::empty()) == Seq::<u8>::empty(),
        joined(seq![one]) == one,
        joined(first + then) == joined(first) + joined(then),
    decreases then.len(),
{
    assert(seq![one].drop_last() =~= Seq::<Seq<u8>>::empty());
    assert(joined(seq![one].drop_last()) =~= Seq::<u8>::empty());
    assert(joined(seq![one]) =~= one);
    if then.len() == 0 {
        assert(first + then =~= first);
        assert(joined(first) + joined(then) =~= joined(first));
    } else {
        lemma_joined(first, then.drop_last(), one);
        assert((first + then).drop_last() =~= first + then.drop_last());
        assert(joined(first + then) =~= joined(first) + joined(then));
    }
}

/// Pieces of one width, joined: piece number `i` is at `i` times the width.
pub proof fn lemma_joined_even(slots: Seq<Seq<u8>>, width: int, i: int)
    requires
        0 <= i < slots.len(),
        forall|k: int| 0 <= k < slots.len() ==> (#[trigger] slots[k]).len() == width,
    ensures
        joined(slots).len() == slots.len() * width,
        joined(slots).subrange(i * width, i * width + width) == slots[i],
{
    lemma_window(slots, width, i, 1);
    let one = slots.subrange(i, i + 1);
    assert(one =~= seq![slots[i]]);
    lemma_joined(one, one, slots[i]);
    assert(1 * width == width);
}

/// The bytes of adjacent pieces of one width are a window of the bytes of all.
pub proof fn lemma_window(slots: Seq<Seq<u8>>, width: int, start: int, count: int)
    requires
        0 <= start,
        0 <= count,
        start + count <= slots.len(),
        forall|k: int| 0 <= k < slots.len() ==> (#[trigger] slots[k]).len() == width,
    ensures
        0 <= start * width,
        start * width + count * width <= joined(slots).len(),
        joined(slots).len() == slots.len() * width,
        joined(slots).subrange(start * width, start * width + count * width) == joined(
            slots.subrange(start, start + count),
        ),
{
    let head = slots.take(start);
    let mid = slots.subrange(start, start + count);
    let tail = slots.skip(start + count);
    lemma_joined_len(head, width);
    lemma_joined_len(mid, width);
    lemma_joined_len(tail, width);
    lemma_joined_len(slots, width);
    lemma_joined(head, mid, Seq::empty());
    lemma_joined(head + mid, tail, Seq::empty());
    assert(head + mid + tail =~= slots);
    assert(joined(slots).subrange(start * width, start * width + count * width) =~= joined(mid));
}

/// As many bytes as pieces times their width.
proof fn lemma_joined_len(slots: Seq<Seq<u8>>, width: int)
    requires
        forall|k: int| 0 <= k < slots.len() ==> (#[trigger] slots[k]).len() == width,
    ensures
        joined(slots).len() == slots.len() * width,
    decreases slots.len(),
{
    if slots.len() == 0 {
        assert(0 * width == 0);
    } else {
        let rest = slots.drop_last();
        assert forall|k: int| 0 <= k < rest.len() implies (#[trigger] rest[k]).len() == width by {
            assert(slots[k].len() == width);
        }
        lemma_joined_len(rest, width);
        assert(slots[slots.len() - 1].len() == width);
        assert(slots.len() * width == rest.len() * width + width) by (nonlinear_arith)
            requires
                slots.len() == rest.len() + 1,
        ;
    }
}

/// A view of a batch points at the batch: of every array, the bytes that it
/// names in the array's buffer are those of the samples of the batch, joined in
/// order.
pub proof fn lemma_view_points_at_batch<S: Sampler, R: Remover>(
    store: &Store<S, R>,
    view: &ConsumerView,
    start: usize,
    count: usize,
    j: int,
)
    requires
        store.wf(),
        view.spans(start, count, store@.widths),
        start + count <= store@.capacity,
        0 <= j < store@.widths.len(),
    ensures
        view.arrays@.len() == store@.widths.len(),
        view.arrays@[j].0 + view.arrays@[j].1 <= joined(store@.ring[j]).len(),
        joined(store@.ring[j]).subrange(
            view.arrays@[j].0 as int,
            view.arrays@[j].0 + view.arrays@[j].1,
        ) == joined(store@.ring[j].subrange(start as int, start + count)),
        joined(store@.ring[j]).subrange(
            view.arrays@[j].0 as int,
            view.arrays@[j].0 + view.arrays@[j].1,
        ).len() == view.arrays@[j].1,
{
    store.lemma_dimensions();
    let slots = store@.ring[j];
    let width = store@.widths[j] as int;
    assert forall|k: int| 0 <= k < slots.len() implies (#[trigger] slots[k]).len() == width by {
        assert(store@.ring[j][k].len() == store@.widths[j]);
    }
    lemma_window(slots, width, start as int, count as int);
    assert(view.arrays@[j].0 == start * width);
    assert(view.arrays@[j].1 == count * width);
}

/// Copying over the first bytes: what is copied is there, what is beyond stays,
/// and nothing is added.
pub proof fn lemma_overlaid(bytes: Seq<u8>, data: Seq<u8>)
    requires
        data.len() <= bytes.len(),
    ensures
        overlaid(bytes, data).len() == bytes.len(),
        overlaid(bytes, data).take(data.len() as int) == data,
        forall|k: int|
            data.len() <= k < bytes.len() ==> #[trigger] overlaid(bytes, data)[k] == bytes[k],
{
    assert(overlaid(bytes, data).take(data.len() as int) =~= data);
}

/// Copying a sample into a slot: each of its arrays is in the slot, in the
/// bytes of that array; every other slot, and every array that the sample does
/// not have, stays.
pub proof fn lemma_placed(ring: Slots, slot: int, arrays: Seq<Seq<u8>>, j: int, i: int)
    requires
        0 <= j < ring.len(),
        0 <= i < ring[j].len(),
        0 <= slot < ring[j].len(),
        j < arrays.len() ==> arrays[j].len() <= ring[j][slot].len(),
    ensures
        placed(ring, slot, arrays).len() == ring.len(),
        placed(ring, slot, arrays)[j].len() == ring[j].len(),
        i != slot || j >= arrays.len() ==> placed(ring, slot, arrays)[j][i] == ring[j][i],
        j < arrays.len() ==> arrays[j].is_prefix_of(placed(ring, slot, arrays)[j][slot]),
        j < arrays.len() && arrays[j].len() == ring[j][slot].len() ==> placed(
            ring,
            slot,
            arrays,
        )[j][slot] == arrays[j],
{
    if j < arrays.len() {
        lemma_overlaid(ring[j][slot], arrays[j]);
        if arrays[j].len() == ring[j][slot].len() {
            assert(overlaid(ring[j][slot], arrays[j]) =~= arrays[j]);
        }
    }
}

/// Whether a sample has one array for each of the ring's, of the width of its
/// slots.
pub open spec fn fits_slots(ring: Slots, sample: Seq<Seq<u8>>) -> bool {
    &&& sample.len() == ring.len()
    &&& forall|j: int, i: int|
        0 <= j < ring.len() && 0 <= i < ring[j].len() ==> (#[trigger] ring[j][i]).len()
            == sample[j].len()
}

/// Copying samples for adjacent positions: sample number `k` is in the slot of
/// position `start + k`, array by array, and slots of no such position stay.
pub proof fn lemma_ring_with(
    ring: Slots,
    capacity: int,
    start: int,
    samples: Seq<Seq<Seq<u8>>>,
    j: int,
)
    requires
        0 < capacity,
        0 <= start,
        samples.len() <= capacity,
        0 <= j < ring.len(),
        forall|a: int| 0 <= a < ring.len() ==> (#[trigger] ring[a]).len() == capacity,
        forall|k: int| 0 <= k < samples.len() ==> fits_slots(ring, #[trigger] samples[k]),
    ensures
        ring_with(ring, capacity, start, samples).len() == ring.len(),
        ring_with(ring, capacity, start, samples)[j].len() == capacity,
        forall|k: int|
            0 <= k < samples.len() ==> ring_with(ring, capacity, start, samples)[j][(start + k)
                % capacity] == (#[trigger] samples[k])[j],
        forall|i: int|
            0 <= i < capacity && (forall|k: int|
                0 <= k < samples.len() ==> #[trigger] ((start + k) % capacity) != i)
                ==> #[trigger] ring_with(ring, capacity, start, samples)[j][i] == ring[j][i],
    decreases samples.len(),
{
    if samples.len() > 0 {
        let fewer = samples.drop_last();
        let last = samples.last();
        let n = samples.len() - 1;
        let slot = (start + n) % capacity;
        assert(samples[n] == last);
        assert forall|k: int| 0 <= k < fewer.len() implies fits_slots(
            ring,
            #[trigger] fewer[k],
        ) by {
            assert(fits_slots(ring, samples[k]));
        }
        lemma_ring_with(ring, capacity, start, fewer, j);
        let before = ring_with(ring, capacity, start, fewer);
        let after = ring_with(ring, capacity, start, samples);
        vstd::arithmetic::div_mod::lemma_mod_bound(start + n, capacity);
        // The slot of the last position is none of the earlier ones.
        assert forall|k: int| 0 <= k < n implies #[trigger] ((start + k) % capacity) != slot by {
            lemma_distinct_remainders(start + k, start + n, start, capacity);
        }
        assert(before[j][slot] == ring[j][slot]);
        assert(ring[j][slot].len() == last[j].len());
        assert(overlaid(before[j][slot], last[j]) =~= last[j]);
        assert(after[j] == before[j].update(slot, last[j]));
        assert forall|k: int| 0 <= k < samples.len() implies after[j][(start + k) % capacity] == (
        #[trigger] samples[k])[j] by {
            vstd::arithmetic::div_mod::lemma_mod_bound(start + k, capacity);
            if k < n {
                assert(fewer[k] == samples[k]);
                assert((start + k) % capacity != slot);
            }
        }
        assert forall|i: int|
            0 <= i < capacity && (forall|k: int|
                0 <= k < samples.len() ==> #[trigger] ((start + k) % capacity) != i) implies
            #[trigger] after[j][i] == ring[j][i] by {
            assert((start + n) % capacity != i);
            assert forall|k: int| 0 <= k < fewer.len() implies #[trigger] ((start + k) % capacity)
                != i by {}
            assert(before[j][i] == ring[j][i]);
        }
    }
}

/// Cutting loses nothing: the arrays that a sample is cut into, joined in
/// order, are the first bytes of the sample, and each array has its size.
pub proof fn lemma_pieces(sample: Seq<u8>, sizes: Seq<usize>)
    requires
        sum_usize(sizes) <= sample.len(),
    ensures
        pieces(sample, sizes).len() == sizes.len(),
        forall|j: int|
            0 <= j < sizes.len() ==> (#[trigger] pieces(sample, sizes)[j]).len() == sizes[j],
        joined(pieces(sample, sizes)) == sample.take(sum_usize(sizes) as int),
    decreases sizes.len(),
{
    let cut = pieces(sample, sizes);
    if sizes.len() == 0 {
        assert(joined(cut) =~= sample.take(0));
    } else {
        let fewer = sizes.drop_last();
        lemma_pieces(sample, fewer);
        let before = pieces(sample, fewer);
        let from = sum_usize(fewer) as int;
        assert forall|j: int| 0 <= j < fewer.len() implies cut[j] == before[j] by {
            assert(sizes.take(j) =~= fewer.take(j));
        }
        assert(cut.drop_last() =~= before);
        assert(sizes.take(sizes.len() - 1) =~= fewer);
        assert(cut.last() == sample.subrange(from, from + sizes.last()));
        assert forall|j: int| 0 <= j < sizes.len() implies (#[trigger] cut[j]).len()
            == sizes[j] by {
            if j < fewer.len() {
                assert(before[j].len() == fewer[j]);
            }
        }
        assert(joined(cut) =~= sample.take(sum_usize(sizes) as int));
    }
}

/// Cutting several samples loses nothing of any of them, and keeps their order.
pub proof fn lemma_split_samples(samples: Seq<&[u8]>, sizes: Seq<usize>, i: int)
    requires
        0 <= i < samples.len(),
        sum_usize(sizes) <= samples[i]@.len(),
    ensures
        split_samples(samples, sizes).len() == samples.len(),
        split_samples(samples, sizes)[i].len() == sizes.len(),
        forall|j: int|
            0 <= j < sizes.len() ==> (#[trigger] split_samples(samples, sizes)[i][j]).len()
                == sizes[j],
        joined(split_samples(samples, sizes)[i]) == samples[i]@.take(sum_usize(sizes) as int),
{
    lemma_pieces(samples[i]@, sizes);
}

/// The bytes of slices stand at the places of the slices.
pub proof fn lemma_bytes_of(slices: Seq<&[u8]>, i: int)
    requires
        0 <= i < slices.len(),
    ensures
        bytes_of(slices).len() == slices.len(),
        bytes_of(slices)[i] == slices[i]@,
{
}

/// One position more touches one batch more if it is the first one or starts a
/// batch, and none else.
pub proof fn lemma_batches_touched(start: int, n: int, batch_size: int)
    requires
        0 < batch_size,
        0 <= start,
        0 <= n,
    ensures
        batches_touched(start, 0, batch_size) == 0,
        batches_touched(start, n + 1, batch_size) == batches_touched(start, n, batch_size) + if n
            == 0 || (start + n) % batch_size == 0 {
            1int
        } else {
            0
        },
{
    let p = start + n;
    vstd::arithmetic::div_mod::lemma_fundamental_div_mod(p, batch_size);
    vstd::arithmetic::div_mod::lemma_mod_bound(p, batch_size);
    let (q, r) = (p / batch_size, p % batch_size);
    if n > 0 {
        if r == 0 {
            assert(p - 1 == (q - 1) * batch_size + (batch_size - 1)) by (nonlinear_arith)
                requires
                    p == batch_size * q + r,
                    r == 0,
            ;
            vstd::arithmetic::div_mod::lemma_fundamental_div_mod_converse(
                p - 1,
                batch_size,
                q - 1,
                batch_size - 1,
            );
        } else {
            assert(p - 1 == q * batch_size + (r - 1)) by (nonlinear_arith)
                requires
                    p == batch_size * q + r,
            ;
            vstd::arithmetic::div_mod::lemma_fundamental_div_mod_converse(
                p - 1,
                batch_size,
                q,
                r - 1,
            );
        }
    }
}

/// The lesser of two numbers is one of them and above neither.
pub proof fn lemma_at_most(n: int, bound: int)
    ensures
        at_most(n, bound) <= n,
        at_most(n, bound) <= bound,
        at_most(n, bound) == n || at_most(n, bound) == bound,
{
}

/// A store can be built if and only if there are at least two batches, a batch
/// holds something, a sample has an array, the slots can be counted, and the
/// slots of each array fit in an allocation.
pub proof fn lemma_store_can_be_built(specs: Seq<ArraySpec>, batch_size: usize, num_batches: usize)
    ensures
        store_defect(specs, batch_size, num_batches) is None <==> {
            &&& 2 <= num_batches
            &&& 0 < batch_size
            &&& 0 < specs.len()
            &&& batch_size * num_batches <= usize::MAX
            &&& forall|j: int|
                0 <= j < specs.len() ==> (#[trigger] sizes_of(specs)[j]) * (batch_size
                    * num_batches) <= isize::MAX
        },
        num_batches < 2 <==> store_defect(specs, batch_size, num_batches) == Some(
            StoreDefect::TooFewBatches,
        ),
        2 <= num_batches && batch_size * num_batches > usize::MAX <==> store_defect(
            specs,
            batch_size,
            num_batches,
        ) == Some(StoreDefect::CapacityOverflow),
        2 <= num_batches && (batch_size == 0 || (batch_size * num_batches <= usize::MAX
            && specs.len() == 0)) <==> store_defect(specs, batch_size, num_batches) matches Some(
            StoreDefect::Ring(_),
        ),
{
    let capacity = batch_size * num_batches;
    if 2 <= num_batches {
        assert(batch_size == 0 <==> capacity == 0) by (nonlinear_arith)
            requires
                2 <= num_batches,
                capacity == batch_size * num_batches,
        ;
        if 0 < batch_size {
            vstd::arithmetic::div_mod::lemma_mod_multiples_basic(
                num_batches as int,
                batch_size as int,
            );
            assert(capacity == num_batches * batch_size) by (nonlinear_arith)
                requires
                    capacity == batch_size * num_batches,
            ;
            assert(ring_defect(specs.len(), capacity as nat, batch_size as nat) is None <==> 0
                < specs.len());
        }
        if forall|j: int|
            0 <= j < specs.len() ==> (#[trigger] sizes_of(specs)[j]) * capacity <= isize::MAX {
            assert forall|j: int| 0 <= j < specs.len() implies wrap_usize(
                (#[trigger] specs[j]).byte_count(),
            ) * capacity <= isize::MAX by {
                lemma_wraps(specs[j].byte_count());
                assert(sizes_of(specs)[j] * capacity <= isize::MAX);
            }
        }
        if allocatable(specs, capacity) {
            assert forall|j: int| 0 <= j < specs.len() implies (#[trigger] sizes_of(specs)[j])
                * capacity <= isize::MAX by {
                lemma_wraps(specs[j].byte_count());
                assert(wrap_usize(specs[j].byte_count()) * capacity <= isize::MAX);
            }
        }
    }
}

/// The room in a store: the slots less the positions claimed and not given
/// back. The ring is full if and only if there is none.
pub proof fn lemma_room(s: FifoStore, h: History)
    requires
        sound(s, h),
    ensures
        s.used() == s.write - s.freed,
        s.available() == s.capacity - (s.write - s.freed),
        s.full() <==> s.write - s.freed == s.capacity,
        s.release_wakes() <==> s.has_previous && s.write - s.freed == s.capacity,
        s.released().write == s.write,
        s.released().freed == s.freed + if s.has_previous {
            s.batch_size as int
        } else {
            0
        },
        s.released().ring == s.ring,
        s.released().sampler == s.sampler,
        !s.released().has_previous,
{
}

} // verus!
