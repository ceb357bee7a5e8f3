//! Sums that are kept in a machine word.

use vstd::prelude::*;

verus! {

/// The sum of a sequence of counters.
pub open spec fn sum_u64(values: Seq<u64>) -> nat
    decreases values.len(),
{
    if values.len() == 0 {
        0
    } else {
        sum_u64(values.drop_last()) + values.last() as nat
    }
}

/// The sum of a sequence of counts.
pub open spec fn sum_usize(values: Seq<usize>) -> nat
    decreases values.len(),
{
    if values.len() == 0 {
        0
    } else {
        sum_usize(values.drop_last()) + values.last() as nat
    }
}

/// A prefix sums up to no more than the whole.
pub proof fn lemma_prefix_sum(values: Seq<usize>, n: int)
    requires
        0 <= n <= values.len(),
    ensures
        sum_usize(values.take(n)) <= sum_usize(values),
    decreases values.len(),
{
    if n == values.len() {
        assert(values.take(n) =~= values);
    } else {
        lemma_prefix_sum(values.drop_last(), n);
        assert(values.drop_last().take(n) =~= values.take(n));
    }
}

/// Sums of two parts add up.
pub proof fn lemma_sum_concat(first: Seq<usize>, then: Seq<usize>)
    ensures
        sum_usize(first + then) == sum_usize(first) + sum_usize(then),
    decreases then.len(),
{
    if then.len() == 0 {
        assert(first + then =~= first);
    } else {
        lemma_sum_concat(first, then.drop_last());
        assert((first + then).drop_last() =~= first + then.drop_last());
    }
}

/// Replacing one value changes the sum by the difference.
pub proof fn lemma_sum_update(values: Seq<usize>, at: int, value: usize)
    requires
        0 <= at < values.len(),
    ensures
        sum_usize(values.update(at, value)) == sum_usize(values) - values[at] + value,
    decreases values.len(),
{
    let last = values.len() - 1;
    if at == last {
        assert(values.update(at, value).drop_last() =~= values.drop_last());
    } else {
        lemma_sum_update(values.drop_last(), at, value);
        assert(values.update(at, value).drop_last() =~= values.drop_last().update(at, value));
    }
}

/// Nothing but zeros sums up to zero.
pub proof fn lemma_sum_zeros(values: Seq<usize>)
    requires
        forall|i: int| 0 <= i < values.len() ==> #[trigger] values[i] == 0,
    ensures
        sum_usize(values) == 0,
    decreases values.len(),
{
    if values.len() > 0 {
        lemma_sum_zeros(values.drop_last());
    }
}

/// What `n` becomes when it is kept in a `u64`.
pub open spec fn wrap_u64(n: nat) -> nat {
    n % (u64::MAX as nat + 1)
}

/// What `n` becomes when it is kept in a `usize`.
pub open spec fn wrap_usize(n: nat) -> nat {
    n % (usize::MAX as nat + 1)
}

/// Adding to a wrapped sum and wrapping once more wraps the whole sum.
proof fn lemma_wrapped_sum(a: nat, b: nat, m: nat)
    requires
        b < m,
    ensures
        (a + b) % m == (if a % m + b >= m {
            a % m + b - m
        } else {
            (a % m + b) as int
        }),
{
    let t = (a % m) as int + b;
    vstd::arithmetic::div_mod::lemma_add_mod_noop(a as int, b as int, m as int);
    vstd::arithmetic::div_mod::lemma_small_mod(b, m);
    vstd::arithmetic::div_mod::lemma_mod_bound(a as int, m as int);
    if t >= m {
        vstd::arithmetic::div_mod::lemma_mod_sub_multiples_vanish(t, m as int);
        vstd::arithmetic::div_mod::lemma_small_mod((t - m) as nat, m);
    } else {
        vstd::arithmetic::div_mod::lemma_small_mod(t as nat, m);
    }
}

/// Distinct numbers less than `capacity` apart leave distinct remainders.
pub proof fn lemma_distinct_remainders(p: int, q: int, low: int, capacity: int)
    requires
        0 <= low <= p < low + capacity,
        low <= q < low + capacity,
        p != q,
    ensures
        p % capacity != q % capacity,
{
    if p % capacity == q % capacity {
        vstd::arithmetic::div_mod::lemma_fundamental_div_mod(p, capacity);
        vstd::arithmetic::div_mod::lemma_fundamental_div_mod(q, capacity);
        let d = p / capacity - q / capacity;
        assert(p - q == capacity * d) by (nonlinear_arith)
            requires
                p - q == capacity * (p / capacity) - capacity * (q / capacity),
                d == p / capacity - q / capacity,
        ;
        assert(d == 0) by (nonlinear_arith)
            requires
                -capacity < capacity * d < capacity,
                0 < capacity,
        ;
        assert(capacity * d == 0) by (nonlinear_arith)
            requires
                d == 0,
        ;
    }
}

/// Wrapping one factor first does not change a wrapped product.
pub proof fn lemma_wrap_mul(a: nat, b: nat)
    ensures
        wrap_usize(wrap_usize(a) * b) == wrap_usize(a * b),
{
    vstd::arithmetic::div_mod::lemma_mul_mod_noop_left(a as int, b as int, usize::MAX + 1);
}

/// What fits stays as it is.
pub broadcast proof fn lemma_wrap_small(n: nat)
    ensures
        n <= usize::MAX ==> #[trigger] wrap_usize(n) == n,
{
    if n <= usize::MAX {
        vstd::arithmetic::div_mod::lemma_small_mod(n, usize::MAX as nat + 1);
    }
}

/// The sum of the values, in a `u64`.
pub fn wrapped_sum_u64(values: &Vec<u64>) -> (r: u64)
    ensures
        r == wrap_u64(sum_u64(values@)),
{
    let mut total: u64 = 0;
    let mut i: usize = 0;
    proof {
        assert(values@.take(0) =~= Seq::<u64>::empty());
        vstd::arithmetic::div_mod::lemma_small_mod(0, u64::MAX as nat + 1);
    }
    while i < values.len()
        invariant
            i <= values@.len(),
            total == wrap_u64(sum_u64(values@.take(i as int))),
        decreases values.len() - i,
    {
        proof {
            assert(values@.take(i + 1).drop_last() =~= values@.take(i as int));
            lemma_wrapped_sum(
                sum_u64(values@.take(i as int)),
                values@[i as int] as nat,
                u64::MAX as nat + 1,
            );
        }
        total = total.wrapping_add(values[i]);
        i = i + 1;
    }
    assert(values@.take(i as int) =~= values@);
    total
}

/// The sum of the values, in a `usize`.
pub fn wrapped_sum_usize(values: &Vec<usize>) -> (r: usize)
    ensures
        r == wrap_usize(sum_usize(values@)),
{
    let mut total: usize = 0;
    let mut i: usize = 0;
    proof {
        assert(values@.take(0) =~= Seq::<usize>::empty());
        vstd::arithmetic::div_mod::lemma_small_mod(0, usize::MAX as nat + 1);
    }
    while i < values.len()
        invariant
            i <= values@.len(),
            total == wrap_usize(sum_usize(values@.take(i as int))),
        decreases values.len() - i,
    {
        proof {
            assert(values@.take(i + 1).drop_last() =~= values@.take(i as int));
            lemma_wrapped_sum(
                sum_usize(values@.take(i as int)),
                values@[i as int] as nat,
                usize::MAX as nat + 1,
            );
        }
        total = total.wrapping_add(values[i]);
        i = i + 1;
    }
    assert(values@.take(i as int) =~= values@);
    total
}

} // verus!
