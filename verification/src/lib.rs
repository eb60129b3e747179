//! Summation of a borrowed sequence of 32-bit signed integers.
//!
//! The sum is accumulated strictly left to right in a 64-bit signed
//! accumulator with checked addition. If the accumulator ever leaves the
//! 64-bit signed range, accumulation stops and the sentinel value `-1` is
//! returned; the sentinel is indistinguishable from a legitimate sum of
//! exactly `-1`. The foreign-call boundary that builds the borrowed view
//! from a raw pointer lives outside this crate; everything here works on a
//! safe slice.

use vstd::prelude::*;

verus! {

use vstd::arithmetic::mul::{lemma_mul_inequality, lemma_mul_nonnegative};

/// The mathematical sum of a sequence of 32-bit integers, as an
/// unbounded integer.
pub open spec fn sum_of(s: Seq<i32>) -> int
    decreases s.len(),
{
    if s.len() == 0 {
        0
    } else {
        sum_of(s.drop_last()) + s.last() as int
    }
}

/// Whether a value fits the 64-bit signed accumulator.
pub open spec fn fits_i64(x: int) -> bool {
    i64::MIN <= x <= i64::MAX
}

/// Left-to-right checked accumulation overflows exactly when the sum of
/// some non-empty prefix falls outside the 64-bit signed range.
pub open spec fn overflows(s: Seq<i32>) -> bool {
    exists|k: int| 1 <= k <= s.len() && !fits_i64(sum_of(#[trigger] s.take(k)))
}

/// Extending a prefix by one element adds that element to the prefix sum.
proof fn lemma_sum_take_succ(s: Seq<i32>, k: int)
    requires
        0 <= k < s.len(),
    ensures
        sum_of(s.take(k + 1)) == sum_of(s.take(k)) + s[k],
{
    assert(s.take(k + 1).drop_last() =~= s.take(k));
}

/// Sums the borrowed view in index order, widening each element to 64 bits
/// and adding it with checked addition. Returns the exact mathematical sum
/// when no prefix of the accumulation leaves the 64-bit signed range, and
/// the sentinel `-1` as soon as one does.
pub fn sum_array(values: &[i32]) -> (result: i64)
    ensures
        !overflows(values@) ==> result == sum_of(values@),
        overflows(values@) ==> result == -1i64,
{
    let mut sum: i64 = 0;
    let mut i: usize = 0;
    while i < values.len()
        invariant
            0 <= i <= values@.len(),
            sum == sum_of(values@.take(i as int)),
            forall|k: int| 1 <= k <= i ==> fits_i64(sum_of(#[trigger] values@.take(k))),
        decreases values@.len() - i,
    {
        let value = values[i];
        proof {
            lemma_sum_take_succ(values@, i as int);
        }
        match sum.checked_add(value as i64) {
            Some(next) => {
                sum = next;
            },
            None => {
                assert(overflows(values@)) by {
                    assert(!fits_i64(sum_of(values@.take(i as int + 1))));
                }
                return -1;
            },
        }
        i = i + 1;
    }
    proof {
        assert(values@.take(values@.len() as int) =~= values@);
    }
    sum
}

/// An empty view sums to zero and can never overflow, so `sum_array`
/// returns `0` on it.
pub proof fn lemma_empty_sum(s: Seq<i32>)
    requires
        s.len() == 0,
    ensures
        sum_of(s) == 0,
        !overflows(s),
{
}

/// When no prefix of the accumulation leaves the 64-bit signed range, the
/// full mathematical sum itself fits in 64 bits, and `sum_array` returns
/// exactly that sum.
pub proof fn lemma_no_overflow_sum_fits(s: Seq<i32>)
    requires
        !overflows(s),
    ensures
        fits_i64(sum_of(s)),
{
    if s.len() > 0 {
        assert(s.take(s.len() as int) =~= s);
        assert(fits_i64(sum_of(s.take(s.len() as int))));
    }
}

/// The sum over a run of equal elements grows linearly with its length.
proof fn lemma_sum_constant_run(s: Seq<i32>, v: i32, j: int, k: int)
    requires
        0 <= j <= k <= s.len(),
        forall|i: int| j <= i < k ==> s[i] == v,
    ensures
        sum_of(s.take(k)) == sum_of(s.take(j)) + (k - j) * v,
    decreases k - j,
{
    if k == j {
        assert((k - j) * (v as int) == 0) by (nonlinear_arith)
            requires
                k == j,
        ;
    } else {
        lemma_sum_constant_run(s, v, j, k - 1);
        lemma_sum_take_succ(s, k - 1);
        assert((k - 1 - j) * (v as int) + v == (k - j) * (v as int)) by (nonlinear_arith);
    }
}

/// A prefix whose widened sum reaches exactly one past `i64::MAX` is an
/// overflow, so `sum_array` returns the sentinel `-1` on such a view.
pub proof fn lemma_boundary_prefix_overflows(s: Seq<i32>, k: int)
    requires
        1 <= k <= s.len(),
        sum_of(s.take(k)) == i64::MAX + 1,
    ensures
        overflows(s),
{
}

/// Views whose accumulation reaches exactly `i64::MAX + 1` at a prefix do
/// exist; this builds one, so `lemma_boundary_prefix_overflows` is not
/// vacuous. No executable test can reach this state: with 32-bit elements
/// the 64-bit accumulator first overflows after more than 2^32 additions.
pub proof fn lemma_exact_boundary_reachable() -> (s: Seq<i32>)
    ensures
        1 <= s.len(),
        sum_of(s.take(s.len() as int)) == i64::MAX + 1,
        overflows(s),
{
    let run: int = 0x1_0000_0002;
    let len: int = run + 1;
    let s = Seq::new(len as nat, |i: int| if i < run { i32::MAX } else { 2i32 });
    assert(s.take(0) =~= Seq::<i32>::empty());
    lemma_sum_constant_run(s, i32::MAX, 0, run);
    assert(0x1_0000_0002 * (i32::MAX as int) == 0x7FFF_FFFF_FFFF_FFFE) by (nonlinear_arith);
    lemma_sum_take_succ(s, run);
    lemma_boundary_prefix_overflows(s, len);
    s
}

/// Strict left-to-right accumulation is order-dependent: there is a view
/// that overflows mid-sequence while its reversal — the same elements, the
/// same multiset — stays within the 64-bit range throughout, so the two
/// orders give different results. Reordering therefore cannot be assumed
/// to preserve the result, and the index order of the view must be kept.
pub proof fn lemma_order_dependence() -> (views: (Seq<i32>, Seq<i32>))
    ensures
        views.1 == views.0.reverse(),
        views.1.to_multiset() == views.0.to_multiset(),
        overflows(views.0),
        !overflows(views.1),
{
    let run: int = 0x1_0000_0003;
    let len: int = run + 1;
    let s = Seq::new(len as nat, |i: int| if i < run { i32::MAX } else { i32::MIN });
    let t = s.reverse();
    s.lemma_reverse_to_multiset();

    assert(s.take(0) =~= Seq::<i32>::empty());
    lemma_sum_constant_run(s, i32::MAX, 0, run);
    assert(0x1_0000_0003 * (i32::MAX as int) == 0x8000_0000_7FFF_FFFD) by (nonlinear_arith);
    assert(!fits_i64(sum_of(s.take(run))));
    assert(overflows(s));

    assert(t[0] == i32::MIN);
    assert forall|k: int| 1 <= k <= t.len() implies fits_i64(
        sum_of(#[trigger] t.take(k)),
    ) by {
        assert(t.take(1).drop_last() =~= Seq::<i32>::empty());
        assert(sum_of(t.take(1)) == i32::MIN as int);
        lemma_sum_constant_run(t, i32::MAX, 1, k);
        lemma_mul_nonnegative(k - 1, i32::MAX as int);
        lemma_mul_inequality(k - 1, run, i32::MAX as int);
        assert(run * (i32::MAX as int) == 0x8000_0000_7FFF_FFFD);
    };
    assert(!overflows(t));
    (s, t)
}

} // verus!
