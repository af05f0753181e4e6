use vstd::prelude::*;

verus! {

/// The value at position `i`, with every position outside the sequence read as zero.
pub open spec fn elem(s: Seq<i64>, i: int) -> int {
    if 0 <= i < s.len() {
        s[i] as int
    } else {
        0
    }
}

/// The sum of the half-open range `[lo, hi)` of `s`; empty when `hi <= lo`.
pub open spec fn sum_range(s: Seq<i64>, lo: int, hi: int) -> int
    decreases hi - lo,
{
    if hi <= lo {
        0
    } else {
        sum_range(s, lo, hi - 1) + elem(s, hi - 1)
    }
}

/// The sum of every element of `s`.
pub open spec fn total(s: Seq<i64>) -> int
    decreases s.len(),
{
    if s.len() == 0 {
        0
    } else {
        total(s.drop_last()) + s.last()
    }
}

pub open spec fn fits_i64(x: int) -> bool {
    i64::MIN <= x <= i64::MAX
}

/// Every contiguous range of `s` has a sum that a 64-bit signed integer can hold.
pub open spec fn sums_fit(s: Seq<i64>) -> bool {
    forall|lo: int, hi: int| 0 <= lo <= hi <= s.len() ==> fits_i64(#[trigger] sum_range(s, lo, hi))
}

pub proof fn lemma_sum_split(s: Seq<i64>, a: int, b: int, c: int)
    requires
        a <= b <= c,
    ensures
        sum_range(s, a, c) == sum_range(s, a, b) + sum_range(s, b, c),
    decreases c - b,
{
    if b < c {
        lemma_sum_split(s, a, b, c - 1);
    }
}

/// A range that reaches past the end of `s` sums to what its part inside `s` sums to.
pub proof fn lemma_sum_past_end(s: Seq<i64>, lo: int, hi: int)
    requires
        0 <= lo <= hi,
    ensures
        sum_range(s, lo, hi) == if lo >= s.len() {
            0
        } else if hi > s.len() {
            sum_range(s, lo, s.len() as int)
        } else {
            sum_range(s, lo, hi)
        },
    decreases hi - lo,
{
    if hi > lo && hi > s.len() {
        lemma_sum_past_end(s, lo, hi - 1);
    }
}

/// Under `sums_fit`, every range that starts inside or at the end of `s` has a sum that fits.
pub proof fn lemma_sum_fits(s: Seq<i64>, lo: int, hi: int)
    requires
        sums_fit(s),
        0 <= lo <= hi,
    ensures
        fits_i64(sum_range(s, lo, hi)),
{
    lemma_sum_past_end(s, lo, hi);
    if lo >= s.len() {
    } else if hi > s.len() {
        assert(fits_i64(sum_range(s, lo, s.len() as int)));
    } else {
        assert(fits_i64(sum_range(s, lo, hi)));
    }
}

/// Replacing the element at `i` by `x` changes exactly the ranges that contain `i`, and each of
/// them by `x - s[i]`; the element read back at `i` is `x`.
pub proof fn lemma_update_locality(s: Seq<i64>, i: int, x: i64, lo: int, hi: int)
    requires
        0 <= i < s.len(),
        lo <= hi,
    ensures
        s.update(i, x)[i] == x,
        sum_range(s.update(i, x), lo, hi) == sum_range(s, lo, hi) + if lo <= i < hi {
            x - s[i]
        } else {
            0
        },
    decreases hi - lo,
{
    if lo < hi {
        lemma_update_locality(s, i, x, lo, hi - 1);
    }
}

/// The whole-range sum is the total of the sequence.
pub proof fn lemma_sum_whole(s: Seq<i64>)
    ensures
        sum_range(s, 0, s.len() as int) == total(s),
    decreases s.len(),
{
    if s.len() > 0 {
        let t = s.drop_last();
        lemma_sum_whole(t);
        assert forall|k: int| 0 <= k <= t.len() implies sum_range(t, 0, k) == sum_range(s, 0, k) by {
            lemma_sum_prefix_agree(t, s, k);
        }
    }
}

proof fn lemma_sum_prefix_agree(t: Seq<i64>, s: Seq<i64>, k: int)
    requires
        0 <= k <= t.len(),
        t.len() <= s.len(),
        forall|j: int| 0 <= j < t.len() ==> t[j] == s[j],
    ensures
        sum_range(t, 0, k) == sum_range(s, 0, k),
    decreases k,
{
    if k > 0 {
        lemma_sum_prefix_agree(t, s, k - 1);
    }
}

/// A sequence that agrees with `s` below `k` and is zero from `k` on sums, over any range, to
/// the part of `s` below `k`.
pub proof fn lemma_sum_zero_tail(s: Seq<i64>, t: Seq<i64>, k: int, lo: int, hi: int)
    requires
        0 <= k <= s.len(),
        t.len() == s.len(),
        forall|j: int| 0 <= j < k ==> t[j] == s[j],
        forall|j: int| k <= j < t.len() ==> t[j] == 0,
        0 <= lo <= hi,
    ensures
        sum_range(t, lo, hi) == sum_range(
            s,
            if lo < k { lo } else { k },
            if hi < k { hi } else { k },
        ),
    decreases hi - lo,
{
    if lo < hi {
        lemma_sum_zero_tail(s, t, k, lo, hi - 1);
    }
}

/// Such a sequence inherits `sums_fit` from `s`.
pub proof fn lemma_sums_fit_zero_tail(s: Seq<i64>, t: Seq<i64>, k: int)
    requires
        sums_fit(s),
        0 <= k <= s.len(),
        t.len() == s.len(),
        forall|j: int| 0 <= j < k ==> t[j] == s[j],
        forall|j: int| k <= j < t.len() ==> t[j] == 0,
    ensures
        sums_fit(t),
{
    assert forall|lo: int, hi: int| 0 <= lo <= hi <= t.len() implies fits_i64(#[trigger] sum_range(t, lo, hi)) by {
        lemma_sum_zero_tail(s, t, k, lo, hi);
        let a = if lo < k { lo } else { k };
        let b = if hi < k { hi } else { k };
        assert(fits_i64(sum_range(s, a, b)));
    }
}

} // verus!
