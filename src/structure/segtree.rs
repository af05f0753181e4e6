use vstd::prelude::*;

use crate::structure::range::{elem, fits_i64, lemma_sum_fits, lemma_sum_split, sum_range, sums_fit};

verus! {

/// `x` is a power of two.
pub open spec fn is_pow2(x: int) -> bool
    decreases x,
{
    if x <= 0 {
        false
    } else if x == 1 {
        true
    } else {
        x % 2 == 0 && is_pow2(x / 2)
    }
}

/// The shape property of an array-stored tree with `size` leaves: every internal node from
/// `from` upwards holds the sum of its two children.
pub open spec fn sums_from(t: Seq<i64>, size: int, from: int) -> bool {
    forall|k: int| from <= k < size ==> #[trigger] t[k] == t[2 * k] + t[2 * k + 1]
}

/// The leaves of `t` hold `vals` followed by zeros.
pub open spec fn leaves_hold(t: Seq<i64>, size: int, vals: Seq<i64>) -> bool {
    forall|i: int| 0 <= i < size ==> #[trigger] t[size + i] as int == elem(vals, i)
}

/// Node `k`, one of the `lvl` nodes of width `w` (`lvl * w == size`), holds the sum of the
/// leaves `[(k - lvl) * w, (k - lvl + 1) * w)`, given that every internal node at or above
/// `k` sums its children.
proof fn lemma_node_sum(t: Seq<i64>, size: int, vals: Seq<i64>, k: int, lvl: int, w: int)
    requires
        t.len() == 2 * size,
        leaves_hold(t, size, vals),
        sums_from(t, size, k),
        is_pow2(w),
        lvl * w == size,
        lvl <= k < 2 * lvl,
    ensures
        t[k] as int == sum_range(vals, (k - lvl) * w, (k - lvl + 1) * w),
    decreases w,
{
    if w == 1 {
        assert(lvl == size) by (nonlinear_arith) requires lvl * w == size, w == 1;
        assert(t[size + (k - size)] as int == elem(vals, k - size));
        assert(sum_range(vals, k - size, k - size + 1) == sum_range(vals, k - size, k - size) + elem(vals, k - size));
    } else {
        let h = w / 2;
        assert(w == 2 * h);
        assert(lvl * w == (2 * lvl) * h) by (nonlinear_arith) requires w == 2 * h;
        assert(2 * lvl <= size) by (nonlinear_arith) requires lvl * w == size, w >= 2, lvl >= 0;
        assert(k < size);
        assert(sums_from(t, size, 2 * k));
        lemma_node_sum(t, size, vals, 2 * k, 2 * lvl, h);
        lemma_node_sum(t, size, vals, 2 * k + 1, 2 * lvl, h);
        let a = (k - lvl) * w;
        assert((2 * k - 2 * lvl) * h == a) by (nonlinear_arith) requires w == 2 * h, a == (k - lvl) * w;
        assert((2 * k + 1 - 2 * lvl) * h == a + h) by (nonlinear_arith) requires w == 2 * h, a == (k - lvl) * w;
        assert((2 * k + 1 - 2 * lvl + 1) * h == (k - lvl + 1) * w) by (nonlinear_arith) requires w == 2 * h;
        assert(t[k] == t[2 * k] + t[2 * k + 1]);
        assert((k - lvl + 1) * w == a + w) by (nonlinear_arith) requires a == (k - lvl) * w;
        lemma_sum_split(vals, a, a + h, a + w);
    }
}

/// `a` lies strictly above `p` on the path from `p` to the root.
pub open spec fn is_proper_ancestor(a: int, p: int) -> bool
    decreases p,
{
    if p <= 1 {
        false
    } else {
        p / 2 == a || is_proper_ancestor(a, p / 2)
    }
}

proof fn lemma_ancestor_below(a: int, p: int)
    requires
        is_proper_ancestor(a, p),
    ensures
        a <= p / 2,
    decreases p,
{
    if p > 1 && p / 2 != a {
        lemma_ancestor_below(a, p / 2);
    }
}

/// The children of node `k` of level `lvl` (width `w`) together hold the sum of the leaves
/// that `k` covers, and that sum fits.
proof fn lemma_children_sum(t: Seq<i64>, size: int, vals: Seq<i64>, k: int, lvl: int, w: int)
    requires
        t.len() == 2 * size,
        leaves_hold(t, size, vals),
        sums_from(t, size, 2 * k),
        sums_fit(vals),
        is_pow2(w),
        w >= 2,
        lvl * w == size,
        lvl <= k < 2 * lvl,
    ensures
        t[2 * k] + t[2 * k + 1] == sum_range(vals, (k - lvl) * w, (k - lvl + 1) * w),
        fits_i64(t[2 * k] + t[2 * k + 1]),
{
    let h = w / 2;
    assert(w == 2 * h) by {
        assert(w != 1);
    }
    assert(lvl * w == (2 * lvl) * h) by (nonlinear_arith) requires w == 2 * h;
    lemma_node_sum(t, size, vals, 2 * k, 2 * lvl, h);
    lemma_node_sum(t, size, vals, 2 * k + 1, 2 * lvl, h);
    let a = (k - lvl) * w;
    assert((2 * k - 2 * lvl) * h == a) by (nonlinear_arith) requires w == 2 * h, a == (k - lvl) * w;
    assert((2 * k + 1 - 2 * lvl) * h == a + h) by (nonlinear_arith) requires w == 2 * h, a == (k - lvl) * w;
    assert((2 * k + 1 - 2 * lvl + 1) * h == a + w) by (nonlinear_arith) requires w == 2 * h, a == (k - lvl) * w;
    assert((k - lvl + 1) * w == a + w) by (nonlinear_arith) requires a == (k - lvl) * w;
    assert(0 <= a) by (nonlinear_arith) requires k >= lvl, w >= 0, a == (k - lvl) * w;
    lemma_sum_split(vals, a, a + h, a + w);
    lemma_sum_fits(vals, a, a + w);
}

proof fn lemma_leaves_view(t: Seq<i64>, size: int, n: int, vals: Seq<i64>)
    requires
        t.len() == 2 * size,
        0 <= n <= size,
        vals.len() == n,
        leaves_hold(t, size, vals),
    ensures
        t.subrange(size, size + n) == vals,
{
    assert forall|p: int| 0 <= p < n implies #[trigger] t.subrange(size, size + n)[p] == vals[p] by {
        assert(t[size + p] as int == elem(vals, p));
    }
    assert(t.subrange(size, size + n) =~= vals);
}

proof fn lemma_pow2_double(x: int)
    requires
        is_pow2(x),
    ensures
        is_pow2(2 * x),
{
    assert((2 * x) / 2 == x);
}

/// A binary segment tree over a fixed number of 64-bit integers, supporting replacement of one
/// element and the sum of any half-open range.
pub struct SegmentTree {
    size: usize,
    tree: Vec<i64>,
    n: usize,
}

impl View for SegmentTree {
    type V = Seq<i64>;

    /// The logical elements: the first `n` leaves.
    closed spec fn view(&self) -> Seq<i64> {
        self.tree@.subrange(self.size as int, self.size + self.n)
    }
}

impl SegmentTree {
    /// The layout is sound: `size` is a power of two with room for every element, the padding
    /// leaves are zero, every internal node holds the sum of its children, and every range of
    /// the elements has a sum that fits.
    pub closed spec fn wf(&self) -> bool {
        &&& is_pow2(self.size as int)
        &&& self.n <= self.size
        &&& self.size <= usize::MAX / 2
        &&& self.tree@.len() == 2 * self.size
        &&& leaves_hold(self.tree@, self.size as int, self@)
        &&& sums_from(self.tree@, self.size as int, 1)
        &&& sums_fit(self@)
    }

    /// Builds the tree over `arr`.
    pub fn new(arr: &[i64]) -> (r: SegmentTree)
        requires
            arr@.len() <= usize::MAX / 4,
            sums_fit(arr@),
        ensures
            r.wf(),
            r@ == arr@,
    {
        let n = arr.len();
        let mut size: usize = 1;
        while size < n
            invariant
                is_pow2(size as int),
                1 <= size,
                size < 2 * n || size == 1,
                n <= usize::MAX / 4,
            decreases 2 * n - size,
        {
            proof { lemma_pow2_double(size as int); }
            size = size * 2;
        }
        let mut tree: Vec<i64> = Vec::new();
        let mut j: usize = 0;
        while j < size
            invariant
                j <= size,
                tree@.len() == j,
            decreases size - j,
        {
            tree.push(0);
            j = j + 1;
        }
        let mut i: usize = 0;
        while i < size
            invariant
                n <= size,
                size <= usize::MAX / 2,
                n == arr@.len(),
                i <= size,
                tree@.len() == size + i,
                forall|p: int| 0 <= p < i ==> #[trigger] tree@[size + p] as int == elem(arr@, p),
            decreases size - i,
        {
            if i < n {
                tree.push(arr[i]);
            } else {
                tree.push(0);
            }
            i = i + 1;
        }
        assert(leaves_hold(tree@, size as int, arr@));
        let mut k: usize = size;
        let ghost mut lvl: int = size as int;
        let ghost mut w: int = 1;
        while k > 1
            invariant
                1 <= k <= size,
                tree@.len() == 2 * size,
                is_pow2(size as int),
                size <= usize::MAX / 2,
                n <= size,
                n == arr@.len(),
                sums_fit(arr@),
                leaves_hold(tree@, size as int, arr@),
                sums_from(tree@, size as int, k as int),
                is_pow2(lvl),
                is_pow2(w),
                lvl * w == size,
                lvl <= k <= 2 * lvl,
                k == 2 * lvl ==> k == size,
            decreases k,
        {
            k = k - 1;
            proof {
                if k < lvl {
                    assert(lvl % 2 == 0 && is_pow2(lvl / 2)) by {
                        assert(lvl != 1);
                    }
                    lemma_pow2_double(w);
                    assert((lvl / 2) * (2 * w) == lvl * w) by (nonlinear_arith) requires lvl % 2 == 0;
                    lvl = lvl / 2;
                    w = 2 * w;
                }
                assert(lvl < size) by (nonlinear_arith) requires lvl * w == size, w >= 2 || lvl <= k < size, k < size, lvl <= k;
                assert(w >= 2) by (nonlinear_arith) requires lvl * w == size, lvl < size, w >= 1;
                lemma_children_sum(tree@, size as int, arr@, k as int, lvl, w);
            }
            let ghost prev = tree@;
            let s = tree[2 * k] + tree[2 * k + 1];
            tree.set(k, s);
            proof {
                assert forall|p: int| 0 <= p < size implies #[trigger] tree@[size + p] as int == elem(arr@, p) by {
                    assert(prev[size + p] == tree@[size + p]);
                }
            }
        }
        proof { lemma_leaves_view(tree@, size as int, n as int, arr@); }
        SegmentTree { size, tree, n }
    }

    /// Replaces the element at `idx` by `value`.
    pub fn update(&mut self, idx: usize, value: i64)
        requires
            old(self).wf(),
            idx < old(self)@.len(),
            sums_fit(old(self)@.update(idx as int, value)),
        ensures
            final(self).wf(),
            final(self)@ == old(self)@.update(idx as int, value),
    {
        let ghost vals = self@.update(idx as int, value);
        let size = self.size;
        let mut pos: usize = size + idx;
        self.tree.set(pos, value);
        proof {
            assert forall|i: int| 0 <= i < size implies #[trigger] self.tree@[size + i] as int == elem(vals, i) by {
                if i != idx {
                    assert(old(self).tree@[size + i] as int == elem(old(self)@, i));
                }
            }
        }
        let ghost mut lvl: int = size as int;
        let ghost mut w: int = 1;
        while pos > 1
            invariant
                self.size == size,
                self.n == old(self).n,
                self.n <= size,
                vals.len() == self.n,
                sums_fit(vals),
                is_pow2(size as int),
                size <= usize::MAX / 2,
                self.tree@.len() == 2 * size,
                leaves_hold(self.tree@, size as int, vals),
                forall|k: int| 1 <= k < size && !is_proper_ancestor(k, pos as int) ==> #[trigger] self.tree@[k] == self.tree@[2 * k] + self.tree@[2 * k + 1],
                is_pow2(lvl),
                is_pow2(w),
                lvl * w == size,
                lvl <= pos < 2 * lvl,
            decreases pos,
        {
            let ghost p = pos as int;
            pos = pos / 2;
            proof {
                assert(lvl != 1);
                assert(lvl % 2 == 0 && is_pow2(lvl / 2));
                lemma_pow2_double(w);
                assert(2 * pos >= lvl);
                assert forall|k: int| 2 * pos <= k < size implies #[trigger] self.tree@[k] == self.tree@[2 * k] + self.tree@[2 * k + 1] by {
                    if is_proper_ancestor(k, p) {
                        lemma_ancestor_below(k, p);
                    }
                }
                assert(sums_from(self.tree@, size as int, 2 * pos));
                assert((lvl / 2) * (2 * w) == lvl * w) by (nonlinear_arith) requires lvl % 2 == 0;
                assert(lvl <= size) by (nonlinear_arith) requires lvl * w == size, w >= 1;
                lemma_children_sum(self.tree@, size as int, vals, pos as int, lvl / 2, 2 * w);
            }
            let ghost prev = self.tree@;
            let s = self.tree[2 * pos] + self.tree[2 * pos + 1];
            self.tree.set(pos, s);
            proof {
                assert forall|k: int| 1 <= k < size && !is_proper_ancestor(k, pos as int) implies #[trigger] self.tree@[k] == self.tree@[2 * k] + self.tree@[2 * k + 1] by {
                    if k != pos {
                        assert(!is_proper_ancestor(k, p));
                        assert(prev[k] == prev[2 * k] + prev[2 * k + 1]);
                    }
                }
                assert forall|i: int| 0 <= i < size implies #[trigger] self.tree@[size + i] as int == elem(vals, i) by {
                    assert(prev[size + i] as int == elem(vals, i));
                }
                lvl = lvl / 2;
                w = 2 * w;
            }
        }
        proof {
            assert(sums_from(self.tree@, size as int, 1));
            lemma_leaves_view(self.tree@, size as int, self.n as int, vals);
        }
    }

    /// The sum of the half-open range `[l, r)` of the elements.
    pub fn query(&self, l: usize, r: usize) -> (result: i64)
        requires
            self.wf(),
            l <= r <= self@.len(),
        ensures
            result == sum_range(self@, l as int, r as int),
            l == r ==> result == 0,
    {
        let size = self.size;
        let ghost vals = self@;
        let mut left: usize = size + l;
        let mut right: usize = size + r;
        // The two sides are summed apart: each then covers one contiguous range, whose sum fits.
        let mut sum_left: i64 = 0;
        let mut sum_right: i64 = 0;
        let ghost mut lo: int = l as int;
        let ghost mut hi: int = r as int;
        let ghost mut lvl: int = size as int;
        let ghost mut w: int = 1;
        while left < right
            invariant
                self.wf(),
                size == self.size,
                vals == self@,
                l <= lo <= hi <= r <= vals.len(),
                r <= size,
                size <= usize::MAX / 2,
                1 <= left <= right <= 2 * size,
                left * w == size + lo,
                right * w == size + hi,
                sum_left == sum_range(vals, l as int, lo),
                sum_right == sum_range(vals, hi, r as int),
                is_pow2(w),
                left < right ==> is_pow2(lvl) && lvl * w == size && lvl <= left && right <= 2 * lvl,
            decreases right,
        {
            proof {
                assert(leaves_hold(self.tree@, size as int, vals));
                assert(sums_from(self.tree@, size as int, 1));
                assert(lo == (left - lvl) * w) by (nonlinear_arith) requires left * w == size + lo, lvl * w == size;
                assert(hi == (right - lvl) * w) by (nonlinear_arith) requires right * w == size + hi, lvl * w == size;
            }
            if left % 2 == 1 {
                proof {
                    lemma_node_sum(self.tree@, size as int, vals, left as int, lvl, w);
                    assert((left - lvl + 1) * w == lo + w) by (nonlinear_arith) requires lo == (left - lvl) * w;
                    assert((left + 1) * w <= right * w) by (nonlinear_arith) requires left + 1 <= right, w >= 0;
                    lemma_sum_split(vals, l as int, lo, lo + w);
                    lemma_sum_fits(vals, l as int, lo + w);
                    assert((left + 1) * w == size + lo + w) by (nonlinear_arith) requires left * w == size + lo;
                    lo = lo + w;
                }
                sum_left = sum_left + self.tree[left];
                left = left + 1;
            }
            if right % 2 == 1 {
                proof {
                    lemma_node_sum(self.tree@, size as int, vals, right - 1, lvl, w);
                    assert((right - 1 - lvl) * w == hi - w) by (nonlinear_arith) requires hi == (right - lvl) * w;
                    assert((right - 1 - lvl + 1) * w == hi) by (nonlinear_arith) requires hi == (right - lvl) * w;
                    assert(left * w <= (right - 1) * w) by (nonlinear_arith) requires left <= right - 1, w >= 0;
                    lemma_sum_split(vals, hi - w, hi, r as int);
                    lemma_sum_fits(vals, hi - w, r as int);
                    assert((right - 1) * w == size + hi - w) by (nonlinear_arith) requires right * w == size + hi;
                    hi = hi - w;
                }
                right = right - 1;
                sum_right = sum_right + self.tree[right];
            }
            proof {
                lemma_pow2_double(w);
                assert((left / 2) * (2 * w) == left * w) by (nonlinear_arith) requires left % 2 == 0;
                assert((right / 2) * (2 * w) == right * w) by (nonlinear_arith) requires right % 2 == 0;
                if left / 2 < right / 2 {
                    assert(lvl != 1);
                    assert(lvl % 2 == 0 && is_pow2(lvl / 2));
                    assert((lvl / 2) * (2 * w) == lvl * w) by (nonlinear_arith) requires lvl % 2 == 0;
                }
                lvl = lvl / 2;
                w = 2 * w;
            }
            left = left / 2;
            right = right / 2;
        }
        proof {
            assert(lo == hi) by (nonlinear_arith) requires left * w == size + lo, right * w == size + hi, left == right;
            lemma_sum_split(vals, l as int, lo, r as int);
            lemma_sum_fits(vals, l as int, r as int);
        }
        sum_left + sum_right
    }

    /// The element at `idx`.
    pub fn get(&self, idx: usize) -> (r: i64)
        requires
            self.wf(),
            idx < self@.len(),
        ensures
            r == self@[idx as int],
    {
        self.tree[self.size + idx]
    }
}

} // verus!
