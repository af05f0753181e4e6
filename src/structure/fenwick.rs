use vstd::prelude::*;

use crate::structure::range::{
    fits_i64, lemma_sum_fits, lemma_sum_split, lemma_sums_fit_zero_tail, lemma_update_locality,
    sum_range, sums_fit,
};

verus! {

/// The lowest set bit of `x` (zero for zero).
pub open spec fn low_bit(x: usize) -> usize {
    x & ((!x + 1) as usize)
}

proof fn lemma_low_bit(x: usize)
    by (bit_vector)
    requires
        x >= 1,
    ensures
        1 <= low_bit(x) <= x,
        x & ((x - 1) as usize) == x - low_bit(x),
        (!x + 1) as usize == !x + 1,
{
}

/// Every position strictly between `x` and `x + low_bit(x)` has a lowest bit no larger than
/// its distance from `x`.
proof fn lemma_low_bit_between(x: usize, d: usize)
    by (bit_vector)
    requires
        0 < d < low_bit(x),
        (x + d) as usize == x + d,
    ensures
        low_bit((x + d) as usize) <= d,
{
}

/// Stepping from `x` by its lowest bit reaches a position whose lowest bit is at least twice
/// as large.
proof fn lemma_low_bit_step(x: usize)
    by (bit_vector)
    requires
        x >= 1,
        (x + low_bit(x)) as usize == x + low_bit(x),
    ensures
        low_bit((x + low_bit(x)) as usize) >= 2 * low_bit(x),
{
}

/// The logical sum that `FenwickTree::sum` returns for `index`: the prefix up to and including
/// `index`, with an index past the end read as the last one.
pub open spec fn prefix_sum(s: Seq<i64>, index: int) -> int {
    sum_range(s, 0, (if index < s.len() { index } else { s.len() - 1 }) + 1)
}

/// A Fenwick (binary indexed) tree over a fixed number of 64-bit integers, supporting the
/// addition of a delta to one element and prefix and range sums.
pub struct FenwickTree {
    size: usize,
    tree: Vec<i64>,
    vals: Ghost<Seq<i64>>,
}

impl View for FenwickTree {
    type V = Seq<i64>;

    /// The logical elements.
    closed spec fn view(&self) -> Seq<i64> {
        self.vals@
    }
}

impl FenwickTree {
    /// Slot `j` (1-based) holds the sum of the `low_bit(j)` elements that end just before
    /// position `j`, and every range of the elements has a sum that fits.
    pub closed spec fn wf(&self) -> bool {
        &&& self.size < usize::MAX
        &&& self.tree@.len() == self.size + 1
        &&& self.vals@.len() == self.size
        &&& sums_fit(self.vals@)
        &&& forall|j: int|
            1 <= j <= self.size ==> #[trigger] self.tree@[j] as int == sum_range(
                self.vals@,
                j - low_bit(j as usize),
                j,
            )
    }

    /// A tree of `size` zeros.
    pub fn new(size: usize) -> (r: FenwickTree)
        requires
            size < usize::MAX,
        ensures
            r.wf(),
            r@ == Seq::new(size as nat, |i: int| 0i64),
    {
        let mut tree: Vec<i64> = Vec::new();
        let mut i: usize = 0;
        while i <= size
            invariant
                size < usize::MAX,
                i <= size + 1,
                tree@.len() == i,
                forall|j: int| 0 <= j < i ==> #[trigger] tree@[j] == 0,
            decreases size + 1 - i,
        {
            tree.push(0);
            i = i + 1;
        }
        let ghost vals = Seq::new(size as nat, |i: int| 0i64);
        proof {
            assert forall|lo: int, hi: int| 0 <= lo <= hi <= vals.len() implies fits_i64(#[trigger] sum_range(vals, lo, hi)) by {
                lemma_zero_sum(vals, lo, hi);
            }
            assert forall|j: int| 1 <= j <= size implies #[trigger] tree@[j] as int == sum_range(vals, j - low_bit(j as usize), j) by {
                lemma_low_bit(j as usize);
                lemma_zero_sum(vals, j - low_bit(j as usize), j);
            }
        }
        FenwickTree { size, tree, vals: Ghost(vals) }
    }

    /// A tree over the elements of `arr`, built by adding each element in turn.
    pub fn from_vec(arr: &[i64]) -> (r: FenwickTree)
        requires
            arr@.len() < usize::MAX,
            sums_fit(arr@),
        ensures
            r.wf(),
            r@ == arr@,
    {
        let n = arr.len();
        let mut ft = FenwickTree::new(n);
        let mut i: usize = 0;
        while i < n
            invariant
                n == arr@.len(),
                sums_fit(arr@),
                i <= n,
                ft.wf(),
                ft@.len() == n,
                forall|j: int| 0 <= j < i ==> #[trigger] ft@[j] == arr@[j],
                forall|j: int| i <= j < n ==> #[trigger] ft@[j] == 0,
            decreases n - i,
        {
            let ghost next = ft@.update(i as int, arr@[i as int]);
            proof {
                lemma_sums_fit_zero_tail(arr@, next, i + 1);
                assert(ft@[i as int] + arr@[i as int] == arr@[i as int]);
                assert(next == ft@.update(i as int, (ft@[i as int] + arr@[i as int]) as i64));
            }
            ft.add(i, arr[i]);
            i = i + 1;
        }
        proof {
            assert(ft@ =~= arr@);
        }
        ft
    }

    /// Adds `value` to the element at `index`.
    pub fn add(&mut self, index: usize, value: i64)
        requires
            old(self).wf(),
            index < old(self)@.len(),
            fits_i64(old(self)@[index as int] + value),
            sums_fit(old(self)@.update(index as int, (old(self)@[index as int] + value) as i64)),
        ensures
            final(self).wf(),
            final(self)@ == old(self)@.update(index as int, (old(self)@[index as int] + value) as i64),
    {
        let ghost before = self.vals@;
        let ghost x = (before[index as int] + value) as i64;
        let ghost after = before.update(index as int, x);
        let size = self.size;
        self.vals = Ghost(after);
        let mut idx: usize = index + 1;
        proof {
            lemma_low_bit(idx);
            assert forall|j: int| 1 <= j <= size && j < idx implies #[trigger] self.tree@[j] as int == sum_range(after, j - low_bit(j as usize), j) by {
                lemma_low_bit(j as usize);
                lemma_update_locality(before, index as int, x, j - low_bit(j as usize), j);
            }
        }
        while idx <= size
            invariant
                self.size == size,
                self.vals@ == after,
                after == before.update(index as int, x),
                index < size,
                after.len() == size,
                before.len() == size,
                sums_fit(after),
                x == before[index as int] + value,
                self.tree@.len() == size + 1,
                size < usize::MAX,
                index < idx,
                idx <= size ==> idx - low_bit(idx) <= index,
                forall|j: int|
                    1 <= j <= size && j < idx ==> #[trigger] self.tree@[j] as int == sum_range(
                        after,
                        j - low_bit(j as usize),
                        j,
                    ),
                forall|j: int|
                    1 <= j <= size && j >= idx ==> #[trigger] self.tree@[j] as int == sum_range(
                        before,
                        j - low_bit(j as usize),
                        j,
                    ),
            decreases size + 1 - idx,
        {
            proof {
                lemma_low_bit(idx);
                lemma_update_locality(before, index as int, x, idx - low_bit(idx), idx as int);
                lemma_sum_fits(after, idx - low_bit(idx), idx as int);
                assert(self.tree@[idx as int] as int == sum_range(before, idx - low_bit(idx), idx as int));
            }
            let ghost prev = self.tree@;
            let cur = self.tree[idx];
            self.tree.set(idx, cur + value);
            let step = idx & (!idx + 1);
            let ghost old_idx = idx;
            // A step past the end ends the walk; testing it this way keeps `idx` from overflowing.
            if step > size - idx {
                idx = size + 1;
            } else {
                proof {
                    lemma_low_bit_step(idx);
                }
                idx = idx + step;
            }
            proof {
                assert forall|j: int| 1 <= j <= size && j < idx implies #[trigger] self.tree@[j] as int == sum_range(after, j - low_bit(j as usize), j) by {
                    if j > old_idx {
                        let d = (j - old_idx) as usize;
                        lemma_low_bit_between(old_idx, d);
                        lemma_low_bit(j as usize);
                        lemma_update_locality(before, index as int, x, j - low_bit(j as usize), j);
                        assert(prev[j] as int == sum_range(before, j - low_bit(j as usize), j));
                    } else if j < old_idx {
                        assert(prev[j] as int == sum_range(after, j - low_bit(j as usize), j));
                    }
                }
                assert forall|j: int| 1 <= j <= size && j >= idx implies #[trigger] self.tree@[j] as int == sum_range(before, j - low_bit(j as usize), j) by {
                    assert(prev[j] as int == sum_range(before, j - low_bit(j as usize), j));
                }
            }
        }
    }

    /// The sum of the elements up to and including `index`; an index past the end is read as
    /// the last one.
    pub fn sum(&self, index: usize) -> (r: i64)
        requires
            self.wf(),
            self@.len() > 0,
        ensures
            r == prefix_sum(self@, index as int),
    {
        let ghost vals = self@;
        let end: usize = if index >= self.size { self.size } else { index + 1 };
        let mut idx: usize = end;
        let mut acc: i64 = 0;
        while idx > 0
            invariant
                self.wf(),
                vals == self@,
                idx <= end <= self.size,
                acc == sum_range(vals, idx as int, end as int),
            decreases idx,
        {
            proof {
                lemma_low_bit(idx);
                assert(self.tree@[idx as int] as int == sum_range(vals, idx - low_bit(idx), idx as int));
                lemma_sum_split(vals, idx - low_bit(idx), idx as int, end as int);
                lemma_sum_fits(vals, idx - low_bit(idx), end as int);
            }
            acc = acc + self.tree[idx];
            idx = idx & (idx - 1);
        }
        acc
    }

    /// The sum of the inclusive range `[left, right]` of the elements.
    pub fn range_sum(&self, left: usize, right: usize) -> (r: i64)
        requires
            self.wf(),
            left <= right < self@.len(),
        ensures
            r == sum_range(self@, left as int, right + 1),
    {
        if left == 0 {
            self.sum(right)
        } else {
            let a = self.sum(right);
            let b = self.sum(left - 1);
            proof {
                lemma_sum_split(self@, 0, left as int, right + 1);
                lemma_sum_fits(self@, left as int, right + 1);
            }
            a - b
        }
    }

    /// The element at `index`.
    pub fn get(&self, index: usize) -> (r: i64)
        requires
            self.wf(),
            index < self@.len(),
        ensures
            r == self@[index as int],
    {
        let r = self.range_sum(index, index);
        proof {
            assert(sum_range(self@, index as int, index + 1) == sum_range(self@, index as int, index as int) + self@[index as int]);
        }
        r
    }

    /// Replaces the element at `index` by `value`, by adding the difference from the current
    /// element.
    pub fn set(&mut self, index: usize, value: i64)
        requires
            old(self).wf(),
            index < old(self)@.len(),
            fits_i64(value - old(self)@[index as int]),
            sums_fit(old(self)@.update(index as int, value)),
        ensures
            final(self).wf(),
            final(self)@ == old(self)@.update(index as int, value),
    {
        let current = self.get(index);
        self.add(index, value - current);
    }
}

proof fn lemma_zero_sum(s: Seq<i64>, lo: int, hi: int)
    requires
        forall|j: int| 0 <= j < s.len() ==> s[j] == 0,
    ensures
        sum_range(s, lo, hi) == 0,
    decreases hi - lo,
{
    if lo < hi {
        lemma_zero_sum(s, lo, hi - 1);
    }
}

} // verus!
