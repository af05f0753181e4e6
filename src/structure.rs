pub mod fenwick;
pub mod range;
pub mod segtree;

pub use fenwick::FenwickTree;
pub use segtree::SegmentTree;

use vstd::prelude::*;

use crate::structure::fenwick::prefix_sum;
use crate::structure::range::{lemma_sum_whole, sum_range, total};

verus! {

/// For every non-empty sequence, the segment tree's sum over the whole half-open range, the
/// Fenwick tree's prefix sum up to the last index, and the total of the elements are one value.
pub proof fn lemma_whole_sums_agree(v: Seq<i64>)
    requires
        v.len() >= 1,
    ensures
        sum_range(v, 0, v.len() as int) == prefix_sum(v, v.len() - 1),
        prefix_sum(v, v.len() - 1) == total(v),
{
    lemma_sum_whole(v);
}

} // verus!
