use vstd::prelude::*;

verus! {

/// Every adjacency list of `g` names nodes of `g`.
pub open spec fn valid_graph(g: Seq<Vec<usize>>) -> bool {
    forall|u: int, j: int| 0 <= u < g.len() && 0 <= j < g[u]@.len() ==> #[trigger] g[u]@[j] < g.len()
}

/// `b` is a neighbour of `a` in `g` that `avoid` does not mark.
pub open spec fn step(g: Seq<Vec<usize>>, avoid: Seq<bool>, a: usize, b: usize) -> bool {
    g[a as int]@.contains(b) && !avoid[b as int]
}

/// `p` is a walk in `g` from `start`: each node is followed by one of its neighbours, and
/// every node after the first is one that `avoid` does not mark.
pub open spec fn is_path(g: Seq<Vec<usize>>, start: int, avoid: Seq<bool>, p: Seq<usize>) -> bool {
    &&& p.len() >= 1
    &&& p[0] == start
    &&& forall|i: int| 0 <= i < p.len() ==> #[trigger] p[i] < g.len()
    &&& forall|i: int| 0 <= i < p.len() - 1 ==> #[trigger] step(g, avoid, p[i], p[i + 1])
}

/// `v` can be reached from `start` entering only nodes that `avoid` does not mark.
pub open spec fn reachable(g: Seq<Vec<usize>>, start: int, avoid: Seq<bool>, v: int) -> bool {
    exists|p: Seq<usize>| #[trigger] is_path(g, start, avoid, p) && p.last() == v
}

/// The number of unmarked entries.
pub open spec fn count_false(s: Seq<bool>) -> nat
    decreases s.len(),
{
    if s.len() == 0 {
        0
    } else {
        count_false(s.drop_last()) + if s.last() { 0nat } else { 1nat }
    }
}

pub proof fn lemma_mark_decreases(s: Seq<bool>, i: int)
    requires
        0 <= i < s.len(),
    ensures
        !s[i] ==> count_false(s.update(i, true)) + 1 == count_false(s),
        s[i] ==> count_false(s.update(i, true)) == count_false(s),
    decreases s.len(),
{
    let t = s.update(i, true);
    if i == s.len() - 1 {
        assert(t.drop_last() =~= s.drop_last());
    } else {
        lemma_mark_decreases(s.drop_last(), i);
        assert(t.drop_last() =~= s.drop_last().update(i, true));
    }
}

/// A walk to `u` followed by a step to a neighbour of `u` that `avoid` does not mark reaches
/// that neighbour.
pub proof fn lemma_path_step(g: Seq<Vec<usize>>, start: int, avoid: Seq<bool>, u: int, j: int)
    requires
        reachable(g, start, avoid, u),
        valid_graph(g),
        0 <= u < g.len(),
        0 <= j < g[u]@.len(),
        !avoid[g[u]@[j] as int],
    ensures
        reachable(g, start, avoid, g[u]@[j] as int),
{
    let p = choose|p: Seq<usize>| #[trigger] is_path(g, start, avoid, p) && p.last() == u;
    let w = g[u]@[j];
    let q = p.push(w);
    assert(g[u]@.contains(w));
    assert forall|i: int| 0 <= i < q.len() - 1 implies #[trigger] step(g, avoid, q[i], q[i + 1]) by {
        if i < p.len() - 1 {
            assert(q[i] == p[i] && q[i + 1] == p[i + 1]);
        }
    }
    assert(is_path(g, start, avoid, q));
}

/// A node set that holds `start` and is closed under the steps that `avoid` allows holds the
/// end of every walk from `start`.
pub proof fn lemma_closed_holds_path(
    g: Seq<Vec<usize>>,
    start: int,
    avoid: Seq<bool>,
    marked: Seq<bool>,
    p: Seq<usize>,
)
    requires
        marked.len() == g.len(),
        valid_graph(g),
        0 <= start < g.len(),
        marked[start],
        forall|u: int, j: int|
            0 <= u < g.len() && marked[u] && 0 <= j < g[u]@.len() && !avoid[g[u]@[j] as int]
                ==> #[trigger] marked[g[u]@[j] as int],
        is_path(g, start, avoid, p),
    ensures
        marked[p.last() as int],
    decreases p.len(),
{
    if p.len() > 1 {
        let q = p.drop_last();
        assert forall|i: int| 0 <= i < q.len() - 1 implies #[trigger] step(g, avoid, q[i], q[i + 1]) by {
            assert(q[i] == p[i] && q[i + 1] == p[i + 1]);
        }
        lemma_closed_holds_path(g, start, avoid, marked, q);
        let u = q.last() as int;
        let i = p.len() - 2;
        assert(step(g, avoid, p[i], p[i + 1]));
        assert(p[i] == q.last() && p[i + 1] == p.last());
        let j = choose|j: int| 0 <= j < g[u]@.len() && g[u]@[j] == p.last();
        assert(marked[g[u]@[j] as int]);
    }
}

/// Marking more entries leaves no more unmarked ones.
pub proof fn lemma_count_false_mono(a: Seq<bool>, b: Seq<bool>)
    requires
        a.len() == b.len(),
        forall|i: int| 0 <= i < a.len() && a[i] ==> #[trigger] b[i],
    ensures
        count_false(b) <= count_false(a),
    decreases a.len(),
{
    if a.len() > 0 {
        lemma_count_false_mono(a.drop_last(), b.drop_last());
    }
}

/// A step from `a` to `w` followed by a walk from `w` that avoids a larger mark set is a walk
/// from `a`.
pub proof fn lemma_path_prepend(
    g: Seq<Vec<usize>>,
    a: usize,
    avoid: Seq<bool>,
    wider: Seq<bool>,
    p: Seq<usize>,
)
    requires
        0 <= a < g.len(),
        avoid.len() == g.len(),
        avoid.len() == wider.len(),
        forall|i: int| 0 <= i < avoid.len() && avoid[i] ==> #[trigger] wider[i],
        is_path(g, p[0] as int, wider, p),
        g[a as int]@.contains(p[0]),
        !avoid[p[0] as int],
        p[0] < avoid.len(),
    ensures
        is_path(g, a as int, avoid, seq![a] + p),
{
    let q = seq![a] + p;
    assert forall|i: int| 0 <= i < q.len() implies #[trigger] q[i] < g.len() by {
        if i > 0 {
            assert(q[i] == p[i - 1]);
        }
    }
    assert forall|i: int| 0 <= i < q.len() - 1 implies #[trigger] step(g, avoid, q[i], q[i + 1]) by {
        if i > 0 {
            let k = i - 1;
            assert(q[i] == p[k] && q[i + 1] == p[k + 1]);
            assert(step(g, wider, p[k], p[k + 1]));
            assert(p[i] < g.len());
            assert(!avoid[p[i] as int]);
        } else {
            assert(q[0] == a && q[1] == p[0]);
        }
    }
}

} // verus!
