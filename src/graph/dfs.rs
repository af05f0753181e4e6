use vstd::prelude::*;

use crate::graph::bfs::traversal;
use crate::graph::reach::{
    count_false, is_path, lemma_closed_holds_path, lemma_count_false_mono, lemma_mark_decreases,
    lemma_path_prepend, reachable, valid_graph,
};

verus! {

/// What one depth-first visit of `node` guarantees: `after_order` is `before_order` followed by
/// the nodes it newly visited, which start at `node`, repeat nothing, were unmarked before
/// (but for `node`), are reachable from `node` through nodes that were unmarked, are now
/// marked, and have all their neighbours marked.
pub open spec fn visit(
    g: Seq<Vec<usize>>,
    node: int,
    before: Seq<bool>,
    after: Seq<bool>,
    before_order: Seq<usize>,
    after_order: Seq<usize>,
) -> bool {
    let added = after_order.subrange(before_order.len() as int, after_order.len() as int);
    &&& after.len() == before.len()
    &&& after_order.len() > before_order.len()
    &&& after_order.subrange(0, before_order.len() as int) == before_order
    &&& added[0] == node
    &&& added.no_duplicates()
    &&& forall|i: int| 0 <= i < added.len() ==> #[trigger] added[i] < g.len()
    &&& forall|i: int| 1 <= i < added.len() ==> !before[#[trigger] added[i] as int]
    &&& forall|i: int| 0 <= i < added.len() ==> reachable(g, node, before, #[trigger] added[i] as int)
    &&& forall|v: int| 0 <= v < after.len() ==> #[trigger] after[v] == (before[v] || added.contains(v as usize))
    &&& forall|i: int, j: int|
        0 <= i < added.len() && 0 <= j < g[added[i] as int]@.len() ==> #[trigger] after[g[added[i] as int]@[j] as int]
}

/// Depth-first traversal from `start`: marks in `visited` every node it reaches and returns
/// them in the order they were first visited.
pub fn dfs(graph: &Vec<Vec<usize>>, start: usize, visited: &mut Vec<bool>) -> (order: Vec<usize>)
    requires
        valid_graph(graph@),
        start < graph@.len(),
        old(visited)@.len() == graph@.len(),
    ensures
        traversal(graph@, start as int, old(visited)@, final(visited)@, order@),
{
    let ghost g = graph@;
    let ghost v0 = visited@;
    let n = graph.len();
    let mut order: Vec<usize> = Vec::new();
    dfs_helper(
        graph,
        start,
        visited,
        &mut order,
        Ghost(2 * count_false(visited@) + if visited@[start as int] { 1int } else { 0int }),
    );
    proof {
        let added = order@.subrange(0, order@.len() as int);
        assert(added =~= order@);
        let marked = Seq::new(n as nat, |v: int| order@.contains(v as usize));
        assert(marked[start as int]) by {
            assert(order@[0] == start);
        }
        assert forall|u: int, j: int|
            0 <= u < g.len() && marked[u] && 0 <= j < g[u]@.len() && !v0[g[u]@[j] as int]
                implies #[trigger] marked[g[u]@[j] as int] by {
            let i = choose|i: int| 0 <= i < order@.len() && order@[i] == u as usize;
            assert(added[i] == u);
            assert(visited@[g[added[i] as int]@[j] as int]);
            assert(order@.contains(g[u]@[j]) || v0[g[u]@[j] as int]);
        }
        assert forall|v: int| 0 <= v < n implies (#[trigger] order@.contains(v as usize) <==> reachable(g, start as int, v0, v)) by {
            if order@.contains(v as usize) {
                let i = choose|i: int| 0 <= i < order@.len() && order@[i] == v as usize;
                assert(added[i] == v as usize);
                assert(reachable(g, start as int, v0, added[i] as int));
            }
            if reachable(g, start as int, v0, v) {
                let p = choose|p: Seq<usize>| #[trigger] is_path(g, start as int, v0, p) && p.last() == v;
                lemma_closed_holds_path(g, start as int, v0, marked, p);
            }
        }
    }
    order
}

fn dfs_helper(
    graph: &Vec<Vec<usize>>,
    node: usize,
    visited: &mut Vec<bool>,
    order: &mut Vec<usize>,
    measure: Ghost<int>,
)
    requires
        measure@ == 2 * count_false(old(visited)@) + if old(visited)@[node as int] { 1int } else { 0int },
        valid_graph(graph@),
        node < graph@.len(),
        old(visited)@.len() == graph@.len(),
    ensures
        visit(graph@, node as int, old(visited)@, final(visited)@, old(order)@, final(order)@),
    decreases measure@,
{
    let ghost g = graph@;
    let ghost v0 = visited@;
    let ghost o0 = order@;
    let n = graph.len();
    proof {
        lemma_mark_decreases(visited@, node as int);
    }
    visited.set(node, true);
    order.push(node);
    proof {
        assert(is_path(g, node as int, v0, seq![node]));
        let added = order@.subrange(o0.len() as int, order@.len() as int);
        assert(added =~= seq![node]);
        assert forall|v: int| 0 <= v < n implies #[trigger] visited@[v] == (v0[v] || added.contains(v as usize)) by {
            if v == node {
                assert(added[0] == node);
            }
        }
    }
    let nbrs = &graph[node];
    let mut j: usize = 0;
    while j < nbrs.len()
        invariant
            g == graph@,
            n == g.len(),
            valid_graph(g),
            node < n,
            nbrs@ == g[node as int]@,
            v0.len() == n,
            visited@.len() == n,
            count_false(visited@) + (if v0[node as int] { 0int } else { 1int }) <= count_false(v0),
            measure@ == 2 * count_false(v0) + if v0[node as int] { 1int } else { 0int },
            j <= nbrs@.len(),
            order@.len() > o0.len(),
            order@.subrange(0, o0.len() as int) == o0,
            ({
                let added = order@.subrange(o0.len() as int, order@.len() as int);
                &&& added[0] == node
                &&& added.no_duplicates()
                &&& forall|i: int| 0 <= i < added.len() ==> #[trigger] added[i] < n
                &&& forall|i: int| 1 <= i < added.len() ==> !v0[#[trigger] added[i] as int]
                &&& forall|i: int| 0 <= i < added.len() ==> reachable(g, node as int, v0, #[trigger] added[i] as int)
                &&& forall|v: int| 0 <= v < n ==> #[trigger] visited@[v] == (v0[v] || added.contains(v as usize))
                &&& forall|i: int, k: int|
                    1 <= i < added.len() && 0 <= k < g[added[i] as int]@.len() ==> #[trigger] visited@[g[added[i] as int]@[k] as int]
            }),
            forall|k: int| 0 <= k < j ==> #[trigger] visited@[nbrs@[k] as int],
        decreases nbrs@.len() - j,
    {
        let w = nbrs[j];
        if !visited[w] {
            let ghost vb = visited@;
            let ghost ob = order@;
            proof {
                assert(!vb[w as int]);

            }
            dfs_helper(graph, w, visited, order, Ghost(2 * count_false(vb) as int));
            proof {
                let a = ob.subrange(o0.len() as int, ob.len() as int);
                let b = order@.subrange(ob.len() as int, order@.len() as int);
                let c = order@.subrange(o0.len() as int, order@.len() as int);
                assert(order@ =~= ob + b) by {
                    assert(order@.subrange(0, ob.len() as int) == ob);
                }
                assert(ob =~= o0 + a) by {
                    assert(ob.subrange(0, o0.len() as int) == o0);
                }
                assert(c =~= a + b);
                assert(order@.subrange(0, o0.len() as int) =~= o0);
                assert forall|v: int| 0 <= v < n implies #[trigger] visited@[v] == (v0[v] || c.contains(v as usize)) by {
                    if a.contains(v as usize) {
                        let i = choose|i: int| 0 <= i < a.len() && a[i] == v as usize;
                        assert(c[i] == v as usize);
                    }
                    if b.contains(v as usize) {
                        let i = choose|i: int| 0 <= i < b.len() && b[i] == v as usize;
                        assert(c[a.len() + i] == v as usize);
                    }
                    if c.contains(v as usize) {
                        let i = choose|i: int| 0 <= i < c.len() && c[i] == v as usize;
                        if i < a.len() {
                            assert(a[i] == v as usize);
                        } else {
                            assert(b[i - a.len()] == v as usize);
                        }
                    }
                }
                assert(c.no_duplicates()) by {
                    assert forall|i: int, k: int| 0 <= i < c.len() && 0 <= k < c.len() && i != k implies c[i] != c[k] by {
                        if i < a.len() && k >= a.len() {
                            assert(vb[a[i] as int]) by {
                                assert(a.contains(a[i]));
                            }
                            let kk = k - a.len();
                            if kk == 0 {
                                assert(b[0] == w);
                            } else {
                                assert(!vb[b[kk] as int]);
                            }
                        } else if k < a.len() && i >= a.len() {
                            assert(vb[a[k] as int]) by {
                                assert(a.contains(a[k]));
                            }
                            let ii = i - a.len();
                            if ii == 0 {
                                assert(b[0] == w);
                            } else {
                                assert(!vb[b[ii] as int]);
                            }
                        } else if i < a.len() {
                            assert(a[i] != a[k]);
                        } else {
                            assert(b[i - a.len()] != b[k - a.len()]);
                        }
                    }
                }
                assert forall|i: int| 0 <= i < c.len() implies reachable(g, node as int, v0, #[trigger] c[i] as int) by {
                    if i >= a.len() {
                        let x = b[i - a.len()];
                        assert(reachable(g, w as int, vb, x as int));
                        let p = choose|p: Seq<usize>| #[trigger] is_path(g, w as int, vb, p) && p.last() == x as int;
                        assert(g[node as int]@.contains(w)) by {
                            assert(nbrs@[j as int] == w);
                        }
                        lemma_path_prepend(g, node, v0, vb, p);
                        let q = seq![node] + p;
                        assert(q.last() == x);
                        assert(is_path(g, node as int, v0, q));
                    } else {
                        assert(c[i] == a[i]);
                    }
                }
                assert forall|i: int| 1 <= i < c.len() implies !v0[#[trigger] c[i] as int] by {
                    if i >= a.len() {
                        let ii = i - a.len();
                        if ii == 0 {
                            assert(b[0] == w);
                        } else {
                            assert(!vb[b[ii] as int]);
                        }
                    } else {
                        assert(c[i] == a[i]);
                    }
                }
                assert forall|i: int, k: int|
                    1 <= i < c.len() && 0 <= k < g[c[i] as int]@.len() implies #[trigger] visited@[g[c[i] as int]@[k] as int] by {
                    if i >= a.len() {
                        assert(c[i] == b[i - a.len()]);
                    } else {
                        assert(c[i] == a[i]);
                        assert(vb[g[a[i] as int]@[k] as int]);
                    }
                }
                assert forall|i: int| 0 <= i < c.len() implies #[trigger] c[i] < n by {
                    if i >= a.len() {
                        assert(c[i] == b[i - a.len()]);
                    } else {
                        assert(c[i] == a[i]);
                    }
                }
                assert(c[0] == node) by {
                    assert(c[0] == a[0]);
                }
                assert forall|k: int| 0 <= k <= j implies #[trigger] visited@[nbrs@[k] as int] by {
                    if k == j {
                        assert(b[0] == w);
                        assert(c[a.len() as int] == w);
                    }
                }
                lemma_count_false_mono(vb, visited@);
            }
        }
        j = j + 1;
    }
}

/// Depth-first traversal from `start` that hands each node it visits to `callback`, in the
/// order of `dfs`.
pub fn dfs_with_callback<F: FnMut(usize)>(
    graph: &Vec<Vec<usize>>,
    start: usize,
    visited: &mut Vec<bool>,
    callback: &mut F,
)
    requires
        valid_graph(graph@),
        start < graph@.len(),
        old(visited)@.len() == graph@.len(),
        forall|f: F, x: usize| x < graph@.len() ==> call_requires(f, (x,)),
    ensures
        exists|order: Seq<usize>| traversal(graph@, start as int, old(visited)@, final(visited)@, order),
{
    let order = dfs(graph, start, visited);
    let mut i: usize = 0;
    while i < order.len()
        invariant
            i <= order@.len(),
            forall|k: int| 0 <= k < order@.len() ==> #[trigger] order@[k] < graph@.len(),
            forall|f: F, x: usize| x < graph@.len() ==> call_requires(f, (x,)),
        decreases order@.len() - i,
    {
        callback(order[i]);
        i = i + 1;
    }
}

} // verus!
