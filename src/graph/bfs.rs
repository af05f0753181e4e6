use vstd::prelude::*;

use crate::graph::reach::{
    count_false, is_path, lemma_closed_holds_path, lemma_mark_decreases, lemma_path_step,
    reachable, valid_graph,
};

verus! {

/// What a traversal from `start` over `graph` guarantees, given the marks `before` it began
/// with: `order` starts at `start`, holds no node twice, holds exactly the nodes reachable from
/// `start` through nodes that were not marked, and `after` marks what `before` marked and
/// every node of `order`.
pub open spec fn traversal(
    graph: Seq<Vec<usize>>,
    start: int,
    before: Seq<bool>,
    after: Seq<bool>,
    order: Seq<usize>,
) -> bool {
    &&& after.len() == before.len()
    &&& order.len() >= 1
    &&& order[0] == start
    &&& order.no_duplicates()
    &&& forall|i: int| 0 <= i < order.len() ==> #[trigger] order[i] < graph.len()
    &&& forall|v: int| 0 <= v < graph.len() ==> (#[trigger] order.contains(v as usize) <==> reachable(graph, start, before, v))
    &&& forall|v: int| 0 <= v < after.len() ==> #[trigger] after[v] == (before[v] || order.contains(v as usize))
}

/// Breadth-first traversal from `start`: marks in `visited` every node it reaches and returns
/// them in the order they were visited.
pub fn bfs(graph: &Vec<Vec<usize>>, start: usize, visited: &mut Vec<bool>) -> (order: Vec<usize>)
    requires
        valid_graph(graph@),
        start < graph@.len(),
        old(visited)@.len() == graph@.len(),
    ensures
        traversal(graph@, start as int, old(visited)@, final(visited)@, order@),
{
    let ghost g = graph@;
    let ghost v0 = visited@;
    let n = graph.len();
    let mut order: Vec<usize> = Vec::new();
    proof {
        lemma_mark_decreases(visited@, start as int);
    }
    visited.set(start, true);
    order.push(start);
    assert(is_path(g, start as int, v0, seq![start]));
    assert forall|v: int| 0 <= v < n implies #[trigger] visited@[v] == (v0[v] || order@.contains(v as usize)) by {
        if v == start {
            assert(order@[0] == start);
        } else {
            assert(!order@.contains(v as usize)) by {
                if order@.contains(v as usize) {
                    let i = choose|i: int| 0 <= i < order@.len() && order@[i] == v as usize;
                }
            }
        }
    }
    let mut head: usize = 0;
    while head < order.len()
        invariant
            g == graph@,
            n == g.len(),
            valid_graph(g),
            start < n,
            visited@.len() == n,
            v0.len() == n,
            1 <= order@.len(),
            head <= order@.len(),
            order@[0] == start,
            order@.no_duplicates(),
            forall|i: int| 0 <= i < order@.len() ==> #[trigger] order@[i] < n,
            forall|v: int| 0 <= v < n ==> #[trigger] visited@[v] == (v0[v] || order@.contains(v as usize)),
            forall|i: int| 0 <= i < order@.len() ==> reachable(g, start as int, v0, #[trigger] order@[i] as int),
            forall|i: int, j: int|
                0 <= i < head && 0 <= j < g[order@[i] as int]@.len() ==> #[trigger] visited@[g[order@[i] as int]@[j] as int],
        decreases 2 * count_false(visited@) + order@.len() - head,
    {
        let node = order[head];
        head = head + 1;
        let nbrs = &graph[node];
        let mut j: usize = 0;
        let ghost m0 = 2 * count_false(visited@) + order@.len();
        while j < nbrs.len()
            invariant
                2 * count_false(visited@) + order@.len() <= m0,
                g == graph@,
                n == g.len(),
                valid_graph(g),
                start < n,
                node < n,
                nbrs@ == g[node as int]@,
                node == order@[head - 1],
                visited@.len() == n,
                v0.len() == n,
                1 <= order@.len(),
                1 <= head <= order@.len(),
                order@[0] == start,
                order@.no_duplicates(),
                j <= nbrs@.len(),
                forall|i: int| 0 <= i < order@.len() ==> #[trigger] order@[i] < n,
                forall|v: int| 0 <= v < n ==> #[trigger] visited@[v] == (v0[v] || order@.contains(v as usize)),
                forall|i: int| 0 <= i < order@.len() ==> reachable(g, start as int, v0, #[trigger] order@[i] as int),
                forall|i: int, k: int|
                    0 <= i < head - 1 && 0 <= k < g[order@[i] as int]@.len() ==> #[trigger] visited@[g[order@[i] as int]@[k] as int],
                forall|k: int| 0 <= k < j ==> #[trigger] visited@[nbrs@[k] as int],
            decreases nbrs@.len() - j,
        {
            let w = nbrs[j];
            assert(w < n);
            if !visited[w] {
                proof {
                    lemma_mark_decreases(visited@, w as int);
                    assert(reachable(g, start as int, v0, order@[head - 1] as int));
                    assert(!v0[w as int]);
                    lemma_path_step(g, start as int, v0, node as int, j as int);
                    assert(!order@.contains(w));
                }
                let ghost prev = order@;
                visited.set(w, true);
                order.push(w);
                proof {
                    assert(order@ == prev.push(w));
                    assert forall|v: int| 0 <= v < n implies #[trigger] visited@[v] == (v0[v] || order@.contains(v as usize)) by {
                        if prev.contains(v as usize) {
                            let i = choose|i: int| 0 <= i < prev.len() && prev[i] == v as usize;
                            assert(order@[i] == v as usize);
                        }
                        if order@.contains(v as usize) && v != w {
                            let i = choose|i: int| 0 <= i < order@.len() && order@[i] == v as usize;
                            assert(prev[i] == v as usize);
                        }
                        if v == w {
                            assert(order@[prev.len() as int] == w);
                        }
                    }
                    assert(reachable(g, start as int, v0, w as int));
                }
            }
            j = j + 1;
        }
    }
    proof {
        let marked = Seq::new(n as nat, |v: int| order@.contains(v as usize));
        assert(order@[0] == start);
        assert(marked[start as int]);
        assert forall|u: int, j: int|
            0 <= u < g.len() && marked[u] && 0 <= j < g[u]@.len() && !v0[g[u]@[j] as int]
                implies #[trigger] marked[g[u]@[j] as int] by {
            let i = choose|i: int| 0 <= i < order@.len() && order@[i] == u as usize;
            assert(visited@[g[order@[i] as int]@[j] as int]);
        }
        assert forall|v: int| 0 <= v < n implies (#[trigger] order@.contains(v as usize) <==> reachable(g, start as int, v0, v)) by {
            if order@.contains(v as usize) {
                let i = choose|i: int| 0 <= i < order@.len() && order@[i] == v as usize;
                assert(reachable(g, start as int, v0, order@[i] as int));
            }
            if reachable(g, start as int, v0, v) {
                let p = choose|p: Seq<usize>| #[trigger] is_path(g, start as int, v0, p) && p.last() == v;
                lemma_closed_holds_path(g, start as int, v0, marked, p);
            }
        }
    }
    order
}

/// Breadth-first traversal from `start` that hands each node it visits to `callback`, in the
/// order of `bfs`.
pub fn bfs_with_callback<F: FnMut(usize)>(
    graph: &Vec<Vec<usize>>,
    start: usize,
    visited: &mut Vec<bool>,
    callback: &mut F,
)
    requires
        valid_graph(graph@),
        start < graph@.len(),
        old(visited)@.len() == graph@.len(),
        forall|f: F, x: usize| x < graph@.len() ==> call_requires(f, (x,)),
    ensures
        exists|order: Seq<usize>| traversal(graph@, start as int, old(visited)@, final(visited)@, order),
{
    let order = bfs(graph, start, visited);
    let mut i: usize = 0;
    while i < order.len()
        invariant
            i <= order@.len(),
            forall|k: int| 0 <= k < order@.len() ==> #[trigger] order@[k] < graph@.len(),
            forall|f: F, x: usize| x < graph@.len() ==> call_requires(f, (x,)),
        decreases order@.len() - i,
    {
        callback(order[i]);
        i = i + 1;
    }
}

} // verus!
