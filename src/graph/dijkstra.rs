use vstd::prelude::*;

verus! {

/// A weighted edge to `node` of cost `cost`.
#[derive(Debug, Clone)]
pub struct Edge {
    pub node: usize,
    pub cost: usize,
}

/// Every edge of `g` leads to a node of `g`.
pub open spec fn valid_network(g: Seq<Vec<Edge>>) -> bool {
    forall|u: int, j: int| 0 <= u < g.len() && 0 <= j < g[u]@.len() ==> #[trigger] g[u]@[j].node < g.len()
}

/// Where the walk from `start` that takes, at each node, the edge of index `js[i]` ends and
/// what it costs; `None` when some index names no edge.
pub open spec fn walk(g: Seq<Vec<Edge>>, start: int, js: Seq<int>) -> Option<(int, int)>
    decreases js.len(),
{
    if js.len() == 0 {
        Some((start, 0))
    } else {
        match walk(g, start, js.drop_last()) {
            Some((u, c)) => if 0 <= u < g.len() && 0 <= js.last() < g[u]@.len() {
                Some((g[u]@[js.last()].node as int, c + g[u]@[js.last()].cost))
            } else {
                None
            },
            None => None,
        }
    }
}

/// Some walk from `start` ends at `v` and costs `c`.
pub open spec fn has_walk(g: Seq<Vec<Edge>>, start: int, v: int, c: int) -> bool {
    exists|js: Seq<int>| #[trigger] walk(g, start, js) == Some((v, c))
}

/// No edge out of `u` leads to a node whose distance exceeds that of `u` plus the edge's cost
/// (where that sum is a distance that can be held).
pub open spec fn relaxed(g: Seq<Vec<Edge>>, d: Seq<usize>, u: int) -> bool {
    forall|j: int|
        0 <= j < g[u]@.len() && d[u] + g[u]@[j].cost <= usize::MAX ==> #[trigger] d[g[u]@[j].node as int]
            <= d[u] + g[u]@[j].cost
}

/// `d` holds the shortest distances from `start`: zero at `start`, each finite one is the cost
/// of a walk, no walk costs less than the distance of its end, and `usize::MAX` marks a node
/// that no walk of smaller cost reaches.
pub open spec fn shortest(g: Seq<Vec<Edge>>, start: int, d: Seq<usize>) -> bool {
    &&& d.len() == g.len()
    &&& d[start] == 0
    &&& forall|v: int| 0 <= v < d.len() && d[v] < usize::MAX ==> has_walk(g, start, v, #[trigger] d[v] as int)
    &&& forall|js: Seq<int>|
        (#[trigger] walk(g, start, js)).is_some() ==> d[walk(g, start, js).unwrap().0] <= walk(
            g,
            start,
            js,
        ).unwrap().1
}

/// The sum of the entries.
pub open spec fn total(s: Seq<usize>) -> nat
    decreases s.len(),
{
    if s.len() == 0 {
        0
    } else {
        total(s.drop_last()) + s.last() as nat
    }
}

proof fn lemma_total_update(s: Seq<usize>, i: int, x: usize)
    requires
        0 <= i < s.len(),
    ensures
        total(s.update(i, x)) + s[i] == total(s) + x,
    decreases s.len(),
{
    let t = s.update(i, x);
    if i == s.len() - 1 {
        assert(t.drop_last() =~= s.drop_last());
    } else {
        lemma_total_update(s.drop_last(), i, x);
        assert(t.drop_last() =~= s.drop_last().update(i, x));
    }
}

proof fn lemma_walk_extend(g: Seq<Vec<Edge>>, start: int, js: Seq<int>, u: int, c: int, j: int)
    requires
        walk(g, start, js) == Some((u, c)),
        0 <= u < g.len(),
        0 <= j < g[u]@.len(),
    ensures
        walk(g, start, js.push(j)) == Some((g[u]@[j].node as int, c + g[u]@[j].cost)),
{
    assert(js.push(j).drop_last() =~= js);
}

/// With zero at `start` and every node relaxed, no walk from `start` costs less than the
/// distance of its end.
pub proof fn lemma_relaxed_is_lower_bound(g: Seq<Vec<Edge>>, start: int, d: Seq<usize>, js: Seq<int>)
    requires
        valid_network(g),
        0 <= start < g.len(),
        d.len() == g.len(),
        d[start] == 0,
        forall|u: int| 0 <= u < g.len() ==> #[trigger] relaxed(g, d, u),
    ensures
        match walk(g, start, js) {
            Some((v, c)) => 0 <= v < g.len() && d[v] <= c,
            None => true,
        },
    decreases js.len(),
{
    if js.len() > 0 {
        lemma_relaxed_is_lower_bound(g, start, d, js.drop_last());
        match walk(g, start, js.drop_last()) {
            Some((u, c)) => {
                if 0 <= u < g.len() && 0 <= js.last() < g[u]@.len() {
                    let j = js.last();
                    assert(relaxed(g, d, u));
                    assert(g[u]@[j].node < g.len());
                    if d[u] + g[u]@[j].cost <= usize::MAX {
                        assert(d[g[u]@[j].node as int] <= d[u] + g[u]@[j].cost);
                    }
                }
            },
            None => {},
        }
    }
}

/// `parent` records a last step of a shortest walk: `start` and the nodes out of reach have
/// none; every other node has a parent with an edge to it whose cost is the difference of
/// their distances.
pub open spec fn parents(g: Seq<Vec<Edge>>, start: int, d: Seq<usize>, parent: Seq<Option<usize>>) -> bool {
    &&& parent.len() == g.len()
    &&& parent[start] is None
    &&& forall|v: int| 0 <= v < g.len() && d[v] == usize::MAX ==> #[trigger] parent[v] is None
    &&& forall|v: int|
        0 <= v < g.len() && v != start && d[v] < usize::MAX ==> match #[trigger] parent[v] {
            Some(u) => u < g.len() && exists|j: int|
                0 <= j < g[u as int]@.len() && g[u as int]@[j].node == v && #[trigger] g[u as int]@[j].cost
                    + d[u as int] == d[v],
            None => false,
        }
}

/// Removes and returns an entry of least cost.
fn pop_min(pq: &mut Vec<(usize, usize)>) -> (r: (usize, usize, Ghost<int>))
    requires
        old(pq)@.len() > 0,
    ensures
        0 <= r.2@ < old(pq)@.len(),
        old(pq)@[r.2@] == (r.0, r.1),
        final(pq)@ == old(pq)@.remove(r.2@),
        forall|k: int| 0 <= k < old(pq)@.len() ==> r.0 <= #[trigger] old(pq)@[k].0,
{
    let mut best: usize = 0;
    let mut k: usize = 1;
    while k < pq.len()
        invariant
            pq@.len() > 0,
            best < pq@.len(),
            1 <= k <= pq@.len(),
            forall|m: int| 0 <= m < k ==> pq@[best as int].0 <= #[trigger] pq@[m].0,
        decreases pq@.len() - k,
    {
        if pq[k].0 < pq[best].0 {
            best = k;
        }
        k = k + 1;
    }
    let e = pq.remove(best);
    (e.0, e.1, Ghost(best as int))
}

/// Shortest distances from `start`, with the last step of a shortest walk to each node.
pub fn dijkstra_with_path(graph: &[Vec<Edge>], start: usize) -> (r: (Vec<usize>, Vec<Option<usize>>))
    requires
        valid_network(graph@),
        start < graph@.len(),
    ensures
        shortest(graph@, start as int, r.0@),
        parents(graph@, start as int, r.0@, r.1@),
{
    let ghost g = graph@;
    let n = graph.len();
    let mut dist: Vec<usize> = Vec::new();
    let mut parent: Vec<Option<usize>> = Vec::new();
    let mut i: usize = 0;
    while i < n
        invariant
            i <= n,
            dist@.len() == i,
            parent@.len() == i,
            forall|v: int| 0 <= v < i ==> #[trigger] dist@[v] == usize::MAX && parent@[v] is None,
        decreases n - i,
    {
        dist.push(usize::MAX);
        parent.push(None);
        i = i + 1;
    }
    assert(dist@[start as int] == usize::MAX && parent@[start as int] is None);
    dist.set(start, 0);
    let mut pq: Vec<(usize, usize)> = Vec::new();
    pq.push((0, start));
    let ghost mut wk: Seq<Seq<int>> = Seq::new(n as nat, |v: int| Seq::<int>::empty());
    let ghost mut pw: Seq<Seq<int>> = seq![Seq::<int>::empty()];
    let ghost mut pj: Seq<int> = Seq::new(n as nat, |v: int| 0int);
    proof {
        assert forall|u: int| 0 <= u < n implies pq@.contains((dist@[u], u as usize)) || #[trigger] relaxed(g, dist@, u) by {
            if u == start {
                assert(pq@[0] == (dist@[u], u as usize));
            }
        }
    }
    while pq.len() > 0
        invariant
            g == graph@,
            n == g.len(),
            valid_network(g),
            start < n,
            dist@.len() == n,
            parent@.len() == n,
            wk.len() == n,
            pj.len() == n,
            pw.len() == pq@.len(),
            dist@[start as int] == 0,
            forall|k: int|
                0 <= k < pq@.len() ==> (#[trigger] pq@[k]).1 < n && dist@[pq@[k].1 as int] <= pq@[k].0
                    && walk(g, start as int, pw[k]) == Some((pq@[k].1 as int, pq@[k].0 as int)),
            forall|v: int|
                0 <= v < n && dist@[v] < usize::MAX ==> walk(g, start as int, wk[v]) == Some(
                    (v, #[trigger] dist@[v] as int),
                ),
            forall|u: int| 0 <= u < n ==> pq@.contains((dist@[u], u as usize)) || #[trigger] relaxed(g, dist@, u),
            parent@[start as int] is None,
            forall|v: int| 0 <= v < n && dist@[v] == usize::MAX ==> #[trigger] parent@[v] is None,
            forall|v: int|
                0 <= v < n && v != start && dist@[v] < usize::MAX ==> match #[trigger] parent@[v] {
                    Some(u) => u < n && 0 <= pj[v] < g[u as int]@.len() && g[u as int]@[pj[v]].node == v
                        && dist@[u as int] + g[u as int]@[pj[v]].cost <= dist@[v],
                    None => false,
                },
        decreases total(dist@), pq@.len(),
    {
        let ghost pq0 = pq@;
        let ghost s0 = total(dist@);
        let (cost, position, at) = pop_min(&mut pq);
        let ghost w0 = pw[at@];
        proof {
            pw = pw.remove(at@);
            assert(pq0[at@] == (cost, position));
            assert forall|k: int| 0 <= k < pq@.len() implies #[trigger] pq@[k] == pq0[if k < at@ { k } else { k + 1 }] by {}
        }
        proof {
            assert forall|u: int| 0 <= u < n && (u != position || cost != dist@[u]) implies pq@.contains((dist@[u], u as usize)) || #[trigger] relaxed(g, dist@, u) by {
                if pq0.contains((dist@[u], u as usize)) {
                    let k = choose|k: int| 0 <= k < pq0.len() && pq0[k] == (dist@[u], u as usize);
                    if k < at@ {
                        assert(pq@[k] == pq0[k]);
                    } else if k > at@ {
                        assert(pq@[k - 1] == pq0[k]);
                    }
                }
            }
        }
        if cost <= dist[position] {
            let edges = &graph[position];
            let ghost l0 = pq@.len();
            let mut j: usize = 0;
            while j < edges.len()
                invariant
                    g == graph@,
                    n == g.len(),
                    valid_network(g),
                    start < n,
                    position < n,
                    edges@ == g[position as int]@,
                    cost == dist@[position as int],
                    walk(g, start as int, w0) == Some((position as int, cost as int)),
                    j <= edges@.len(),
                    dist@.len() == n,
                    parent@.len() == n,
                    wk.len() == n,
                    pj.len() == n,
                    pw.len() == pq@.len(),
                    total(dist@) <= s0,
                    total(dist@) + pq@.len() <= s0 + l0,
                    dist@[start as int] == 0,
                    forall|k: int|
                        0 <= k < pq@.len() ==> (#[trigger] pq@[k]).1 < n && dist@[pq@[k].1 as int] <= pq@[k].0
                            && walk(g, start as int, pw[k]) == Some((pq@[k].1 as int, pq@[k].0 as int)),
                    forall|v: int|
                        0 <= v < n && dist@[v] < usize::MAX ==> walk(g, start as int, wk[v]) == Some(
                            (v, #[trigger] dist@[v] as int),
                        ),
                    forall|u: int|
                        0 <= u < n && u != position ==> pq@.contains((dist@[u], u as usize)) || #[trigger] relaxed(
                            g,
                            dist@,
                            u,
                        ),
                    forall|k: int|
                        0 <= k < j && cost + g[position as int]@[k].cost <= usize::MAX ==> #[trigger] dist@[g[position as int]@[k].node as int]
                            <= cost + g[position as int]@[k].cost,
                    parent@[start as int] is None,
                    forall|v: int| 0 <= v < n && dist@[v] == usize::MAX ==> #[trigger] parent@[v] is None,
                    forall|v: int|
                        0 <= v < n && v != start && dist@[v] < usize::MAX ==> match #[trigger] parent@[v] {
                            Some(u) => u < n && 0 <= pj[v] < g[u as int]@.len() && g[u as int]@[pj[v]].node == v
                                && dist@[u as int] + g[u as int]@[pj[v]].cost <= dist@[v],
                            None => false,
                        },
                decreases edges@.len() - j,
            {
                let w = edges[j].node;
                let c = edges[j].cost;
                assert(w < n);
                match cost.checked_add(c) {
                    Some(next) => {
                        if next < dist[w] {
                            let ghost d0 = dist@;
                            let ghost q0 = pq@;
                            let ghost par0 = parent@;
                            let ghost pj0 = pj;
                            proof {
                                lemma_total_update(dist@, w as int, next);
                                lemma_walk_extend(g, start as int, w0, position as int, cost as int, j as int);
                                wk = wk.update(w as int, w0.push(j as int));
                                pw = pw.push(w0.push(j as int));
                                pj = pj.update(w as int, j as int);
                            }
                            dist.set(w, next);
                            parent.set(w, Some(position));
                            pq.push((next, w));
                            proof {
                                assert(w != start);
                                assert(pq@[pq@.len() - 1] == (next, w));
                                assert forall|k: int| 0 <= k < pq@.len() implies (#[trigger] pq@[k]).1 < n && dist@[pq@[k].1 as int] <= pq@[k].0
                                    && walk(g, start as int, pw[k]) == Some((pq@[k].1 as int, pq@[k].0 as int)) by {
                                    if k < q0.len() {
                                        assert(pq@[k] == q0[k]);
                                    }
                                }
                                assert forall|v: int| 0 <= v < n && dist@[v] < usize::MAX implies walk(g, start as int, wk[v]) == Some(
                                    (v, #[trigger] dist@[v] as int)) by {
                                    if v != w {
                                        assert(dist@[v] == d0[v]);
                                    }
                                }
                                assert forall|u: int| 0 <= u < n && u != position implies pq@.contains((dist@[u], u as usize)) || #[trigger] relaxed(g, dist@, u) by {
                                    if u == w {
                                        assert(pq@[pq@.len() - 1] == (dist@[u], u as usize));
                                    } else if q0.contains((d0[u], u as usize)) {
                                        let k = choose|k: int| 0 <= k < q0.len() && q0[k] == (d0[u], u as usize);
                                        assert(pq@[k] == q0[k]);
                                    } else {
                                        assert(relaxed(g, d0, u));
                                        assert forall|jj: int| 0 <= jj < g[u]@.len() && dist@[u] + g[u]@[jj].cost <= usize::MAX
                                            implies #[trigger] dist@[g[u]@[jj].node as int] <= dist@[u] + g[u]@[jj].cost by {
                                            assert(d0[g[u]@[jj].node as int] <= d0[u] + g[u]@[jj].cost);
                                        }
                                    }
                                }
                                assert forall|k: int| 0 <= k <= j && cost + g[position as int]@[k].cost <= usize::MAX
                                    implies #[trigger] dist@[g[position as int]@[k].node as int] <= cost + g[position as int]@[k].cost by {
                                    if k < j {
                                        assert(d0[g[position as int]@[k].node as int] <= cost + g[position as int]@[k].cost);
                                    }
                                }
                                assert forall|v: int| 0 <= v < n && dist@[v] == usize::MAX implies #[trigger] parent@[v] is None by {
                                    assert(d0[v] == usize::MAX);
                                }
                                assert forall|v: int| 0 <= v < n && v != start && dist@[v] < usize::MAX implies match #[trigger] parent@[v] {
                                    Some(u) => u < n && 0 <= pj[v] < g[u as int]@.len() && g[u as int]@[pj[v]].node == v
                                        && dist@[u as int] + g[u as int]@[pj[v]].cost <= dist@[v],
                                    None => false,
                                } by {
                                    if v != w {
                                        assert(d0[v] == dist@[v]);
                                        assert(par0[v] == parent@[v]);
                                        assert(pj0[v] == pj[v]);
                                    }
                                }
                            }
                        }
                    },
                    None => {},
                }
                j = j + 1;
            }
            proof {
                assert(relaxed(g, dist@, position as int));
                assert forall|u: int| 0 <= u < n implies pq@.contains((dist@[u], u as usize)) || #[trigger] relaxed(g, dist@, u) by {
                    if u != position {
                        assert(pq@.contains((dist@[u], u as usize)) || relaxed(g, dist@, u));
                    }
                }
            }
        } else {
            proof {
                assert forall|u: int| 0 <= u < n implies pq@.contains((dist@[u], u as usize)) || #[trigger] relaxed(g, dist@, u) by {
                    assert(u != position || cost != dist@[u]);
                }
            }
        }
    }
    proof {
        assert forall|u: int| 0 <= u < n implies #[trigger] relaxed(g, dist@, u) by {
            if pq@.contains((dist@[u], u as usize)) {
                let k = choose|k: int| 0 <= k < pq@.len() && pq@[k] == (dist@[u], u as usize);
            }
        }
        assert forall|js: Seq<int>| (#[trigger] walk(g, start as int, js)).is_some() implies dist@[walk(g, start as int, js).unwrap().0] <= walk(g, start as int, js).unwrap().1 by {
            lemma_relaxed_is_lower_bound(g, start as int, dist@, js);
        }
        assert forall|v: int| 0 <= v < n && dist@[v] < usize::MAX implies has_walk(g, start as int, v, #[trigger] dist@[v] as int) by {
            assert(walk(g, start as int, wk[v]) == Some((v, dist@[v] as int)));
        }
        assert forall|v: int| 0 <= v < n && v != start && dist@[v] < usize::MAX implies match #[trigger] parent@[v] {
            Some(u) => u < g.len() && exists|j: int|
                0 <= j < g[u as int]@.len() && g[u as int]@[j].node == v && #[trigger] g[u as int]@[j].cost
                    + dist@[u as int] == dist@[v],
            None => false,
        } by {
            let u = parent@[v].unwrap();
            let j = pj[v];
            assert(relaxed(g, dist@, u as int));
            assert(g[u as int]@[j].cost + dist@[u as int] == dist@[v]);
        }
    }
    (dist, parent)
}

/// Shortest distances from `start`; `usize::MAX` for a node that no walk of smaller cost
/// reaches.
pub fn dijkstra(graph: &[Vec<Edge>], start: usize) -> (dist: Vec<usize>)
    requires
        valid_network(graph@),
        start < graph@.len(),
    ensures
        shortest(graph@, start as int, dist@),
{
    let (dist, _parent) = dijkstra_with_path(graph, start);
    dist
}

} // verus!
