//! The analysis report of a graph: degrees, components, all-pairs distances
//! and shortest paths.
use vstd::prelude::*;
use crate::graph::{AdjView, Graph, MAX_VERTICES, in_degree, total_entries, weights_bounded};
use crate::components::{is_strong_decomposition, is_weak_decomposition};
use crate::shortest::{
    correct_distance, correct_link, is_route, links_ranked, ranked_by, route_between, route_weight,
    shortest,
};
use crate::walks::views;

verus! {

pub open spec fn as_ints(p: Seq<usize>) -> Seq<int> {
    p.map_values(|x: usize| x as int)
}

/// `p` lists a route from `u` to `t` whose entries weigh `d` in all.
pub open spec fn realizes(adj: AdjView, p: Seq<usize>, u: int, t: int, d: nat) -> bool {
    exists|ks: Seq<int>| route_between(adj, as_ints(p), ks, u, t) && route_weight(adj, as_ints(p), ks) == d
}

proof fn lemma_route_prepend(adj: AdjView, vs: Seq<int>, ks: Seq<int>, p: int, k: int)
    requires
        is_route(adj, vs, ks),
        0 <= p < adj.len(),
        0 <= k < adj[p].len(),
        adj[p][k].0 as int == vs[0],
    ensures
        is_route(adj, seq![p] + vs, seq![k] + ks),
        route_weight(adj, seq![p] + vs, seq![k] + ks) == adj[p][k].1 as int + route_weight(adj, vs, ks),
    decreases ks.len(),
{
    let vs2 = seq![p] + vs;
    let ks2 = seq![k] + ks;
    assert forall|i: int| 0 <= i < vs2.len() implies 0 <= #[trigger] vs2[i] < adj.len() by {
        if i > 0 { assert(vs2[i] == vs[i - 1]); }
    }
    assert forall|i: int| 0 <= i < ks2.len() implies 0 <= #[trigger] ks2[i] < adj[vs2[i]].len()
        && adj[vs2[i]][ks2[i]].0 as int == vs2[i + 1] by {
        if i > 0 {
            assert(ks2[i] == ks[i - 1]);
            assert(vs2[i] == vs[i - 1]);
            assert(vs2[i + 1] == vs[i]);
        }
    }
    if ks.len() > 0 {
        let vs0 = vs.drop_last();
        let ks0 = ks.drop_last();
        assert forall|i: int| 0 <= i < vs0.len() implies 0 <= #[trigger] vs0[i] < adj.len() by {
            assert(vs0[i] == vs[i]);
        }
        assert forall|i: int| 0 <= i < ks0.len() implies 0 <= #[trigger] ks0[i] < adj[vs0[i]].len()
            && adj[vs0[i]][ks0[i]].0 as int == vs0[i + 1] by {
            assert(ks0[i] == ks[i]);
        }
        lemma_route_prepend(adj, vs0, ks0, p, k);
        assert(vs2.drop_last() =~= seq![p] + vs0);
        assert(ks2.drop_last() =~= seq![k] + ks0);
        let i = ks.len() - 1;
        assert(vs2[i + 1] == vs[i]);
        assert(ks2[i + 1] == ks[i]);
    } else {
        assert(vs2.drop_last() =~= seq![p]);
        assert(ks2.drop_last() =~= Seq::<int>::empty());
        assert(route_weight(adj, seq![p], Seq::<int>::empty()) == 0);
    }
}

/// The vertices of `v` in reverse order.
fn reversed(v: &Vec<usize>) -> (r: Vec<usize>)
    ensures
        r@ == v@.reverse(),
{
    let mut r: Vec<usize> = Vec::new();
    let mut i: usize = v.len();
    while i > 0
        invariant
            i <= v@.len(),
            r@ =~= v@.subrange(i as int, v@.len() as int).reverse(),
        decreases i,
    {
        i -= 1;
        r.push(v[i]);
    }
    assert(v@.subrange(0, v@.len() as int) =~= v@);
    r
}

/// The route to `t` found by following predecessor links back to `start`.
fn route_to(
    adj: Ghost<AdjView>,
    dist: &Vec<Option<u64>>,
    prev: &Vec<Option<usize>>,
    start: usize,
    t: usize,
) -> (r: Vec<usize>)
    requires
        dist@.len() == adj@.len(),
        prev@.len() == adj@.len(),
        start < adj@.len(),
        t < adj@.len(),
        dist@[t as int] is Some,
        dist@[start as int] == Some(0u64),
        prev@[start as int] is None,
        forall|v: int| 0 <= v < adj@.len() && v != start ==> (#[trigger] prev@[v] is Some <==> dist@[v] is Some),
        forall|v: int| 0 <= v < adj@.len() && #[trigger] prev@[v] is Some ==> correct_link(adj@, dist@, v, prev@[v].unwrap()),
        links_ranked(prev@),
    ensures
        realizes(adj@, r@, start as int, t as int, dist@[t as int].unwrap() as nat),
{
    let ghost a = adj@;
    let ghost rank = choose|rank: Seq<nat>| #[trigger] ranked_by(prev@, rank);
    let mut rev: Vec<usize> = Vec::new();
    let mut cur: usize = t;
    let ghost mut vs: Seq<int> = seq![t as int];
    let ghost mut ks: Seq<int> = Seq::empty();
    proof {
        assert(route_weight(a, vs, ks) == 0);
    }
    while prev[cur].is_some()
        invariant
            a == adj@,
            dist@.len() == a.len(), prev@.len() == a.len(), start < a.len(), cur < a.len(),
            rank.len() == prev@.len(),
            forall|v: int| 0 <= v < prev@.len() && #[trigger] prev@[v] is Some
                ==> prev@[v].unwrap() < prev@.len() && rank[prev@[v].unwrap() as int] < rank[v],
            forall|v: int| 0 <= v < a.len() && v != start ==> (#[trigger] prev@[v] is Some <==> dist@[v] is Some),
            forall|v: int| 0 <= v < a.len() && #[trigger] prev@[v] is Some ==> correct_link(a, dist@, v, prev@[v].unwrap()),
            dist@[cur as int] is Some,
            dist@[t as int] is Some,
            route_between(a, vs, ks, cur as int, t as int),
            dist@[cur as int].unwrap() + route_weight(a, vs, ks) == dist@[t as int].unwrap(),
            as_ints(rev@) =~= vs.drop_first().reverse(),
        decreases rank[cur as int],
    {
        let p = prev[cur].unwrap();
        proof {
            assert(correct_link(a, dist@, cur as int, p));
            let k = choose|k: int| 0 <= k < a[p as int].len() && a[p as int][k].0 as int == cur as int
                && #[trigger] dist@[cur as int].unwrap() == dist@[p as int].unwrap() + a[p as int][k].1;
            lemma_route_prepend(a, vs, ks, p as int, k);
            let ghost old_vs = vs;
            vs = seq![p as int] + vs;
            ks = seq![k] + ks;
            assert(vs.drop_first() =~= old_vs);
            assert(old_vs[0] == cur as int);
            assert(as_ints(rev@.push(cur)) =~= as_ints(rev@).push(cur as int));
            assert(old_vs.drop_first().reverse().push(cur as int) =~= old_vs.reverse());
        }
        rev.push(cur);
        cur = p;
    }
    proof {
        if cur != start {
            assert(prev@[cur as int] is Some);
        }
    }
    rev.push(start);
    proof {
        assert(vs[0] == start as int);
        assert(vs.drop_first().reverse().push(start as int) =~= vs.reverse());
        assert(as_ints(rev@) =~= vs.reverse());
    }
    let r = reversed(&rev);
    proof {
        let l = rev@.len() as int;
        assert(vs.len() == l);
        assert forall|i: int| 0 <= i < l implies as_ints(r@)[i] == vs[i] by {
            assert(r@[i] == rev@[l - 1 - i]);
            assert(as_ints(rev@)[l - 1 - i] == vs.reverse()[l - 1 - i]);
        }
        assert(as_ints(r@) =~= vs);
        assert(realizes(a, r@, start as int, t as int, dist@[t as int].unwrap() as nat));
    }
    r
}

/// What the analysis of a graph finds.
#[derive(Debug)]
pub struct GraphResults {
    pub directed: bool,
    pub deg_in: Vec<usize>,
    pub deg_out: Vec<usize>,
    pub weak_components: Vec<Vec<usize>>,
    pub strong_components: Vec<Vec<usize>>,
    /// The ordered pairs of distinct vertices joined by a route.
    pub selected_pairs: Vec<(usize, usize)>,
    /// `distances[u][v]`: least route weight from `u` to `v`, `None` when unreachable.
    pub distances: Vec<Vec<Option<u64>>>,
    /// `paths[u][v]`: a shortest route from `u` to `v`, for distinct reachable pairs.
    pub paths: Vec<Vec<Option<Vec<usize>>>>,
    /// Diameter, radius, center and periphery; filled in for undirected graphs.
    pub metrics: Option<crate::metrics::GraphMetrics>,
}

/// The pairs `(u, v)` with `v` below `k` whose entry in row `u` holds a path, in order.
pub open spec fn row_pairs(row: Seq<Option<Vec<usize>>>, u: int, k: int) -> Seq<(usize, usize)>
    decreases k,
{
    if k <= 0 {
        Seq::empty()
    } else {
        let rest = row_pairs(row, u, k - 1);
        if row[k - 1] is Some { rest.push((u as usize, (k - 1) as usize)) } else { rest }
    }
}

/// The pairs with a path in the first `u` rows of `p`, row by row, each row
/// of `n` columns in order.
pub open spec fn rows_pairs(p: Seq<Vec<Option<Vec<usize>>>>, n: int, u: int) -> Seq<(usize, usize)>
    decreases u,
{
    if u <= 0 {
        Seq::empty()
    } else {
        rows_pairs(p, n, u - 1) + row_pairs(p[u - 1]@, u - 1, n)
    }
}

proof fn lemma_row_pairs_prefix(r: Seq<Option<Vec<usize>>>, q: Seq<Option<Vec<usize>>>, u: int, k: int)
    requires
        0 <= k <= r.len(),
        k <= q.len(),
        forall|x: int| 0 <= x < k ==> r[x] == q[x],
    ensures
        row_pairs(r, u, k) == row_pairs(q, u, k),
    decreases k,
{
    if k > 0 {
        lemma_row_pairs_prefix(r, q, u, k - 1);
    }
}

proof fn lemma_rows_pairs_prefix(p: Seq<Vec<Option<Vec<usize>>>>, q: Seq<Vec<Option<Vec<usize>>>>, n: int, u: int)
    requires
        0 <= u <= p.len(),
        u <= q.len(),
        forall|x: int| 0 <= x < u ==> p[x] == q[x],
    ensures
        rows_pairs(p, n, u) == rows_pairs(q, n, u),
    decreases u,
{
    if u > 0 {
        lemma_rows_pairs_prefix(p, q, n, u - 1);
    }
}

/// The distance table holds the least route weights of `adj`.
pub open spec fn correct_table(adj: AdjView, d: Seq<Vec<Option<u64>>>) -> bool {
    &&& d.len() == adj.len()
    &&& forall|u: int| 0 <= u < d.len() ==> (#[trigger] d[u])@.len() == adj.len()
    &&& forall|u: int, v: int| 0 <= u < d.len() && 0 <= v < d.len() ==> #[trigger] correct_distance(adj, u, v, d[u]@[v])
}

/// The path table holds a shortest route for each distinct reachable pair
/// and nothing else.
pub open spec fn correct_paths(adj: AdjView, d: Seq<Vec<Option<u64>>>, p: Seq<Vec<Option<Vec<usize>>>>) -> bool {
    &&& p.len() == adj.len()
    &&& forall|u: int| 0 <= u < p.len() ==> (#[trigger] p[u])@.len() == adj.len()
    &&& forall|u: int, v: int| 0 <= u < p.len() && 0 <= v < p.len() ==>
        ((#[trigger] p[u]@[v]) is Some <==> u != v && d[u]@[v] is Some)
    &&& forall|u: int, v: int| 0 <= u < p.len() && 0 <= v < p.len() && (#[trigger] p[u]@[v]) is Some ==>
        realizes(adj, p[u]@[v].unwrap()@, u, v, d[u]@[v].unwrap() as nat)
}

impl Graph {
    /// Degrees, weak and strong components, and all-pairs distances and
    /// shortest paths; metrics are left for `compute_graph_metrics`.
    pub fn analyze(&self) -> (r: GraphResults)
        requires
            self.wf(),
            self.n <= MAX_VERTICES,
            weights_bounded(self.adj_view()),
            total_entries(self.adj_view(), self.n as int) <= usize::MAX,
        ensures
            r.directed == self.directed,
            r.deg_in@.len() == self.n,
            r.deg_out@.len() == self.n,
            forall|v: int| 0 <= v < self.n ==> r.deg_in@[v] == in_degree(self.adj_view(), self.n as int, v as usize),
            forall|v: int| 0 <= v < self.n ==> r.deg_out@[v] == self.adj@[v]@.len(),
            is_weak_decomposition(self, views(r.weak_components@)),
            is_strong_decomposition(self, views(r.strong_components@)),
            correct_table(self.adj_view(), r.distances@),
            correct_paths(self.adj_view(), r.distances@, r.paths@),
            forall|i: int| 0 <= i < r.selected_pairs@.len() ==> {
                let (u, v) = #[trigger] r.selected_pairs@[i];
                u < self.n && v < self.n && r.paths@[u as int]@[v as int] is Some
            },
            forall|u: int, v: int| 0 <= u < self.n && 0 <= v < self.n && (#[trigger] r.paths@[u]@[v]) is Some ==>
                r.selected_pairs@.contains((u as usize, v as usize)),
            r.selected_pairs@ == rows_pairs(r.paths@, self.n as int, self.n as int),
            forall|v: int| 0 <= v < self.n ==> #[trigger] r.distances@[v]@[v] == Some(0u64),
            forall|u: int, v: int| 0 <= u < self.n && 0 <= v < self.n && (#[trigger] r.paths@[u]@[v]) is Some ==>
                path_shaped(self.adj_view(), r.paths@[u]@[v].unwrap()@, u, v),
            r.metrics is None,
    {
        let ghost a = self.adj_view();
        let n = self.n;
        let (deg_in, deg_out) = self.degrees();
        let weak_components = self.weakly_connected_components();
        let strong_components = self.strongly_connected_components();
        let mut distances: Vec<Vec<Option<u64>>> = Vec::new();
        let mut paths: Vec<Vec<Option<Vec<usize>>>> = Vec::new();
        let mut selected_pairs: Vec<(usize, usize)> = Vec::new();
        let mut u: usize = 0;
        while u < n
            invariant
                self.wf(), a == self.adj_view(), n == self.n, n <= MAX_VERTICES, u <= n,
                weights_bounded(a),
                distances@.len() == u, paths@.len() == u,
                forall|x: int| 0 <= x < u ==> (#[trigger] distances@[x])@.len() == n,
                forall|x: int, v: int| 0 <= x < u && 0 <= v < n ==> #[trigger] correct_distance(a, x, v, distances@[x]@[v]),
                forall|x: int| 0 <= x < u ==> (#[trigger] paths@[x])@.len() == n,
                forall|x: int, v: int| 0 <= x < u && 0 <= v < n ==>
                    ((#[trigger] paths@[x]@[v]) is Some <==> x != v && distances@[x]@[v] is Some),
                forall|x: int, v: int| 0 <= x < u && 0 <= v < n && (#[trigger] paths@[x]@[v]) is Some ==>
                    realizes(a, paths@[x]@[v].unwrap()@, x, v, distances@[x]@[v].unwrap() as nat),
                forall|i: int| 0 <= i < selected_pairs@.len() ==> {
                    let (x, v) = #[trigger] selected_pairs@[i];
                    x < u && v < n && paths@[x as int]@[v as int] is Some
                },
                forall|x: int, v: int| 0 <= x < u && 0 <= v < n && (#[trigger] paths@[x]@[v]) is Some ==>
                    selected_pairs@.contains((x as usize, v as usize)),
                selected_pairs@ == rows_pairs(paths@, n as int, u as int),
            decreases n - u,
        {
            let (dist_u, prev_u) = self.dijkstra(u);
            let mut row: Vec<Option<Vec<usize>>> = Vec::new();
            let mut v: usize = 0;
            let ghost sel0 = selected_pairs@;
            while v < n
                invariant
                    self.wf(), a == self.adj_view(), n == self.n, u < n, v <= n,
                    dist_u@.len() == n, prev_u@.len() == n,
                    dist_u@[u as int] == Some(0u64),
                    prev_u@[u as int] is None,
                    forall|t: int| 0 <= t < n && t != u ==> (#[trigger] prev_u@[t] is Some <==> dist_u@[t] is Some),
                    forall|t: int| 0 <= t < n && #[trigger] prev_u@[t] is Some ==> correct_link(a, dist_u@, t, prev_u@[t].unwrap()),
                    links_ranked(prev_u@),
                    row@.len() == v,
                    forall|t: int| 0 <= t < v ==> ((#[trigger] row@[t]) is Some <==> t != u && dist_u@[t] is Some),
                    forall|t: int| 0 <= t < v && (#[trigger] row@[t]) is Some ==>
                        realizes(a, row@[t].unwrap()@, u as int, t, dist_u@[t].unwrap() as nat),
                    selected_pairs@.len() >= sel0.len(),
                    forall|i: int| 0 <= i < sel0.len() ==> selected_pairs@[i] == sel0[i],
                    forall|i: int| sel0.len() <= i < selected_pairs@.len() ==> {
                        let (x, t) = #[trigger] selected_pairs@[i];
                        x == u && t < v && row@[t as int] is Some
                    },
                    forall|t: int| 0 <= t < v && (#[trigger] row@[t]) is Some ==> selected_pairs@.contains((u, t as usize)),
                    selected_pairs@ == sel0 + row_pairs(row@, u as int, v as int),
                decreases n - v,
            {
                if u != v && dist_u[v].is_some() {
                    let path = route_to(Ghost(a), &dist_u, &prev_u, u, v);
                    let ghost row0 = row@;
                    let ghost s0 = selected_pairs@;
                    row.push(Some(path));
                    selected_pairs.push((u, v));
                    proof {
                        assert(row@.drop_last() =~= row0);
                        assert(row_pairs(row@, u as int, v as int) == row_pairs(row0, u as int, v as int)) by {
                            lemma_row_pairs_prefix(row@, row0, u as int, v as int);
                        }
                        assert(selected_pairs@ =~= sel0 + row_pairs(row@, u as int, v + 1));
                        assert(selected_pairs@[s0.len() as int] == (u, v));
                        assert forall|t: int| 0 <= t < v + 1 && (#[trigger] row@[t]) is Some implies selected_pairs@.contains((u, t as usize)) by {
                            if t < v {
                                assert(s0.contains((u, t as usize)));
                                let i = choose|i: int| 0 <= i < s0.len() && s0[i] == (u, t as usize);
                                assert(selected_pairs@[i] == (u, t as usize));
                            }
                        }
                    }
                } else {
                    let ghost row0 = row@;
                    row.push(None);
                    proof {
                        lemma_row_pairs_prefix(row@, row0, u as int, v as int);
                        assert(selected_pairs@ =~= sel0 + row_pairs(row@, u as int, v + 1));
                    }
                }
                v += 1;
            }
            let ghost d0 = distances@;
            let ghost paths0 = paths@;
            distances.push(dist_u);
            paths.push(row);
            proof {
                lemma_rows_pairs_prefix(paths@, paths0, n as int, u as int);
                assert(paths@[u as int] == row);
                assert(selected_pairs@ =~= rows_pairs(paths@, n as int, u + 1));
                assert forall|x: int, t: int| 0 <= x < u + 1 && 0 <= t < n implies #[trigger] correct_distance(a, x, t, distances@[x]@[t]) by {
                    if x < u { assert(distances@[x] == d0[x]); }
                }
                assert forall|x: int, t: int| 0 <= x < u + 1 && 0 <= t < n implies
                    ((#[trigger] paths@[x]@[t]) is Some <==> x != t && distances@[x]@[t] is Some) by {
                    if x < u { assert(distances@[x] == d0[x]); assert(paths@[x] == paths0[x]); }
                }
                assert forall|x: int, t: int| 0 <= x < u + 1 && 0 <= t < n && (#[trigger] paths@[x]@[t]) is Some implies
                    realizes(a, paths@[x]@[t].unwrap()@, x, t, distances@[x]@[t].unwrap() as nat) by {
                    if x < u { assert(distances@[x] == d0[x]); assert(paths@[x] == paths0[x]); }
                }
                assert forall|i: int| 0 <= i < selected_pairs@.len() implies {
                    let (x, t) = #[trigger] selected_pairs@[i];
                    x < u + 1 && t < n && paths@[x as int]@[t as int] is Some
                } by {
                    let (x, t) = selected_pairs@[i];
                    if i < sel0.len() {
                        assert(sel0[i] == selected_pairs@[i]);
                        assert(paths@[x as int] == paths0[x as int]);
                    }
                }
                assert forall|x: int, t: int| 0 <= x < u + 1 && 0 <= t < n && (#[trigger] paths@[x]@[t]) is Some implies
                    selected_pairs@.contains((x as usize, t as usize)) by {
                    if x < u {
                        assert(paths@[x] == paths0[x]);
                        assert(sel0.contains((x as usize, t as usize)));
                        let i = choose|i: int| 0 <= i < sel0.len() && sel0[i] == (x as usize, t as usize);
                        assert(selected_pairs@[i] == sel0[i]);
                    }
                }
            }
            u += 1;
        }
        proof {
            assert forall|v: int| 0 <= v < n implies #[trigger] distances@[v]@[v] == Some(0u64) by {
                lemma_self_distance_zero(a, distances@, v);
            }
            assert forall|x: int, v: int| 0 <= x < n && 0 <= v < n && (#[trigger] paths@[x]@[v]) is Some implies
                path_shaped(a, paths@[x]@[v].unwrap()@, x, v) by {
                lemma_path_shape(a, distances@, paths@, x, v);
            }
        }
        GraphResults {
            directed: self.directed,
            deg_in,
            deg_out,
            weak_components,
            strong_components,
            selected_pairs,
            distances,
            paths,
            metrics: None,
        }
    }
}

/// Every vertex is at distance 0 from itself.
pub proof fn lemma_self_distance_zero(adj: AdjView, d: Seq<Vec<Option<u64>>>, v: int)
    requires
        correct_table(adj, d),
        0 <= v < adj.len(),
    ensures
        d[v]@[v] == Some(0u64),
{
    let vs = seq![v];
    let ks = Seq::<int>::empty();
    assert(route_between(adj, vs, ks, v, v));
    assert(route_weight(adj, vs, ks) == 0);
    assert(correct_distance(adj, v, v, d[v]@[v]));
}

/// A stored entry of `a` leads to `b`.
pub open spec fn joined(adj: AdjView, a: usize, b: usize) -> bool {
    exists|k: int| 0 <= k < adj[a as int].len() && adj[a as int][k].0 == b
}

/// Each step of the route takes a lightest entry between its two vertices.
pub open spec fn lightest_steps(adj: AdjView, vs: Seq<int>, ks: Seq<int>) -> bool {
    forall|i: int, k2: int| 0 <= i < ks.len() && 0 <= k2 < adj[vs[i]].len() && adj[vs[i]][k2].0 as int == vs[i + 1]
        ==> adj[vs[i]][ks[i]].1 <= #[trigger] adj[vs[i]][k2].1
}

proof fn lemma_route_swap(adj: AdjView, vs: Seq<int>, ks: Seq<int>, i: int, k2: int)
    requires
        is_route(adj, vs, ks),
        0 <= i < ks.len(),
        0 <= k2 < adj[vs[i]].len(),
        adj[vs[i]][k2].0 as int == vs[i + 1],
    ensures
        is_route(adj, vs, ks.update(i, k2)),
        route_weight(adj, vs, ks.update(i, k2)) == route_weight(adj, vs, ks) - adj[vs[i]][ks[i]].1 + adj[vs[i]][k2].1,
    decreases ks.len(),
{
    let ks2 = ks.update(i, k2);
    assert forall|j: int| 0 <= j < ks2.len() implies 0 <= #[trigger] ks2[j] < adj[vs[j]].len()
        && adj[vs[j]][ks2[j]].0 as int == vs[j + 1] by {
        if j != i { assert(ks2[j] == ks[j]); }
    }
    let vs0 = vs.drop_last();
    if i < ks.len() - 1 {
        let ks0 = ks.drop_last();
        assert forall|j: int| 0 <= j < vs0.len() implies 0 <= #[trigger] vs0[j] < adj.len() by {
            assert(vs0[j] == vs[j]);
        }
        assert forall|j: int| 0 <= j < ks0.len() implies 0 <= #[trigger] ks0[j] < adj[vs0[j]].len()
            && adj[vs0[j]][ks0[j]].0 as int == vs0[j + 1] by {
            assert(ks0[j] == ks[j]);
        }
        lemma_route_swap(adj, vs0, ks0, i, k2);
        assert(ks2.drop_last() =~= ks0.update(i, k2));
    } else {
        assert(ks2.drop_last() =~= ks.drop_last());
    }
}

/// On a shortest route every step takes a lightest entry: another entry
/// between the same two vertices would give a lighter route.
proof fn lemma_shortest_lightest(adj: AdjView, vs: Seq<int>, ks: Seq<int>, u: int, v: int, d: nat)
    requires
        shortest(adj, u, v, d),
        route_between(adj, vs, ks, u, v),
        route_weight(adj, vs, ks) == d,
    ensures
        lightest_steps(adj, vs, ks),
{
    assert forall|i: int, k2: int| 0 <= i < ks.len() && 0 <= k2 < adj[vs[i]].len() && adj[vs[i]][k2].0 as int == vs[i + 1]
        implies adj[vs[i]][ks[i]].1 <= #[trigger] adj[vs[i]][k2].1 by {
        lemma_route_swap(adj, vs, ks, i, k2);
        let ks2 = ks.update(i, k2);
        assert(route_between(adj, vs, ks2, u, v));
    }
}

/// `p` has at least two vertices, starts at `u`, ends at `v`, and each
/// vertex has a stored entry leading to the next.
pub open spec fn path_shaped(adj: AdjView, p: Seq<usize>, u: int, v: int) -> bool {
    &&& p.len() >= 2
    &&& p[0] == u
    &&& p.last() == v
    &&& forall|i: int| 0 <= i < p.len() - 1 ==> #[trigger] joined(adj, p[i], p[i + 1])
}

/// A recorded path starts at its source, ends at its destination, steps
/// along stored entries, each a lightest one between its two vertices, and
/// the weights of those entries add up to the recorded distance.
pub proof fn lemma_path_shape(adj: AdjView, d: Seq<Vec<Option<u64>>>, paths: Seq<Vec<Option<Vec<usize>>>>, u: int, v: int)
    requires
        correct_table(adj, d),
        correct_paths(adj, d, paths),
        0 <= u < adj.len(),
        0 <= v < adj.len(),
        paths[u]@[v] is Some,
    ensures
        ({
            let p = paths[u]@[v].unwrap()@;
            &&& path_shaped(adj, p, u, v)
            &&& exists|ks: Seq<int>| is_route(adj, as_ints(p), ks) && lightest_steps(adj, as_ints(p), ks)
                && #[trigger] route_weight(adj, as_ints(p), ks) == d[u]@[v].unwrap()
        }),
{
    let p = paths[u]@[v].unwrap()@;
    assert(realizes(adj, p, u, v, d[u]@[v].unwrap() as nat));
    let ks = choose|ks: Seq<int>| route_between(adj, as_ints(p), ks, u, v) && route_weight(adj, as_ints(p), ks) == d[u]@[v].unwrap() as nat;
    let q = as_ints(p);
    assert(u != v);
    assert(p[0] as int == q[0]);
    assert(p.last() as int == q.last());
    assert forall|i: int| 0 <= i < p.len() - 1 implies #[trigger] joined(adj, p[i], p[i + 1]) by {
        assert(0 <= ks[i] < adj[q[i]].len());
        assert(adj[q[i]][ks[i]].0 as int == q[i + 1]);
        assert(adj[p[i] as int][ks[i]].0 == p[i + 1]);
    }
    assert(correct_distance(adj, u, v, d[u]@[v]));
    lemma_shortest_lightest(adj, q, ks, u, v, d[u]@[v].unwrap() as nat);
}

/// Vertex `k` has no entries of its own and no entry leads to it.
pub open spec fn isolated(adj: AdjView, k: int) -> bool {
    &&& adj[k].len() == 0
    &&& forall|u: int, j: int| 0 <= u < adj.len() && 0 <= j < adj[u].len() ==> (#[trigger] adj[u][j]).0 as int != k
}

/// An isolated vertex is at no finite distance from, and has no path to or
/// from, any other vertex.
pub proof fn lemma_isolated_unreachable(adj: AdjView, d: Seq<Vec<Option<u64>>>, paths: Seq<Vec<Option<Vec<usize>>>>, k: int, v: int)
    requires
        correct_table(adj, d),
        correct_paths(adj, d, paths),
        0 <= k < adj.len(),
        0 <= v < adj.len(),
        v != k,
        isolated(adj, k),
    ensures
        d[k]@[v] is None,
        d[v]@[k] is None,
        paths[k]@[v] is None,
        paths[v]@[k] is None,
{
    assert(correct_distance(adj, k, v, d[k]@[v]));
    assert(correct_distance(adj, v, k, d[v]@[k]));
    if d[k]@[v] is Some {
        let (vs, ks) = choose|vs: Seq<int>, ks: Seq<int>| route_between(adj, vs, ks, k, v)
            && route_weight(adj, vs, ks) == d[k]@[v].unwrap() as nat;
        assert(ks.len() > 0);
        assert(0 <= ks[0] < adj[vs[0]].len());
    }
    if d[v]@[k] is Some {
        let (vs, ks) = choose|vs: Seq<int>, ks: Seq<int>| route_between(adj, vs, ks, v, k)
            && route_weight(adj, vs, ks) == d[v]@[k].unwrap() as nat;
        let i = ks.len() - 1;
        assert(0 <= ks[i] < adj[vs[i]].len() && adj[vs[i]][ks[i]].0 as int == vs[i + 1]);
        assert(0 <= vs[i] < adj.len());
    }
}

} // verus!
