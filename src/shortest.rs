//! Single-source shortest routes by Dijkstra's algorithm; the unfinished
//! reached vertex of least distance is found by a scan of the table.
use vstd::prelude::*;
use crate::graph::{AdjView, Graph, MAX_VERTICES, MAX_WEIGHT, weights_bounded};
use crate::walks::{count_true, lemma_count_true_le, lemma_count_true_set, lemma_count_true_zero};

verus! {

/// `vs` is a route whose `i`-th step takes entry `ks[i]` of `vs[i]`'s list.
pub open spec fn is_route(adj: AdjView, vs: Seq<int>, ks: Seq<int>) -> bool {
    &&& vs.len() == ks.len() + 1
    &&& forall|i: int| 0 <= i < vs.len() ==> 0 <= #[trigger] vs[i] < adj.len()
    &&& forall|i: int| 0 <= i < ks.len() ==> 0 <= #[trigger] ks[i] < adj[vs[i]].len()
        && adj[vs[i]][ks[i]].0 as int == vs[i + 1]
}

/// Sum of the weights of the entries a route takes.
pub open spec fn route_weight(adj: AdjView, vs: Seq<int>, ks: Seq<int>) -> int
    decreases ks.len(),
{
    if ks.len() == 0 {
        0
    } else {
        let i = ks.len() - 1;
        route_weight(adj, vs.drop_last(), ks.drop_last()) + adj[vs[i]][ks[i]].1 as int
    }
}

pub open spec fn route_between(adj: AdjView, vs: Seq<int>, ks: Seq<int>, s: int, t: int) -> bool {
    is_route(adj, vs, ks) && vs[0] == s && vs.last() == t
}

/// Some route leads from `s` to `t`.
pub open spec fn routable(adj: AdjView, s: int, t: int) -> bool {
    exists|vs: Seq<int>, ks: Seq<int>| route_between(adj, vs, ks, s, t)
}

/// Some route from `s` to `t` weighs `d`.
pub open spec fn has_route_of(adj: AdjView, s: int, t: int, d: nat) -> bool {
    exists|vs: Seq<int>, ks: Seq<int>| route_between(adj, vs, ks, s, t) && route_weight(adj, vs, ks) == d
}

/// `d` is the least weight of a route from `s` to `t`.
pub open spec fn shortest(adj: AdjView, s: int, t: int, d: nat) -> bool {
    &&& has_route_of(adj, s, t, d)
    &&& forall|vs: Seq<int>, ks: Seq<int>| #[trigger] route_between(adj, vs, ks, s, t) ==> d <= route_weight(adj, vs, ks)
}

/// What the distance table of a source says: the least route weight for a
/// reachable vertex, nothing for an unreachable one.
pub open spec fn correct_distance(adj: AdjView, s: int, t: int, d: Option<u64>) -> bool {
    match d {
        Some(x) => shortest(adj, s, t, x as nat),
        None => !routable(adj, s, t),
    }
}

/// The predecessor of `t` on a shortest route from the source, with the
/// entry that leads from it to `t`.
pub open spec fn correct_link(adj: AdjView, dist: Seq<Option<u64>>, t: int, p: usize) -> bool {
    &&& p < adj.len()
    &&& dist[p as int] is Some
    &&& exists|k: int| 0 <= k < adj[p as int].len() && adj[p as int][k].0 as int == t
        && #[trigger] dist[t].unwrap() == dist[p as int].unwrap() + adj[p as int][k].1
}

/// Predecessor links climb strictly down some ranking, so following them ends.
pub open spec fn links_ranked(prev: Seq<Option<usize>>) -> bool {
    exists|rank: Seq<nat>| #[trigger] ranked_by(prev, rank)
}

/// Every link leads to a vertex of lower rank.
pub open spec fn ranked_by(prev: Seq<Option<usize>>, rank: Seq<nat>) -> bool {
    rank.len() == prev.len() && forall|t: int| 0 <= t < prev.len() && #[trigger] prev[t] is Some
        ==> prev[t].unwrap() < prev.len() && rank[prev[t].unwrap() as int] < rank[t]
}

proof fn lemma_route_extend(adj: AdjView, vs: Seq<int>, ks: Seq<int>, k: int)
    requires
        is_route(adj, vs, ks),
        0 <= k < adj[vs.last()].len(),
        0 <= adj[vs.last()][k].0 < adj.len(),
    ensures
        is_route(adj, vs.push(adj[vs.last()][k].0 as int), ks.push(k)),
        route_weight(adj, vs.push(adj[vs.last()][k].0 as int), ks.push(k))
            == route_weight(adj, vs, ks) + adj[vs.last()][k].1 as int,
{
    let v = adj[vs.last()][k].0 as int;
    let vs2 = vs.push(v);
    let ks2 = ks.push(k);
    assert forall|i: int| 0 <= i < ks2.len() implies 0 <= #[trigger] ks2[i] < adj[vs2[i]].len()
        && adj[vs2[i]][ks2[i]].0 as int == vs2[i + 1] by {
        if i < ks.len() {
            assert(ks2[i] == ks[i]);
            assert(vs2[i] == vs[i]);
            assert(vs2[i + 1] == vs[i + 1]);
        }
    }
    assert forall|i: int| 0 <= i < vs2.len() implies 0 <= #[trigger] vs2[i] < adj.len() by {
        if i < vs.len() { assert(vs2[i] == vs[i]); }
    }
    assert(vs2.drop_last() =~= vs);
    assert(ks2.drop_last() =~= ks);
}

/// Where every reached vertex's entries are relaxed, the distance of a route's
/// end is at most the route's weight.
proof fn lemma_relaxed_bounds_route(adj: AdjView, dist: Seq<Option<u64>>, vs: Seq<int>, ks: Seq<int>)
    requires
        is_route(adj, vs, ks),
        dist.len() == adj.len(),
        dist[vs[0]] == Some(0u64),
        forall|x: int, k: int| 0 <= x < adj.len() && dist[x] is Some && 0 <= k < adj[x].len() ==>
            dist[(#[trigger] adj[x][k]).0 as int] is Some
            && dist[adj[x][k].0 as int].unwrap() <= dist[x].unwrap() + adj[x][k].1,
    ensures
        dist[vs.last()] is Some,
        dist[vs.last()].unwrap() <= route_weight(adj, vs, ks),
    decreases ks.len(),
{
    if ks.len() > 0 {
        let vs0 = vs.drop_last();
        let ks0 = ks.drop_last();
        assert forall|i: int| 0 <= i < ks0.len() implies 0 <= #[trigger] ks0[i] < adj[vs0[i]].len()
            && adj[vs0[i]][ks0[i]].0 as int == vs0[i + 1] by {
            assert(ks0[i] == ks[i]);
        }
        assert forall|i: int| 0 <= i < vs0.len() implies 0 <= #[trigger] vs0[i] < adj.len() by {
            assert(vs0[i] == vs[i]);
        }
        lemma_relaxed_bounds_route(adj, dist, vs0, ks0);
        let i = ks.len() - 1;
        assert(vs0.last() == vs[i]);
        assert(0 <= ks[i] < adj[vs[i]].len());
        let e = adj[vs[i]][ks[i]];
        assert(e.0 as int == vs[i + 1]);
    }
}

impl Graph {
    /// Distances from `start` to every vertex, `None` for an unreachable one,
    /// with each reached vertex's predecessor on a shortest route.
    pub fn dijkstra(&self, start: usize) -> (r: (Vec<Option<u64>>, Vec<Option<usize>>))
        requires
            self.wf(),
            start < self.n,
            self.n <= MAX_VERTICES,
            weights_bounded(self.adj_view()),
        ensures
            r.0@.len() == self.n,
            r.1@.len() == self.n,
            r.0@[start as int] == Some(0u64),
            r.1@[start as int] is None,
            forall|t: int| 0 <= t < self.n ==> #[trigger] correct_distance(self.adj_view(), start as int, t, r.0@[t]),
            forall|t: int| 0 <= t < self.n && t != start ==> (#[trigger] r.1@[t] is Some <==> r.0@[t] is Some),
            forall|t: int| 0 <= t < self.n && #[trigger] r.1@[t] is Some ==> correct_link(self.adj_view(), r.0@, t, r.1@[t].unwrap()),
            links_ranked(r.1@),
    {
        let ghost adj = self.adj_view();
        let n = self.n;
        let mut dist: Vec<Option<u64>> = Vec::new();
        let mut prev: Vec<Option<usize>> = Vec::new();
        let mut done: Vec<bool> = Vec::new();
        let mut i: usize = 0;
        while i < n
            invariant
                i <= n, dist@.len() == i, prev@.len() == i, done@.len() == i,
                forall|k: int| 0 <= k < i ==> (#[trigger] dist@[k]) is None,
                forall|k: int| 0 <= k < i ==> (#[trigger] prev@[k]) is None,
                forall|k: int| 0 <= k < i ==> !#[trigger] done@[k],
            decreases n - i,
        {
            dist.push(None);
            prev.push(None);
            done.push(false);
            i += 1;
        }
        dist.set(start, Some(0));
        proof {
            lemma_count_true_zero(done@);
            let vs = seq![start as int];
            let ks = Seq::<int>::empty();
            assert(route_between(adj, vs, ks, start as int, start as int));
            assert(route_weight(adj, vs, ks) == 0);
            assert(has_route_of(adj, start as int, start as int, 0));
        }
        let mut cnt: usize = 0;
        let ghost mut rank: Seq<nat> = Seq::new(n as nat, |i: int| 0nat);
        loop
            invariant
                self.wf(), adj == self.adj_view(), n == self.n, n <= MAX_VERTICES, start < n,
                weights_bounded(adj),
                dist@.len() == n, prev@.len() == n, done@.len() == n, rank.len() == n,
                cnt == count_true(done@), cnt <= n,
                forall|x: int| 0 <= x < n && #[trigger] done@[x] ==> rank[x] < cnt,
                dist@[start as int] == Some(0u64),
                prev@[start as int] is None,
                forall|v: int| 0 <= v < n && #[trigger] dist@[v] is Some ==> has_route_of(adj, start as int, v, dist@[v].unwrap() as nat),
                forall|v: int| 0 <= v < n && v != start && #[trigger] dist@[v] is Some ==> prev@[v] is Some,
                forall|v: int| 0 <= v < n && #[trigger] prev@[v] is Some ==>
                    done@[prev@[v].unwrap() as int] && correct_link(adj, dist@, v, prev@[v].unwrap())
                    && (done@[v] ==> rank[prev@[v].unwrap() as int] < rank[v]),
                forall|v: int| 0 <= v < n && #[trigger] dist@[v] is None ==> !done@[v] && prev@[v] is None,
                forall|x: int, y: int| 0 <= x < n && 0 <= y < n && #[trigger] done@[x] && !#[trigger] done@[y] && dist@[y] is Some
                    ==> dist@[x].unwrap() <= dist@[y].unwrap(),
                forall|x: int, k: int| 0 <= x < n && done@[x] && 0 <= k < adj[x].len() ==>
                    dist@[(#[trigger] adj[x][k]).0 as int] is Some
                    && dist@[adj[x][k].0 as int].unwrap() <= dist@[x].unwrap() + adj[x][k].1,
                forall|v: int| 0 <= v < n && #[trigger] dist@[v] is Some ==> dist@[v].unwrap() <= cnt * MAX_WEIGHT,
            ensures
                forall|y: int| 0 <= y < n ==> done@[y] || #[trigger] dist@[y] is None,
            decreases n - cnt,
        {
            // the unfinished reached vertex of least distance
            let mut best: Option<usize> = None;
            let mut v: usize = 0;
            while v < n
                invariant
                    n == dist@.len(), n == done@.len(), v <= n,
                    best is None ==> forall|y: int| 0 <= y < v ==> done@[y] || #[trigger] dist@[y] is None,
                    best is Some ==> best.unwrap() < n && !done@[best.unwrap() as int] && dist@[best.unwrap() as int] is Some
                        && forall|y: int| 0 <= y < v && !done@[y] && #[trigger] dist@[y] is Some ==>
                            dist@[best.unwrap() as int].unwrap() <= dist@[y].unwrap(),
                decreases n - v,
            {
                if !done[v] {
                    match dist[v] {
                        Some(d) => {
                            match best {
                                None => { best = Some(v); },
                                Some(b) => {
                                    if d < dist[b].unwrap() {
                                        best = Some(v);
                                    }
                                },
                            }
                        },
                        None => {},
                    }
                }
                v += 1;
            }
            let u = match best {
                None => break,
                Some(u) => u,
            };
            let du = dist[u].unwrap();
            proof {
                assert forall|x: int| 0 <= x < n && #[trigger] done@[x] implies dist@[x] is Some && dist@[x].unwrap() <= du by {
                    assert(!done@[u as int]);
                }
                assert forall|v: int| 0 <= v < n && #[trigger] prev@[v] is Some && v == u implies
                    rank[prev@[v].unwrap() as int] < cnt by {
                    assert(done@[prev@[v].unwrap() as int]);
                }
                lemma_count_true_set(done@, u as int);
                lemma_count_true_le(done@.update(u as int, true));
                rank = rank.update(u as int, cnt as nat);
            }
            done.set(u, true);
            cnt = cnt + 1;
            assert(du <= (cnt - 1) * MAX_WEIGHT);
            assert(cnt * MAX_WEIGHT <= MAX_VERTICES * MAX_WEIGHT) by (nonlinear_arith)
                requires cnt <= MAX_VERTICES;
            let m = self.adj[u].len();
            let mut k: usize = 0;
            while k < m
                invariant
                    self.wf(), adj == self.adj_view(), n == self.n, n <= MAX_VERTICES, start < n,
                weights_bounded(adj),
                    dist@.len() == n, prev@.len() == n, done@.len() == n, rank.len() == n,
                    cnt == count_true(done@), 1 <= cnt <= n,
                    cnt * MAX_WEIGHT <= MAX_VERTICES * MAX_WEIGHT,
                    u < n, done@[u as int], dist@[u as int] == Some(du), m == adj[u as int].len(), k <= m,
                    forall|x: int| 0 <= x < n && #[trigger] done@[x] ==> rank[x] < cnt,
                    forall|x: int| 0 <= x < n && #[trigger] done@[x] ==> dist@[x] is Some && dist@[x].unwrap() <= du,
                    du <= (cnt - 1) * MAX_WEIGHT,
                    dist@[start as int] == Some(0u64),
                    prev@[start as int] is None,
                    forall|v: int| 0 <= v < n && #[trigger] dist@[v] is Some ==> has_route_of(adj, start as int, v, dist@[v].unwrap() as nat),
                    forall|v: int| 0 <= v < n && v != start && #[trigger] dist@[v] is Some ==> prev@[v] is Some,
                    forall|v: int| 0 <= v < n && #[trigger] prev@[v] is Some ==>
                        done@[prev@[v].unwrap() as int] && correct_link(adj, dist@, v, prev@[v].unwrap())
                        && (done@[v] ==> rank[prev@[v].unwrap() as int] < rank[v]),
                    forall|v: int| 0 <= v < n && #[trigger] dist@[v] is None ==> !done@[v] && prev@[v] is None,
                    forall|x: int, y: int| 0 <= x < n && 0 <= y < n && #[trigger] done@[x] && !#[trigger] done@[y] && dist@[y] is Some
                        ==> dist@[x].unwrap() <= dist@[y].unwrap(),
                    forall|x: int, j: int| 0 <= x < n && done@[x] && 0 <= j < adj[x].len() && (x != u || j < k) ==>
                        dist@[(#[trigger] adj[x][j]).0 as int] is Some
                        && dist@[adj[x][j].0 as int].unwrap() <= dist@[x].unwrap() + adj[x][j].1,
                    forall|v: int| 0 <= v < n && #[trigger] dist@[v] is Some ==> dist@[v].unwrap() <= cnt * MAX_WEIGHT,
                decreases m - k,
            {
                let (v, w) = self.adj[u][k];
                assert(adj[u as int][k as int] == (v, w));
                let nd: u64 = du + w as u64;
                let improve = match dist[v] {
                    None => true,
                    Some(dv) => nd < dv,
                };
                if improve {
                    proof {
                        if done@[v as int] {
                            assert(dist@[v as int].unwrap() <= du);
                        }
                        let (vs, ks) = choose|vs: Seq<int>, ks: Seq<int>| route_between(adj, vs, ks, start as int, u as int)
                            && route_weight(adj, vs, ks) == du as nat;
                        lemma_route_extend(adj, vs, ks, k as int);
                        assert(route_between(adj, vs.push(v as int), ks.push(k as int), start as int, v as int));
                    }
                    let ghost d0 = dist@;
                    dist.set(v, Some(nd));
                    prev.set(v, Some(u));
                    proof {
                        assert(v != start);
                        assert forall|t: int| 0 <= t < n && #[trigger] prev@[t] is Some implies
                            done@[prev@[t].unwrap() as int] && correct_link(adj, dist@, t, prev@[t].unwrap())
                            && (done@[t] ==> rank[prev@[t].unwrap() as int] < rank[t]) by {
                            if t == v {
                                assert(adj[u as int][k as int].0 as int == t);
                                assert(dist@[t].unwrap() == dist@[u as int].unwrap() + adj[u as int][k as int].1);
                            } else {
                                let p = prev@[t].unwrap();
                                assert(p != v);
                                assert(correct_link(adj, d0, t, p));
                                let j = choose|j: int| 0 <= j < adj[p as int].len() && adj[p as int][j].0 as int == t
                                    && #[trigger] d0[t].unwrap() == d0[p as int].unwrap() + adj[p as int][j].1;
                                assert(dist@[t] == d0[t]);
                                assert(dist@[p as int] == d0[p as int]);
                                assert(dist@[t].unwrap() == dist@[p as int].unwrap() + adj[p as int][j].1);
                            }
                        }
                        assert forall|x: int, j: int| 0 <= x < n && done@[x] && 0 <= j < adj[x].len() && (x != u || j < k + 1) implies
                            dist@[(#[trigger] adj[x][j]).0 as int] is Some
                            && dist@[adj[x][j].0 as int].unwrap() <= dist@[x].unwrap() + adj[x][j].1 by {
                            assert(x != v);
                            if x == u && j == k {
                            } else {
                                assert(d0[adj[x][j].0 as int] is Some);
                            }
                        }
                        assert forall|x: int, y: int| 0 <= x < n && 0 <= y < n && #[trigger] done@[x] && !#[trigger] done@[y] && dist@[y] is Some
                            implies dist@[x].unwrap() <= dist@[y].unwrap() by {
                            if y == v {
                                assert(d0[x].unwrap() <= du);
                            }
                        }
                    }
                }
                k += 1;
            }
        }
        proof {
            assert forall|t: int| 0 <= t < n implies #[trigger] correct_distance(adj, start as int, t, dist@[t]) by {
                assert forall|vs: Seq<int>, ks: Seq<int>| #[trigger] route_between(adj, vs, ks, start as int, t) implies
                    dist@[t] is Some && dist@[t].unwrap() <= route_weight(adj, vs, ks) by {
                    assert forall|x: int, j: int| 0 <= x < adj.len() && dist@[x] is Some && 0 <= j < adj[x].len() implies
                        dist@[(#[trigger] adj[x][j]).0 as int] is Some
                        && dist@[adj[x][j].0 as int].unwrap() <= dist@[x].unwrap() + adj[x][j].1 by {
                        assert(done@[x] || dist@[x] is None);
                    }
                    lemma_relaxed_bounds_route(adj, dist@, vs, ks);
                }
                if dist@[t] is None {
                    if routable(adj, start as int, t) {
                        let (vs, ks) = choose|vs: Seq<int>, ks: Seq<int>| route_between(adj, vs, ks, start as int, t);
                        assert(route_between(adj, vs, ks, start as int, t));
                    }
                }
            }
            assert forall|t: int| 0 <= t < prev@.len() && #[trigger] prev@[t] is Some implies
                prev@[t].unwrap() < prev@.len() && rank[prev@[t].unwrap() as int] < rank[t] by {
                assert(dist@[t] is Some);
                assert(done@[t] || dist@[t] is None);
            }
            assert(ranked_by(prev@, rank));
            assert(links_ranked(prev@));
        }
        (dist, prev)
    }
}

} // verus!
