//! The weighted graph model: adjacency lists, construction from an edge
//! collection, directedness inference and degree counts.
use vstd::prelude::*;

verus! {

/// An edge weight: a decimal number held exactly, in millionths (a weight
/// written `1.5` is 1_500_000, `-2` is -2_000_000).
pub type Weight = i64;

/// Millionths in one unit of weight.
pub const WEIGHT_SCALE: u64 = 1_000_000;

/// Largest size of a weight, about 1.1 million units.
pub const MAX_WEIGHT: i64 = 0xff_ffff_ffff;

/// Largest number of vertices the shortest-route search handles.
pub const MAX_VERTICES: u64 = 0x10_0000;

/// An edge `(from, to, weight)` with zero-based endpoints.
pub type Edge = (usize, usize, Weight);

/// Adjacency lists as mathematical sequences.
pub type AdjView = Seq<Seq<(usize, Weight)>>;

/// The result of appending `(v, w)` to `u`'s list and, for an undirected
/// graph, `(u, w)` to `v`'s list.
pub open spec fn with_edge(adj: AdjView, directed: bool, u: int, v: int, w: Weight) -> AdjView {
    let a = adj.update(u, adj[u].push((v as usize, w)));
    if directed {
        a
    } else {
        a.update(v, a[v].push((u as usize, w)))
    }
}

/// Adjacency lists after adding `edges` in order to `adj`.
pub open spec fn with_edges(adj: AdjView, directed: bool, edges: Seq<Edge>) -> AdjView
    decreases edges.len(),
{
    if edges.len() == 0 {
        adj
    } else {
        let e = edges.last();
        with_edge(with_edges(adj, directed, edges.drop_last()), directed, e.0 as int, e.1 as int, e.2)
    }
}

/// `n` empty adjacency lists.
pub open spec fn empty_adj(n: nat) -> AdjView {
    Seq::new(n, |i: int| Seq::<(usize, Weight)>::empty())
}

/// Every neighbour index is a vertex.
pub open spec fn in_range(adj: AdjView) -> bool {
    forall|u: int, k: int| 0 <= u < adj.len() && 0 <= k < adj[u].len() ==> (#[trigger] adj[u][k]).0 < adj.len()
}

/// Every weight is non-negative and at most `MAX_WEIGHT`, as shortest
/// routes need.
pub open spec fn weights_bounded(adj: AdjView) -> bool {
    forall|u: int, k: int| 0 <= u < adj.len() && 0 <= k < adj[u].len() ==>
        0 <= (#[trigger] adj[u][k]).1 <= MAX_WEIGHT
}

/// Every stored entry `u -> (v, w)` has a stored entry `v -> (u, w)`.
pub open spec fn mirrored(adj: AdjView) -> bool {
    forall|u: int, k: int| 0 <= u < adj.len() && 0 <= k < adj[u].len() ==>
        #[trigger] has_entry(adj, adj[u][k].0 as int, u as usize, adj[u][k].1)
}

pub open spec fn has_entry(adj: AdjView, u: int, v: usize, w: Weight) -> bool {
    exists|k: int| 0 <= k < adj[u].len() && adj[u][k] == (v, w)
}

/// The edge `e` has a reverse edge of equal weight in `edges`.
pub open spec fn has_reverse(edges: Seq<Edge>, e: Edge) -> bool {
    exists|j: int| 0 <= j < edges.len() && edges[j].0 == e.1 && edges[j].1 == e.0 && edges[j].2 == e.2
}

/// Every edge has a reverse edge of equal weight: the edge set describes an
/// undirected graph. Vacuously true without edges.
pub open spec fn all_reversed(edges: Seq<Edge>) -> bool {
    forall|i: int| 0 <= i < edges.len() ==> #[trigger] has_reverse(edges, edges[i])
}

/// Every endpoint is below `n`.
pub open spec fn edges_in_range(edges: Seq<Edge>, n: nat) -> bool {
    forall|i: int| 0 <= i < edges.len() ==> (#[trigger] edges[i]).0 < n && edges[i].1 < n
}

/// `edges` lists exactly the stored entries of `adj`: each edge is an entry
/// `from -> (to, weight)`, and each entry appears among the edges.
pub open spec fn lists_entries(adj: AdjView, edges: Seq<Edge>) -> bool {
    &&& forall|i: int| 0 <= i < edges.len() ==> (#[trigger] edges[i]).0 < adj.len()
        && has_entry(adj, edges[i].0 as int, edges[i].1, edges[i].2)
    &&& forall|u: int, k: int| 0 <= u < adj.len() && 0 <= k < adj[u].len() ==>
        #[trigger] edges.contains((u as usize, adj[u][k].0, adj[u][k].1))
}

/// Number of edges leaving `v`.
pub open spec fn count_from(edges: Seq<Edge>, v: usize) -> nat
    decreases edges.len(),
{
    if edges.len() == 0 {
        0
    } else {
        count_from(edges.drop_last(), v) + if edges.last().0 == v { 1nat } else { 0nat }
    }
}

/// Number of edges entering `v`.
pub open spec fn count_into(edges: Seq<Edge>, v: usize) -> nat
    decreases edges.len(),
{
    if edges.len() == 0 {
        0
    } else {
        count_into(edges.drop_last(), v) + if edges.last().1 == v { 1nat } else { 0nat }
    }
}

/// Number of entries of one list that point to `v`.
pub open spec fn count_to(list: Seq<(usize, Weight)>, v: usize) -> nat
    decreases list.len(),
{
    if list.len() == 0 {
        0
    } else {
        count_to(list.drop_last(), v) + if list.last().0 == v { 1nat } else { 0nat }
    }
}

/// Number of entries in the first `m` lists that point to `v`.
pub open spec fn in_degree(adj: AdjView, m: int, v: usize) -> nat
    decreases m,
{
    if m <= 0 {
        0
    } else {
        in_degree(adj, m - 1, v) + count_to(adj[m - 1], v)
    }
}

/// Number of entries in the first `m` lists.
pub open spec fn total_entries(adj: AdjView, m: int) -> nat
    decreases m,
{
    if m <= 0 {
        0
    } else {
        total_entries(adj, m - 1) + adj[m - 1].len()
    }
}

proof fn lemma_count_to_le(list: Seq<(usize, Weight)>, v: usize)
    ensures
        count_to(list, v) <= list.len(),
    decreases list.len(),
{
    if list.len() > 0 {
        lemma_count_to_le(list.drop_last(), v);
    }
}

proof fn lemma_in_degree_le(adj: AdjView, m: int, v: usize)
    ensures
        in_degree(adj, m, v) <= total_entries(adj, m),
    decreases m,
{
    if m > 0 {
        lemma_in_degree_le(adj, m - 1, v);
        lemma_count_to_le(adj[m - 1], v);
    }
}

proof fn lemma_total_entries_mono(adj: AdjView, m1: int, m2: int)
    requires
        m1 <= m2,
    ensures
        total_entries(adj, m1) <= total_entries(adj, m2),
    decreases m2 - m1,
{
    if m1 < m2 {
        lemma_total_entries_mono(adj, m1, m2 - 1);
    }
}

/// A weighted graph on the vertices `0..n`.
#[derive(Debug)]
pub struct Graph {
    pub n: usize,
    pub directed: bool,
    pub adj: Vec<Vec<(usize, Weight)>>,
}

impl Graph {
    pub open spec fn adj_view(&self) -> AdjView {
        self.adj@.map_values(|l: Vec<(usize, Weight)>| l@)
    }

    /// One list per vertex, every neighbour a vertex, and for an undirected
    /// graph every entry stored in both directions.
    pub open spec fn wf(&self) -> bool {
        &&& self.adj@.len() == self.n
        &&& in_range(self.adj_view())
        &&& !self.directed ==> mirrored(self.adj_view())
    }

    /// `n` isolated vertices.
    pub fn new(n: usize, directed: bool) -> (r: Graph)
        ensures
            r.wf(),
            r.n == n,
            r.directed == directed,
            r.adj_view() == empty_adj(n as nat),
    {
        let mut adj: Vec<Vec<(usize, Weight)>> = Vec::new();
        let mut i: usize = 0;
        while i < n
            invariant
                i <= n,
                adj@.len() == i,
                forall|k: int| 0 <= k < i ==> (#[trigger] adj@[k])@ == Seq::<(usize, Weight)>::empty(),
            decreases n - i,
        {
            adj.push(Vec::new());
            i += 1;
        }
        let r = Graph { n, directed, adj };
        assert(r.adj_view() =~= empty_adj(n as nat));
        r
    }

    /// Appends `(v, w)` to `u`'s list and, unless the graph is directed,
    /// `(u, w)` to `v`'s list.
    pub fn add_edge(&mut self, u: usize, v: usize, w: Weight)
        requires
            old(self).wf(),
            u < old(self).n,
            v < old(self).n,
        ensures
            final(self).wf(),
            final(self).n == old(self).n,
            final(self).directed == old(self).directed,
            final(self).adj_view() == with_edge(old(self).adj_view(), old(self).directed, u as int, v as int, w),
    {
        let ghost a0 = self.adj_view();
        self.adj[u].push((v, w));
        assert(self.adj_view() =~= a0.update(u as int, a0[u as int].push((v, w))));
        if !self.directed {
            let ghost a1 = self.adj_view();
            self.adj[v].push((u, w));
            assert(self.adj_view() =~= a1.update(v as int, a1[v as int].push((u, w))));
            proof {
                let a2 = self.adj_view();
                assert forall|x: int, k: int| 0 <= x < a2.len() && 0 <= k < a2[x].len() implies
                    #[trigger] has_entry(a2, a2[x][k].0 as int, x as usize, a2[x][k].1) by {
                    if x == v && k == a1[x].len() {
                        if u == v {
                            assert(a2[x][k] == (u, w));
                            assert(a2[u as int][k] == (x as usize, w));
                        } else {
                            assert(a2[u as int][a0[u as int].len() as int] == (v, w));
                        }
                    } else if x == u && k == a0[x].len() {
                        assert(a2[v as int][a1[v as int].len() as int] == (u, w));
                    } else {
                        let y = a2[x][k].0 as int;
                        assert(k < a0[x].len());
                        assert(a2[x][k] == a0[x][k]);
                        assert(has_entry(a0, a0[x][k].0 as int, x as usize, a0[x][k].1));
                        let j = choose|j: int| 0 <= j < a0[y].len() && a0[y][j] == (x as usize, a0[x][k].1);
                        assert(a2[y][j] == a0[y][j]);
                    }
                }
            }
        }
    }

    /// Adds `edges` in order.
    pub fn add_edges(&mut self, edges: &Vec<Edge>)
        requires
            old(self).wf(),
            edges_in_range(edges@, old(self).n as nat),
        ensures
            final(self).wf(),
            final(self).n == old(self).n,
            final(self).directed == old(self).directed,
            final(self).adj_view() == with_edges(old(self).adj_view(), old(self).directed, edges@),
    {
        let ghost a0 = self.adj_view();
        let mut i: usize = 0;
        while i < edges.len()
            invariant
                self.wf(),
                self.n == old(self).n,
                self.directed == old(self).directed,
                a0 == old(self).adj_view(),
                edges_in_range(edges@, self.n as nat),
                i <= edges@.len(),
                self.adj_view() == with_edges(a0, self.directed, edges@.subrange(0, i as int)),
            decreases edges@.len() - i,
        {
            let (u, v, w) = edges[i];
            assert(edges@[i as int].0 < self.n);
            self.add_edge(u, v, w);
            assert(edges@.subrange(0, i + 1).drop_last() =~= edges@.subrange(0, i as int));
            i += 1;
        }
        assert(edges@.subrange(0, edges@.len() as int) =~= edges@);
    }

    /// The graph on `0..n` holding `edges`, directed unless every edge has a
    /// reverse edge of equal weight.
    pub fn from_edges(n: usize, edges: &Vec<Edge>) -> (r: Graph)
        requires
            edges_in_range(edges@, n as nat),
        ensures
            r.wf(),
            r.n == n,
            r.directed == !all_reversed(edges@),
            r.adj_view() == with_edges(empty_adj(n as nat), r.directed, edges@),
    {
        let directed = infer_directed(edges);
        let mut g = Graph::new(n, directed);
        g.add_edges(edges);
        g
    }

    /// Every stored entry `u -> (v, w)` as the edge `(u, v, w)`.
    pub fn edge_list(&self) -> (r: Vec<Edge>)
        requires
            self.wf(),
        ensures
            lists_entries(self.adj_view(), r@),
    {
        let ghost a = self.adj_view();
        let mut r: Vec<Edge> = Vec::new();
        let mut u: usize = 0;
        while u < self.n
            invariant
                self.wf(), a == self.adj_view(), u <= self.n,
                forall|i: int| 0 <= i < r@.len() ==> (#[trigger] r@[i]).0 < u
                    && has_entry(a, r@[i].0 as int, r@[i].1, r@[i].2),
                forall|x: int, k: int| 0 <= x < u && 0 <= k < a[x].len() ==>
                    #[trigger] r@.contains((x as usize, a[x][k].0, a[x][k].1)),
            decreases self.n - u,
        {
            let mut k: usize = 0;
            while k < self.adj[u].len()
                invariant
                    self.wf(), a == self.adj_view(), u < self.n, k <= a[u as int].len(),
                    forall|i: int| 0 <= i < r@.len() ==> (#[trigger] r@[i]).0 <= u
                        && has_entry(a, r@[i].0 as int, r@[i].1, r@[i].2),
                    forall|x: int, j: int| ((0 <= x < u && 0 <= j < a[x].len()) || (x == u && 0 <= j < k)) ==>
                        #[trigger] r@.contains((x as usize, a[x][j].0, a[x][j].1)),
                decreases a[u as int].len() - k,
            {
                let (v, w) = self.adj[u][k];
                let ghost before = r@;
                r.push((u, v, w));
                proof {
                    assert(r@[before.len() as int] == (u, v, w));
                    assert(a[u as int][k as int] == (v, w));
                    assert forall|x: int, j: int| ((0 <= x < u && 0 <= j < a[x].len()) || (x == u && 0 <= j < k + 1)) implies
                        #[trigger] r@.contains((x as usize, a[x][j].0, a[x][j].1)) by {
                        if x == u && j == k {
                            assert(r@[before.len() as int] == (x as usize, a[x][j].0, a[x][j].1));
                        } else {
                            assert(before.contains((x as usize, a[x][j].0, a[x][j].1)));
                            let i = choose|i: int| 0 <= i < before.len() && before[i] == (x as usize, a[x][j].0, a[x][j].1);
                            assert(r@[i] == before[i]);
                        }
                    }
                }
                k += 1;
            }
            u += 1;
        }
        r
    }

    /// In- and out-degree of every vertex: entries pointing to it, and the
    /// length of its own list.
    pub fn degrees(&self) -> (r: (Vec<usize>, Vec<usize>))
        requires
            self.wf(),
            total_entries(self.adj_view(), self.n as int) <= usize::MAX,
        ensures
            r.0@.len() == self.n,
            r.1@.len() == self.n,
            forall|v: int| 0 <= v < self.n ==> r.0@[v] == in_degree(self.adj_view(), self.n as int, v as usize),
            forall|v: int| 0 <= v < self.n ==> r.1@[v] == self.adj@[v]@.len(),
    {
        let ghost a = self.adj_view();
        let n = self.n;
        let mut deg_in: Vec<usize> = Vec::new();
        let mut deg_out: Vec<usize> = Vec::new();
        let mut i: usize = 0;
        while i < n
            invariant
                i <= n, deg_in@.len() == i, deg_out@.len() == i,
                forall|v: int| 0 <= v < i ==> deg_in@[v] == 0 && deg_out@[v] == 0,
            decreases n - i,
        {
            deg_in.push(0);
            deg_out.push(0);
            i += 1;
        }
        let mut u: usize = 0;
        while u < n
            invariant
                self.wf(), a == self.adj_view(), n == self.n, u <= n,
                total_entries(a, n as int) <= usize::MAX,
                deg_in@.len() == n, deg_out@.len() == n,
                forall|v: int| 0 <= v < n ==> deg_in@[v] == in_degree(a, u as int, v as usize),
                forall|v: int| 0 <= v < n ==> deg_out@[v] == if v < u { a[v].len() } else { 0 },
            decreases n - u,
        {
            deg_out.set(u, self.adj[u].len());
            let mut k: usize = 0;
            while k < self.adj[u].len()
                invariant
                    self.wf(), a == self.adj_view(), n == self.n, u < n, k <= a[u as int].len(),
                    total_entries(a, n as int) <= usize::MAX,
                    deg_in@.len() == n,
                    forall|v: int| 0 <= v < n ==> deg_in@[v] == in_degree(a, u as int, v as usize)
                        + count_to(a[u as int].subrange(0, k as int), v as usize),
                decreases a[u as int].len() - k,
            {
                let (v, _) = self.adj[u][k];
                proof {
                    assert forall|x: int| 0 <= x < n implies deg_in@[x] + (if x == v { 1int } else { 0int }) == in_degree(a, u as int, x as usize)
                        + count_to(a[u as int].subrange(0, k + 1), x as usize) by {
                        assert(a[u as int].subrange(0, k + 1).drop_last() =~= a[u as int].subrange(0, k as int));
                    }
                    lemma_count_to_le(a[u as int].subrange(0, k + 1), v);
                    lemma_in_degree_le(a, u as int, v);
                    lemma_total_entries_mono(a, u + 1, n as int);
                    assert(total_entries(a, u + 1) == total_entries(a, u as int) + a[u as int].len());
                    assert(a[u as int].subrange(0, k + 1).len() <= a[u as int].len());
                }
                let d = deg_in[v];
                deg_in.set(v, d + 1);
                k += 1;
            }
            assert(a[u as int].subrange(0, a[u as int].len() as int) =~= a[u as int]);
            u += 1;
        }
        (deg_in, deg_out)
    }
}

/// Whether some edge lacks a reverse edge of equal weight.
pub fn infer_directed(edges: &Vec<Edge>) -> (r: bool)
    ensures
        r == !all_reversed(edges@),
{
    let m = edges.len();
    let mut i: usize = 0;
    while i < m
        invariant
            m == edges@.len(), i <= m,
            forall|x: int| 0 <= x < i ==> #[trigger] has_reverse(edges@, edges@[x]),
        decreases m - i,
    {
        let (u, v, w) = edges[i];
        let mut found = false;
        let mut j: usize = 0;
        while j < m && !found
            invariant
                m == edges@.len(), i < m, j <= m, edges@[i as int] == (u, v, w),
                found ==> has_reverse(edges@, edges@[i as int]),
                !found ==> forall|y: int| 0 <= y < j ==> !(edges@[y].0 == v && edges@[y].1 == u && edges@[y].2 == w),
            decreases m - j,
        {
            let (x, y, w2) = edges[j];
            if x == v && y == u && w2 == w {
                found = true;
            }
            j += 1;
        }
        if !found {
            assert(!has_reverse(edges@, edges@[i as int]));
            return true;
        }
        i += 1;
    }
    false
}

/// Inferring directedness from the edges of an undirected graph finds it
/// undirected: every stored entry has its reverse entry of equal weight.
pub proof fn lemma_undirected_round_trip(g: &Graph, edges: Seq<Edge>)
    requires
        g.wf(),
        !g.directed,
        lists_entries(g.adj_view(), edges),
    ensures
        all_reversed(edges),
{
    let a = g.adj_view();
    assert forall|i: int| 0 <= i < edges.len() implies #[trigger] has_reverse(edges, edges[i]) by {
        let e = edges[i];
        let u = e.0 as int;
        let k = choose|k: int| 0 <= k < a[u].len() && a[u][k] == (e.1, e.2);
        assert(has_entry(a, a[u][k].0 as int, u as usize, a[u][k].1));
        let v = e.1 as int;
        let j = choose|j: int| 0 <= j < a[v].len() && a[v][j] == (u as usize, e.2);
        assert(edges.contains((v as usize, a[v][j].0, a[v][j].1)));
    }
}

proof fn lemma_in_degree_empty(n: nat, m: int, x: usize)
    requires
        m <= n,
    ensures
        in_degree(empty_adj(n), m, x) == 0,
    decreases m,
{
    if m > 0 {
        lemma_in_degree_empty(n, m - 1, x);
    }
}

proof fn lemma_in_degree_push(adj: AdjView, m: int, u: int, e: (usize, Weight), x: usize)
    requires
        0 <= u < adj.len(),
        m <= adj.len(),
    ensures
        in_degree(adj.update(u, adj[u].push(e)), m, x)
            == in_degree(adj, m, x) + if u < m && e.0 == x { 1nat } else { 0nat },
    decreases m,
{
    if m > 0 {
        lemma_in_degree_push(adj, m - 1, u, e, x);
        if m - 1 == u {
            assert(adj[u].push(e).drop_last() =~= adj[u]);
        }
    }
}

/// In a graph built undirected from `edges`, the list of `v` holds one entry
/// for each edge leaving `v` and one for each edge entering it, and as many
/// entries lead to `v`: the in- and out-degrees agree, and each is twice the
/// number of incident edges when each edge is given in both directions.
pub proof fn lemma_undirected_degree(n: nat, edges: Seq<Edge>, v: usize)
    requires
        edges_in_range(edges, n),
        v < n,
    ensures
        with_edges(empty_adj(n), false, edges).len() == n,
        with_edges(empty_adj(n), false, edges)[v as int].len() == count_from(edges, v) + count_into(edges, v),
        in_degree(with_edges(empty_adj(n), false, edges), n as int, v) == count_from(edges, v) + count_into(edges, v),
    decreases edges.len(),
{
    if edges.len() == 0 {
        lemma_in_degree_empty(n, n as int, v);
    } else {
        let rest = edges.drop_last();
        assert(edges_in_range(rest, n)) by {
            assert forall|i: int| 0 <= i < rest.len() implies (#[trigger] rest[i]).0 < n && rest[i].1 < n by {
                assert(rest[i] == edges[i]);
            }
        }
        lemma_undirected_degree(n, rest, v);
        assert(edges[edges.len() - 1] == edges.last());
        let e = edges.last();
        assert(e.0 < n && e.1 < n);
        let adj = with_edges(empty_adj(n), false, rest);
        let a = adj.update(e.0 as int, adj[e.0 as int].push((e.1, e.2)));
        lemma_in_degree_push(adj, n as int, e.0 as int, (e.1, e.2), v);
        lemma_in_degree_push(a, n as int, e.1 as int, (e.0, e.2), v);
    }
}

} // verus!
