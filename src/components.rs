//! Weak and strong connectivity of a graph: vertices are grouped by
//! reachability found with breadth-first search.
use vstd::prelude::*;
use crate::graph::{AdjView, Graph, Weight, has_entry, mirrored};
use crate::walks::{
    connects, covered, equivalence_on, group_by, is_grouping, lemma_grouping_partition, lemma_walk_refl, lemma_walk_sym,
    lemma_walk_trans, list_step, reachable_from, views,
};

verus! {

/// A stored entry leads from `x` to `y`.
pub open spec fn arc(adj: AdjView) -> spec_fn(int, int) -> bool {
    |x: int, y: int| 0 <= x < adj.len() && exists|k: int| 0 <= k < adj[x].len() && adj[x][k].0 as int == y
}

/// A stored entry joins `x` and `y`, in either direction.
pub open spec fn either_arc(adj: AdjView) -> spec_fn(int, int) -> bool {
    |x: int, y: int| arc(adj)(x, y) || arc(adj)(y, x)
}

/// `u` and `v` are joined when edge directions are ignored.
pub open spec fn weakly_related(adj: AdjView) -> spec_fn(int, int) -> bool {
    |u: int, v: int| connects(either_arc(adj), u, v)
}

/// `u` and `v` reach each other along edges.
pub open spec fn strongly_related(adj: AdjView) -> spec_fn(int, int) -> bool {
    |u: int, v: int| connects(arc(adj), u, v) && connects(arc(adj), v, u)
}

pub proof fn lemma_weak_equivalence(adj: AdjView, n: int)
    ensures
        equivalence_on(weakly_related(adj), n),
{
    let step = either_arc(adj);
    let rel = weakly_related(adj);
    assert forall|x: int| 0 <= x < n implies #[trigger] rel(x, x) by {
        lemma_walk_refl(step, x);
    }
    assert forall|x: int, y: int| 0 <= x < n && 0 <= y < n && #[trigger] rel(x, y) implies rel(y, x) by {
        assert forall|a: int, b: int| #[trigger] step(a, b) implies step(b, a) by {}
        lemma_walk_sym(step, x, y);
    }
    assert forall|x: int, y: int, z: int| 0 <= x < n && 0 <= y < n && 0 <= z < n
        && #[trigger] rel(x, y) && #[trigger] rel(y, z) implies rel(x, z) by {
        lemma_walk_trans(step, x, y, z);
    }
}

pub proof fn lemma_strong_equivalence(adj: AdjView, n: int)
    ensures
        equivalence_on(strongly_related(adj), n),
{
    let step = arc(adj);
    let rel = strongly_related(adj);
    assert forall|x: int| 0 <= x < n implies #[trigger] rel(x, x) by {
        lemma_walk_refl(step, x);
    }
    assert forall|x: int, y: int, z: int| 0 <= x < n && 0 <= y < n && 0 <= z < n
        && #[trigger] rel(x, y) && #[trigger] rel(y, z) implies rel(x, z) by {
        lemma_walk_trans(step, x, y, z);
        lemma_walk_trans(step, z, y, x);
    }
}

/// In an undirected graph two vertices are strongly related exactly when they
/// are weakly related: the strong and the weak components coincide.
pub proof fn lemma_undirected_strong_is_weak(g: &Graph)
    requires
        g.wf(),
        !g.directed,
    ensures
        strongly_related(g.adj_view()) == weakly_related(g.adj_view()),
{
    let adj = g.adj_view();
    assert forall|x: int, y: int| #[trigger] arc(adj)(x, y) implies arc(adj)(y, x) by {
        let k = choose|k: int| 0 <= k < adj[x].len() && adj[x][k].0 as int == y;
        assert(has_entry(adj, adj[x][k].0 as int, x as usize, adj[x][k].1));
        let j = choose|j: int| 0 <= j < adj[y].len() && adj[y][j] == (x as usize, adj[x][k].1);
        assert(adj[y][j].0 as int == x);
    }
    assert(either_arc(adj) =~= arc(adj));
    assert forall|u: int, v: int| #[trigger] connects(arc(adj), u, v) implies connects(arc(adj), v, u) by {
        lemma_walk_sym(arc(adj), u, v);
    }
    assert(strongly_related(adj) =~= weakly_related(adj));
}

/// The partition into weak components.
pub open spec fn is_weak_decomposition(g: &Graph, comps: Seq<Seq<usize>>) -> bool {
    is_grouping(weakly_related(g.adj_view()), g.n as int, comps)
}

/// The partition into strong components.
pub open spec fn is_strong_decomposition(g: &Graph, comps: Seq<Seq<usize>>) -> bool {
    is_grouping(strongly_related(g.adj_view()), g.n as int, comps)
}

/// For every vertex, whether each vertex can be reached from it.
fn reach_matrix(nb: &Vec<Vec<usize>>) -> (r: Vec<Vec<bool>>)
    requires
        forall|x: int, j: int| 0 <= x < nb@.len() && 0 <= j < nb@[x]@.len() ==> (#[trigger] nb@[x]@[j]) < nb@.len(),
    ensures
        r@.len() == nb@.len(),
        forall|u: int| 0 <= u < r@.len() ==> (#[trigger] r@[u])@.len() == nb@.len(),
        forall|u: int, x: int| 0 <= u < nb@.len() && 0 <= x < nb@.len() ==>
            r@[u]@[x] == connects(list_step(views(nb@)), u, x),
{
    let n = nb.len();
    let mut r: Vec<Vec<bool>> = Vec::new();
    let mut u: usize = 0;
    while u < n
        invariant
            n == nb@.len(), u <= n, r@.len() == u,
            forall|x: int, j: int| 0 <= x < nb@.len() && 0 <= j < nb@[x]@.len() ==> (#[trigger] nb@[x]@[j]) < nb@.len(),
            forall|k: int| 0 <= k < u ==> (#[trigger] r@[k])@.len() == n,
            forall|k: int, x: int| 0 <= k < u && 0 <= x < n ==> r@[k]@[x] == connects(list_step(views(nb@)), k, x),
        decreases n - u,
    {
        let row = reachable_from(nb, u);
        assert(views(nb@) =~= nb@.map_values(|l: Vec<usize>| l@));
        r.push(row);
        u += 1;
    }
    r
}

impl Graph {
    /// For every vertex, the targets of its entries.
    fn target_lists(&self) -> (r: Vec<Vec<usize>>)
        requires
            self.wf(),
        ensures
            r@.len() == self.n,
            forall|x: int, j: int| 0 <= x < r@.len() && 0 <= j < r@[x]@.len() ==> (#[trigger] r@[x]@[j]) < r@.len(),
            list_step(views(r@)) == arc(self.adj_view()),
    {
        let ghost a = self.adj_view();
        let mut r: Vec<Vec<usize>> = Vec::new();
        let mut u: usize = 0;
        while u < self.n
            invariant
                self.wf(), a == self.adj_view(), u <= self.n, r@.len() == u,
                forall|x: int, j: int| 0 <= x < u && 0 <= j < r@[x]@.len() ==> (#[trigger] r@[x]@[j]) < self.n,
                forall|x: int| 0 <= x < u ==> (#[trigger] r@[x])@.len() == a[x].len(),
                forall|x: int, j: int| 0 <= x < u && 0 <= j < a[x].len() ==> r@[x]@[j] == (#[trigger] a[x][j]).0,
            decreases self.n - u,
        {
            let mut list: Vec<usize> = Vec::new();
            let mut k: usize = 0;
            while k < self.adj[u].len()
                invariant
                    self.wf(), a == self.adj_view(), u < self.n, k <= a[u as int].len(), list@.len() == k,
                    forall|j: int| 0 <= j < k ==> list@[j] == (#[trigger] a[u as int][j]).0,
                decreases a[u as int].len() - k,
            {
                let (v, _) = self.adj[u][k];
                list.push(v);
                k += 1;
            }
            let ghost r0 = r@;
            r.push(list);
            proof {
                assert forall|x: int, j: int| 0 <= x < u + 1 && 0 <= j < r@[x]@.len() implies (#[trigger] r@[x]@[j]) < self.n by {
                    if x < u {
                        assert(r@[x] == r0[x]);
                    } else {
                        assert(r@[x]@[j] == a[x][j].0);
                    }
                }
            }
            u += 1;
        }
        proof {
            let nb = views(r@);
            assert forall|x: int, y: int| #[trigger] list_step(nb)(x, y) == arc(a)(x, y) by {
                if 0 <= x < nb.len() {
                    if list_step(nb)(x, y) {
                        let j = choose|j: int| 0 <= j < nb[x].len() && nb[x][j] as int == y;
                        assert(a[x][j].0 as int == y);
                    }
                    if arc(a)(x, y) {
                        let k = choose|k: int| 0 <= k < a[x].len() && a[x][k].0 as int == y;
                        assert(nb[x][k] as int == y);
                    }
                }
            }
            assert(list_step(nb) =~= arc(a));
        }
        r
    }

    /// Whether an entry of `x` leads to `y`.
    fn has_arc(&self, x: usize, y: usize) -> (r: bool)
        requires
            self.wf(),
            x < self.n,
        ensures
            r == arc(self.adj_view())(x as int, y as int),
    {
        let ghost a = self.adj_view();
        let mut k: usize = 0;
        while k < self.adj[x].len()
            invariant
                self.wf(), a == self.adj_view(), x < self.n, k <= a[x as int].len(),
                forall|j: int| 0 <= j < k ==> (#[trigger] a[x as int][j]).0 != y,
            decreases a[x as int].len() - k,
        {
            if self.adj[x][k].0 == y {
                assert(a[x as int][k as int].0 as int == y as int);
                return true;
            }
            k += 1;
        }
        false
    }

    /// For every vertex, the vertices joined to it by an entry in either direction.
    fn neighbour_lists(&self) -> (r: Vec<Vec<usize>>)
        requires
            self.wf(),
        ensures
            r@.len() == self.n,
            forall|x: int, j: int| 0 <= x < r@.len() && 0 <= j < r@[x]@.len() ==> (#[trigger] r@[x]@[j]) < r@.len(),
            list_step(views(r@)) == either_arc(self.adj_view()),
    {
        let ghost a = self.adj_view();
        let n = self.n;
        let mut r: Vec<Vec<usize>> = Vec::new();
        let mut x: usize = 0;
        while x < n
            invariant
                self.wf(), a == self.adj_view(), n == self.n, x <= n, r@.len() == x,
                forall|u: int, j: int| 0 <= u < x && 0 <= j < r@[u]@.len() ==> (#[trigger] r@[u]@[j]) < n,
                forall|u: int, y: int| 0 <= u < x ==> (#[trigger] r@[u]@.contains(y as usize) && 0 <= y < n
                    <==> 0 <= y < n && either_arc(a)(u, y)),
            decreases n - x,
        {
            let mut list: Vec<usize> = Vec::new();
            let mut y: usize = 0;
            while y < n
                invariant
                    self.wf(), a == self.adj_view(), n == self.n, x < n, y <= n,
                    forall|j: int| 0 <= j < list@.len() ==> (#[trigger] list@[j]) < y,
                    forall|z: int| 0 <= z < n ==> (#[trigger] list@.contains(z as usize) <==> z < y && either_arc(a)(x as int, z)),
                decreases n - y,
            {
                let f = self.has_arc(x, y);
                let b = self.has_arc(y, x);
                if f || b {
                    let ghost l0 = list@;
                    list.push(y);
                    proof {
                        assert forall|z: int| 0 <= z < n implies (#[trigger] list@.contains(z as usize) <==> z < y + 1 && either_arc(a)(x as int, z)) by {
                            if z == y {
                                assert(list@[l0.len() as int] == y);
                                assert(either_arc(a)(x as int, y as int));
                            }
                            if list@.contains(z as usize) && z != y {
                                let j = choose|j: int| 0 <= j < list@.len() && list@[j] == z as usize;
                                assert(j < l0.len());
                                assert(l0[j] == z as usize);
                                assert(l0.contains(z as usize));
                            }
                            if z < y && either_arc(a)(x as int, z) {
                                assert(l0.contains(z as usize));
                                let j = choose|j: int| 0 <= j < l0.len() && l0[j] == z as usize;
                                assert(list@[j] == z as usize);
                            }
                        }
                    }
                }
                y += 1;
            }
            let ghost r0 = r@;
            r.push(list);
            proof {
                assert forall|u: int, j: int| 0 <= u < x + 1 && 0 <= j < r@[u]@.len() implies (#[trigger] r@[u]@[j]) < n by {
                    if u < x { assert(r@[u] == r0[u]); }
                }
                assert forall|u: int, y: int| 0 <= u < x + 1 implies (#[trigger] r@[u]@.contains(y as usize) && 0 <= y < n
                    <==> 0 <= y < n && either_arc(a)(u, y)) by {
                    if u < x { assert(r@[u] == r0[u]); }
                }
            }
            x += 1;
        }
        proof {
            let nb = views(r@);
            assert forall|x: int, y: int| #[trigger] list_step(nb)(x, y) == either_arc(a)(x, y) by {
                if list_step(nb)(x, y) {
                    let j = choose|j: int| 0 <= j < nb[x].len() && nb[x][j] as int == y;
                    assert(r@[x]@[j] < n);
                    assert(r@[x]@.contains(y as usize));
                }
                if either_arc(a)(x, y) {
                    if arc(a)(x, y) {
                        let k = choose|k: int| 0 <= k < a[x].len() && a[x][k].0 as int == y;
                        assert(a[x][k].0 < n);
                    } else {
                        let k = choose|k: int| 0 <= k < a[y].len() && a[y][k].0 as int == x;
                        assert(a[y][k].0 < n);
                    }
                    assert(0 <= x < n && 0 <= y < n);
                    assert(r@[x]@.contains(y as usize));
                    let j = choose|j: int| 0 <= j < r@[x]@.len() && r@[x]@[j] == y as usize;
                    assert(nb[x][j] as int == y);
                }
            }
            assert(list_step(nb) =~= either_arc(a));
        }
        r
    }

    /// The weak components: the classes of vertices joined when edge
    /// directions are ignored, each in increasing order, ordered by their
    /// least vertex.
    pub fn weakly_connected_components(&self) -> (r: Vec<Vec<usize>>)
        requires
            self.wf(),
        ensures
            is_weak_decomposition(self, views(r@)),
    {
        let nb = self.neighbour_lists();
        let m = reach_matrix(&nb);
        proof {
            lemma_weak_equivalence(self.adj_view(), self.n as int);
            assert forall|u: int, x: int| 0 <= u < m@.len() && 0 <= x < m@.len() implies
                m@[u]@[x] == weakly_related(self.adj_view())(u, x) by {}
        }
        group_by(&m, Ghost(weakly_related(self.adj_view())))
    }

    /// The strong components: the classes of vertices that reach each other
    /// along edges, each in increasing order, ordered by their least vertex.
    /// In an undirected graph they are the weak components.
    pub fn strongly_connected_components(&self) -> (r: Vec<Vec<usize>>)
        requires
            self.wf(),
        ensures
            is_strong_decomposition(self, views(r@)),
    {
        if !self.directed {
            let r = self.weakly_connected_components();
            proof { lemma_undirected_strong_is_weak(self); }
            return r;
        }
        let nb = self.target_lists();
        let m = reach_matrix(&nb);
        let n = self.n;
        let ghost rel = strongly_related(self.adj_view());
        let mut mat: Vec<Vec<bool>> = Vec::new();
        let mut u: usize = 0;
        while u < n
            invariant
                n == self.n, n == m@.len(), u <= n, mat@.len() == u,
                rel == strongly_related(self.adj_view()),
                forall|k: int| 0 <= k < n ==> (#[trigger] m@[k])@.len() == n,
                forall|k: int, x: int| 0 <= k < n && 0 <= x < n ==> m@[k]@[x] == connects(arc(self.adj_view()), k, x),
                forall|k: int| 0 <= k < u ==> (#[trigger] mat@[k])@.len() == n,
                forall|k: int, x: int| 0 <= k < u && 0 <= x < n ==> mat@[k]@[x] == rel(k, x),
            decreases n - u,
        {
            let mut row: Vec<bool> = Vec::new();
            let mut x: usize = 0;
            while x < n
                invariant
                    n == self.n, n == m@.len(), u < n, x <= n, row@.len() == x,
                    rel == strongly_related(self.adj_view()),
                    forall|k: int| 0 <= k < n ==> (#[trigger] m@[k])@.len() == n,
                    forall|k: int, x: int| 0 <= k < n && 0 <= x < n ==> m@[k]@[x] == connects(arc(self.adj_view()), k, x),
                    forall|j: int| 0 <= j < x ==> row@[j] == rel(u as int, j),
                decreases n - x,
            {
                row.push(m[u][x] && m[x][u]);
                x += 1;
            }
            mat.push(row);
            u += 1;
        }
        proof { lemma_strong_equivalence(self.adj_view(), n as int); }
        group_by(&mat, Ghost(rel))
    }
}

/// The weak components partition the vertices: none is empty, each holds
/// only vertices, every vertex lies in one of them and in no two.
pub proof fn lemma_weak_components_partition(g: &Graph, comps: Seq<Seq<usize>>)
    requires
        is_weak_decomposition(g, comps),
    ensures
        forall|c: int| 0 <= c < comps.len() ==> (#[trigger] comps[c]).len() > 0,
        forall|c: int, i: int| 0 <= c < comps.len() && 0 <= i < comps[c].len() ==> (#[trigger] comps[c][i]) < g.n,
        forall|x: int| 0 <= x < g.n ==> #[trigger] covered(comps, x),
        forall|c1: int, c2: int, x: usize| 0 <= c1 < comps.len() && 0 <= c2 < comps.len()
            && #[trigger] comps[c1].contains(x) && #[trigger] comps[c2].contains(x) ==> c1 == c2,
{
    lemma_weak_equivalence(g.adj_view(), g.n as int);
    lemma_grouping_partition(weakly_related(g.adj_view()), g.n as int, comps);
}

/// In an undirected graph a decomposition is the partition into strong
/// components exactly when it is the partition into weak components.
pub proof fn lemma_undirected_components_agree(g: &Graph, comps: Seq<Seq<usize>>)
    requires
        g.wf(),
        !g.directed,
    ensures
        is_strong_decomposition(g, comps) == is_weak_decomposition(g, comps),
{
    lemma_undirected_strong_is_weak(g);
}

} // verus!
