//! Walks along a step relation, reachability by breadth-first search, and
//! grouping of vertices by the least vertex they are related to.
use vstd::prelude::*;

verus! {

/// `p` is a non-empty sequence of vertices, each step allowed by `step`.
pub open spec fn is_walk(step: spec_fn(int, int) -> bool, p: Seq<int>) -> bool {
    p.len() >= 1 && forall|i: int| 0 <= i < p.len() - 1 ==> #[trigger] step(p[i], p[i + 1])
}

/// Some walk leads from `s` to `t`.
pub open spec fn connects(step: spec_fn(int, int) -> bool, s: int, t: int) -> bool {
    exists|p: Seq<int>| is_walk(step, p) && p[0] == s && p.last() == t
}

/// Steps along neighbour lists.
pub open spec fn list_step(nb: Seq<Seq<usize>>) -> spec_fn(int, int) -> bool {
    |x: int, y: int| 0 <= x < nb.len() && exists|j: int| 0 <= j < nb[x].len() && nb[x][j] as int == y
}

pub proof fn lemma_walk_refl(step: spec_fn(int, int) -> bool, s: int)
    ensures
        connects(step, s, s),
{
    let p = seq![s];
    assert(is_walk(step, p));
    assert(p[0] == s && p.last() == s);
}

pub proof fn lemma_walk_extend(step: spec_fn(int, int) -> bool, s: int, t: int, u: int)
    requires
        connects(step, s, t),
        step(t, u),
    ensures
        connects(step, s, u),
{
    let p = choose|p: Seq<int>| is_walk(step, p) && p[0] == s && p.last() == t;
    let q = p.push(u);
    assert forall|i: int| 0 <= i < q.len() - 1 implies #[trigger] step(q[i], q[i + 1]) by {
        if i < p.len() - 1 {
            assert(step(p[i], p[i + 1]));
        }
    }
    assert(is_walk(step, q));
    assert(q[0] == s && q.last() == u);
}

pub proof fn lemma_walk_trans(step: spec_fn(int, int) -> bool, s: int, t: int, u: int)
    requires
        connects(step, s, t),
        connects(step, t, u),
    ensures
        connects(step, s, u),
{
    let q = choose|q: Seq<int>| is_walk(step, q) && q[0] == t && q.last() == u;
    lemma_walk_trans_along(step, s, q);
}

proof fn lemma_walk_trans_along(step: spec_fn(int, int) -> bool, s: int, q: Seq<int>)
    requires
        is_walk(step, q),
        connects(step, s, q[0]),
    ensures
        connects(step, s, q.last()),
    decreases q.len(),
{
    if q.len() > 1 {
        let r = q.drop_last();
        assert forall|i: int| 0 <= i < r.len() - 1 implies #[trigger] step(r[i], r[i + 1]) by {
            assert(step(q[i], q[i + 1]));
        }
        lemma_walk_trans_along(step, s, r);
        let i = q.len() - 2;
        assert(step(q[i], q[i + 1]));
        assert(r.last() == q[i]);
        lemma_walk_extend(step, s, r.last(), q.last());
    }
}

/// With a symmetric step relation, a walk can be taken backwards.
pub proof fn lemma_walk_sym(step: spec_fn(int, int) -> bool, s: int, t: int)
    requires
        connects(step, s, t),
        forall|x: int, y: int| #[trigger] step(x, y) ==> step(y, x),
    ensures
        connects(step, t, s),
{
    let p = choose|p: Seq<int>| is_walk(step, p) && p[0] == s && p.last() == t;
    let q = p.reverse();
    assert forall|i: int| 0 <= i < q.len() - 1 implies #[trigger] step(q[i], q[i + 1]) by {
        let j = p.len() - 2 - i;
        assert(step(p[j], p[j + 1]));
        assert(q[i] == p[j + 1]);
        assert(q[i + 1] == p[j]);
    }
    assert(is_walk(step, q));
    assert(q[0] == t && q.last() == s);
}

/// A set of vertices that holds `p[0]` and is closed under steps holds the
/// whole walk.
proof fn lemma_closed_holds_walk(nb: Seq<Seq<usize>>, vis: Seq<bool>, p: Seq<int>)
    requires
        is_walk(list_step(nb), p),
        vis.len() == nb.len(),
        0 <= p[0] < vis.len(),
        vis[p[0]],
        forall|x: int, j: int| 0 <= x < nb.len() && vis[x] && 0 <= j < nb[x].len() ==>
            (#[trigger] nb[x][j]) < vis.len() && vis[nb[x][j] as int],
    ensures
        0 <= p.last() < vis.len() && vis[p.last()],
    decreases p.len(),
{
    if p.len() > 1 {
        let r = p.drop_last();
        assert forall|i: int| 0 <= i < r.len() - 1 implies #[trigger] list_step(nb)(r[i], r[i + 1]) by {
            assert(list_step(nb)(p[i], p[i + 1]));
        }
        lemma_closed_holds_walk(nb, vis, r);
        let i = p.len() - 2;
        let x = p[i];
        assert(list_step(nb)(p[i], p[i + 1]));
        assert(r.last() == x);
        let j = choose|j: int| 0 <= j < nb[x].len() && nb[x][j] as int == p.last();
        assert(vis[nb[x][j] as int]);
    }
}

/// Number of `true` entries.
pub open spec fn count_true(s: Seq<bool>) -> nat
    decreases s.len(),
{
    if s.len() == 0 {
        0
    } else {
        count_true(s.drop_last()) + if s.last() { 1nat } else { 0nat }
    }
}

pub proof fn lemma_count_true_le(s: Seq<bool>)
    ensures
        count_true(s) <= s.len(),
    decreases s.len(),
{
    if s.len() > 0 {
        lemma_count_true_le(s.drop_last());
    }
}

pub proof fn lemma_count_true_set(s: Seq<bool>, i: int)
    requires
        0 <= i < s.len(),
        !s[i],
    ensures
        count_true(s.update(i, true)) == count_true(s) + 1,
    decreases s.len(),
{
    let t = s.update(i, true);
    if i < s.len() - 1 {
        assert(t.drop_last() =~= s.drop_last().update(i, true));
        lemma_count_true_set(s.drop_last(), i);
    } else {
        assert(t.drop_last() =~= s.drop_last());
    }
}

/// Whether each vertex can be reached from `s` along the neighbour lists.
pub fn reachable_from(nb: &Vec<Vec<usize>>, s: usize) -> (r: Vec<bool>)
    requires
        s < nb@.len(),
        forall|x: int, j: int| 0 <= x < nb@.len() && 0 <= j < nb@[x]@.len() ==> (#[trigger] nb@[x]@[j]) < nb@.len(),
    ensures
        r@.len() == nb@.len(),
        forall|t: int| 0 <= t < nb@.len() ==> r@[t] == connects(list_step(nb@.map_values(|l: Vec<usize>| l@)), s as int, t),
{
    let ghost g = nb@.map_values(|l: Vec<usize>| l@);
    let ghost step = list_step(g);
    let n = nb.len();
    let mut visited: Vec<bool> = Vec::new();
    let mut i: usize = 0;
    while i < n
        invariant
            i <= n, visited@.len() == i, forall|k: int| 0 <= k < i ==> !visited@[k],
        decreases n - i,
    {
        visited.push(false);
        i += 1;
    }
    proof {
        assert(count_true(visited@) == 0) by {
            lemma_count_true_zero(visited@);
        }
        lemma_walk_refl(step, s as int);
        lemma_count_true_set(visited@, s as int);
    }
    visited.set(s, true);
    let mut queue: Vec<usize> = Vec::new();
    queue.push(s);
    assert(queue@[0] == s);
    let mut head: usize = 0;
    while head < queue.len()
        invariant
            n == nb@.len(), g == nb@.map_values(|l: Vec<usize>| l@), step == list_step(g),
            forall|x: int, j: int| 0 <= x < nb@.len() && 0 <= j < nb@[x]@.len() ==> (#[trigger] nb@[x]@[j]) < nb@.len(),
            visited@.len() == n,
            s < n, visited@[s as int],
            head <= queue@.len(),
            queue@.len() == count_true(visited@),
            forall|k: int| 0 <= k < queue@.len() ==> (#[trigger] queue@[k]) < n && visited@[queue@[k] as int],
            forall|v: int| 0 <= v < n && visited@[v] ==> queue@.contains(v as usize),
            forall|v: int| 0 <= v < n && visited@[v] ==> connects(step, s as int, v),
            forall|k: int, j: int| 0 <= k < head && 0 <= j < g[queue@[k] as int].len() ==>
                visited@[(#[trigger] g[queue@[k] as int][j]) as int],
        decreases n - head,
    {
        proof { lemma_count_true_le(visited@); }
        let x = queue[head];
        let m = nb[x].len();
        let mut j: usize = 0;
        while j < m
            invariant
                n == nb@.len(), g == nb@.map_values(|l: Vec<usize>| l@), step == list_step(g),
                forall|x: int, j: int| 0 <= x < nb@.len() && 0 <= j < nb@[x]@.len() ==> (#[trigger] nb@[x]@[j]) < nb@.len(),
                visited@.len() == n,
                s < n, visited@[s as int],
                head < queue@.len(), x == queue@[head as int], m == g[x as int].len(), j <= m,
                queue@.len() == count_true(visited@),
                forall|k: int| 0 <= k < queue@.len() ==> (#[trigger] queue@[k]) < n && visited@[queue@[k] as int],
                forall|v: int| 0 <= v < n && visited@[v] ==> queue@.contains(v as usize),
                forall|v: int| 0 <= v < n && visited@[v] ==> connects(step, s as int, v),
                forall|k: int, i: int| 0 <= k < head && 0 <= i < g[queue@[k] as int].len() ==>
                    visited@[(#[trigger] g[queue@[k] as int][i]) as int],
                forall|i: int| 0 <= i < j ==> visited@[(#[trigger] g[x as int][i]) as int],
            decreases m - j,
        {
            let y = nb[x][j];
            assert(g[x as int][j as int] == y);
            if !visited[y] {
                proof {
                    assert(g[x as int][j as int] as int == y as int);
                    assert(step(x as int, y as int));
                    lemma_walk_extend(step, s as int, x as int, y as int);
                    lemma_count_true_set(visited@, y as int);
                }
                let ghost q0 = queue@;
                visited.set(y, true);
                queue.push(y);
                proof {
                    assert forall|v: int| 0 <= v < n && visited@[v] implies queue@.contains(v as usize) by {
                        if v != y {
                            let k = choose|k: int| 0 <= k < q0.len() && q0[k] == v as usize;
                            assert(queue@[k] == v as usize);
                        } else {
                            assert(queue@[q0.len() as int] == y);
                        }
                    }
                    assert forall|k: int, i: int| 0 <= k < head && 0 <= i < g[queue@[k] as int].len() implies
                        visited@[(#[trigger] g[queue@[k] as int][i]) as int] by {
                        assert(queue@[k] == q0[k]);
                    }
                }
            }
            j += 1;
        }
        head += 1;
    }
    proof {
        assert forall|t: int| 0 <= t < n implies visited@[t] == connects(step, s as int, t) by {
            if connects(step, s as int, t) {
                let p = choose|p: Seq<int>| is_walk(step, p) && p[0] == s && p.last() == t;
                assert forall|x: int, j: int| 0 <= x < g.len() && visited@[x] && 0 <= j < g[x].len() implies
                    (#[trigger] g[x][j]) < visited@.len() && visited@[g[x][j] as int] by {
                    assert(queue@.contains(x as usize));
                    let k = choose|k: int| 0 <= k < queue@.len() && queue@[k] == x as usize;
                    assert(g[queue@[k] as int][j] == g[x][j]);
                    assert(nb@[x]@[j] == g[x][j]);
                }
                lemma_closed_holds_walk(g, visited@, p);
            }
        }
    }
    visited
}

pub proof fn lemma_count_true_zero(s: Seq<bool>)
    requires
        forall|k: int| 0 <= k < s.len() ==> !s[k],
    ensures
        count_true(s) == 0,
    decreases s.len(),
{
    if s.len() > 0 {
        lemma_count_true_zero(s.drop_last());
    }
}

/// `rel` is reflexive, symmetric and transitive on `0..n`.
pub open spec fn equivalence_on(rel: spec_fn(int, int) -> bool, n: int) -> bool {
    &&& forall|x: int| 0 <= x < n ==> #[trigger] rel(x, x)
    &&& forall|x: int, y: int| 0 <= x < n && 0 <= y < n && #[trigger] rel(x, y) ==> rel(y, x)
    &&& forall|x: int, y: int, z: int| 0 <= x < n && 0 <= y < n && 0 <= z < n
        && #[trigger] rel(x, y) && #[trigger] rel(y, z) ==> rel(x, z)
}

/// The least `w` in `u..v` related to `v`, or `v` itself.
pub open spec fn least_related(rel: spec_fn(int, int) -> bool, v: int, u: int) -> int
    decreases v - u,
{
    if u >= v {
        v
    } else if rel(u, v) {
        u
    } else {
        least_related(rel, v, u + 1)
    }
}

/// The least vertex related to `v`: the representative of its class.
pub open spec fn leader(rel: spec_fn(int, int) -> bool, v: int) -> int {
    least_related(rel, v, 0)
}

proof fn lemma_least_related(rel: spec_fn(int, int) -> bool, v: int, u: int)
    requires
        0 <= u <= v,
        rel(v, v),
    ensures
        u <= least_related(rel, v, u) <= v,
        rel(least_related(rel, v, u), v),
        forall|w: int| u <= w < least_related(rel, v, u) ==> !#[trigger] rel(w, v),
    decreases v - u,
{
    if u < v && !rel(u, v) {
        lemma_least_related(rel, v, u + 1);
    }
}

/// The representative of a vertex's class is related to it, is the least
/// vertex that is, and represents itself.
pub proof fn lemma_leader(rel: spec_fn(int, int) -> bool, n: int, v: int)
    requires
        equivalence_on(rel, n),
        0 <= v < n,
    ensures
        0 <= leader(rel, v) <= v,
        rel(leader(rel, v), v),
        forall|w: int| 0 <= w < n && #[trigger] rel(w, v) ==> leader(rel, v) <= w,
        leader(rel, leader(rel, v)) == leader(rel, v),
{
    assert(rel(v, v));
    lemma_least_related(rel, v, 0);
    let l = leader(rel, v);
    assert(rel(l, l));
    lemma_least_related(rel, l, 0);
    let ll = leader(rel, l);
    assert(rel(ll, v));
}

/// Related vertices have the same representative.
pub proof fn lemma_leader_same(rel: spec_fn(int, int) -> bool, n: int, u: int, v: int)
    requires
        equivalence_on(rel, n),
        0 <= u < n,
        0 <= v < n,
        rel(u, v),
    ensures
        leader(rel, u) == leader(rel, v),
{
    lemma_leader(rel, n, u);
    lemma_leader(rel, n, v);
    let lu = leader(rel, u);
    let lv = leader(rel, v);
    assert(rel(lu, v));
    assert(rel(v, u));
    assert(rel(lv, u));
}

/// Strictly increasing order.
pub open spec fn increasing(s: Seq<usize>) -> bool {
    forall|i: int, j: int| 0 <= i < j < s.len() ==> s[i] < s[j]
}

/// `comp` lists, in increasing order, exactly the vertices below `n` whose
/// representative is its first element, which represents itself.
pub open spec fn is_group(rel: spec_fn(int, int) -> bool, n: int, comp: Seq<usize>) -> bool {
    &&& comp.len() > 0
    &&& increasing(comp)
    &&& leader(rel, comp[0] as int) == comp[0] as int
    &&& forall|i: int| 0 <= i < comp.len() ==> (#[trigger] comp[i]) < n
    &&& forall|x: int| 0 <= x < n ==> (comp.contains(x as usize) <==> #[trigger] leader(rel, x) == comp[0] as int)
}

/// Some group starts with `x`.
pub open spec fn has_group(comps: Seq<Seq<usize>>, x: int) -> bool {
    exists|c: int| 0 <= c < comps.len() && comps[c][0] as int == x
}

/// The classes of `rel` on `0..n`, each in increasing order, ordered by
/// their least element.
pub open spec fn is_grouping(rel: spec_fn(int, int) -> bool, n: int, comps: Seq<Seq<usize>>) -> bool {
    &&& forall|c: int| 0 <= c < comps.len() ==> #[trigger] is_group(rel, n, comps[c])
    &&& forall|c1: int, c2: int| 0 <= c1 < c2 < comps.len() ==> (#[trigger] comps[c1])[0] < (#[trigger] comps[c2])[0]
    &&& forall|x: int| 0 <= x < n && leader(rel, x) == x ==> #[trigger] has_group(comps, x)
}

pub open spec fn views(v: Seq<Vec<usize>>) -> Seq<Seq<usize>> {
    v.map_values(|c: Vec<usize>| c@)
}

/// Groups the vertices `0..n` by the least vertex they are related to, where
/// `mat[u][x]` tells whether `u` and `x` are related.
pub fn group_by(mat: &Vec<Vec<bool>>, Ghost(rel): Ghost<spec_fn(int, int) -> bool>) -> (r: Vec<Vec<usize>>)
    requires
        forall|u: int| 0 <= u < mat@.len() ==> (#[trigger] mat@[u])@.len() == mat@.len(),
        forall|u: int, x: int| 0 <= u < mat@.len() && 0 <= x < mat@.len() ==> mat@[u]@[x] == rel(u, x),
        equivalence_on(rel, mat@.len() as int),
    ensures
        is_grouping(rel, mat@.len() as int, views(r@)),
{
    let n = mat.len();
    let mut assigned: Vec<bool> = Vec::new();
    let mut i: usize = 0;
    while i < n
        invariant
            i <= n, assigned@.len() == i, forall|k: int| 0 <= k < i ==> !assigned@[k],
        decreases n - i,
    {
        assigned.push(false);
        i += 1;
    }
    let mut comps: Vec<Vec<usize>> = Vec::new();
    let mut v: usize = 0;
    assert forall|x: int| 0 <= x < n implies (assigned@[x] <==> #[trigger] leader(rel, x) < 0) by {
        lemma_leader(rel, n as int, x);
    }
    while v < n
        invariant
            n == mat@.len(),
            forall|u: int| 0 <= u < mat@.len() ==> (#[trigger] mat@[u])@.len() == mat@.len(),
            forall|u: int, x: int| 0 <= u < mat@.len() && 0 <= x < mat@.len() ==> mat@[u]@[x] == rel(u, x),
            equivalence_on(rel, n as int),
            v <= n,
            assigned@.len() == n,
            forall|x: int| 0 <= x < n ==> (assigned@[x] <==> #[trigger] leader(rel, x) < v),
            forall|c: int| 0 <= c < comps@.len() ==> #[trigger] is_group(rel, n as int, views(comps@)[c]),
            forall|c: int| 0 <= c < comps@.len() ==> (#[trigger] views(comps@)[c])[0] < v,
            forall|c1: int, c2: int| 0 <= c1 < c2 < comps@.len() ==> (#[trigger] views(comps@)[c1])[0] < (#[trigger] views(comps@)[c2])[0],
            forall|x: int| 0 <= x < v && leader(rel, x) == x ==> #[trigger] has_group(views(comps@), x),
        decreases n - v,
    {
        proof { lemma_leader(rel, n as int, v as int); }
        if !assigned[v] {
            assert(leader(rel, v as int) == v);
            let mut comp: Vec<usize> = Vec::new();
            let mut x: usize = 0;
            while x < n
                invariant
                    n == mat@.len(),
                    forall|u: int| 0 <= u < mat@.len() ==> (#[trigger] mat@[u])@.len() == mat@.len(),
                    forall|u: int, x: int| 0 <= u < mat@.len() && 0 <= x < mat@.len() ==> mat@[u]@[x] == rel(u, x),
                    equivalence_on(rel, n as int),
                    v < n, x <= n,
                    leader(rel, v as int) == v,
                    assigned@.len() == n,
                    forall|y: int| 0 <= y < n ==> (assigned@[y] <==> #[trigger] leader(rel, y) < v
                        || (y < x && leader(rel, y) == v)),
                    comp@.len() > 0 ==> comp@[0] == v,
                    increasing(comp@),
                    forall|i: int| 0 <= i < comp@.len() ==> (#[trigger] comp@[i]) < x,
                    forall|y: int| 0 <= y < n ==> (comp@.contains(y as usize) <==> y < x && #[trigger] leader(rel, y) == v),
                decreases n - x,
            {
                proof {
                    lemma_leader(rel, n as int, x as int);
                    if rel(v as int, x as int) {
                        lemma_leader_same(rel, n as int, v as int, x as int);
                    }
                    if leader(rel, x as int) == v {
                        assert(rel(v as int, x as int));
                    }
                }
                if mat[v][x] {
                    let ghost c0 = comp@;
                    comp.push(x);
                    assigned.set(x, true);
                    proof {
                        if c0.len() == 0 {
                            assert(x == v) by {
                                if x > v { assert(leader(rel, v as int) == v); assert(c0.contains(v)); }
                            }
                        }
                        assert forall|y: int| 0 <= y < n implies (comp@.contains(y as usize) <==> y < x + 1 && #[trigger] leader(rel, y) == v) by {
                            if y == x { assert(comp@[c0.len() as int] == x); }
                            if comp@.contains(y as usize) && y != x {
                                let i = choose|i: int| 0 <= i < comp@.len() && comp@[i] == y as usize;
                                assert(i < c0.len());
                                assert(c0.contains(y as usize));
                            }
                            if y < x && leader(rel, y) == v {
                                assert(c0.contains(y as usize));
                                let i = choose|i: int| 0 <= i < c0.len() && c0[i] == y as usize;
                                assert(comp@[i] == y as usize);
                            }
                        }
                    }
                }
                x += 1;
            }
            let ghost old_comps = views(comps@);
            proof {
                assert(comp@.contains(v));
                assert(comp@.len() > 0);
                assert(is_group(rel, n as int, comp@));
            }
            comps.push(comp);
            proof {
                let nc = views(comps@);
                assert(nc =~= old_comps.push(comp@));
                assert forall|c: int| 0 <= c < nc.len() implies #[trigger] is_group(rel, n as int, nc[c]) by {
                    if c < old_comps.len() { assert(nc[c] == old_comps[c]); }
                }
                assert forall|c: int| 0 <= c < nc.len() implies (#[trigger] nc[c])[0] < v + 1 by {
                    if c < old_comps.len() { assert(nc[c] == old_comps[c]); }
                }
                assert forall|c1: int, c2: int| 0 <= c1 < c2 < nc.len() implies (#[trigger] nc[c1])[0] < (#[trigger] nc[c2])[0] by {
                    assert(nc[c1] == old_comps[c1]);
                    if c2 < old_comps.len() { assert(nc[c2] == old_comps[c2]); }
                }
                assert forall|y: int| 0 <= y < v + 1 && leader(rel, y) == y implies #[trigger] has_group(nc, y) by {
                    if y < v {
                        assert(has_group(old_comps, y));
                        let c = choose|c: int| 0 <= c < old_comps.len() && old_comps[c][0] as int == y;
                        assert(nc[c] == old_comps[c]);
                    } else {
                        assert(nc[old_comps.len() as int][0] as int == y);
                    }
                }
            }
        } else {
            proof {
                assert(leader(rel, v as int) < v);
                assert forall|y: int| 0 <= y < n implies (assigned@[y] <==> #[trigger] leader(rel, y) < v + 1) by {
                    lemma_leader(rel, n as int, y as int);
                    if leader(rel, y) == v {
                        let l = leader(rel, y);
                        assert(leader(rel, l) == l);
                        assert(l == v);
                        assert(leader(rel, v as int) == v);
                    }
                }
            }
        }
        v += 1;
    }
    comps
}

/// Some group holds `x`.
pub open spec fn covered(comps: Seq<Seq<usize>>, x: int) -> bool {
    exists|c: int| 0 <= c < comps.len() && comps[c].contains(x as usize)
}

/// The groups form a partition of `0..n`: none is empty, they hold only
/// vertices, every vertex lies in one of them and in no two.
pub proof fn lemma_grouping_partition(rel: spec_fn(int, int) -> bool, n: int, comps: Seq<Seq<usize>>)
    requires
        equivalence_on(rel, n),
        is_grouping(rel, n, comps),
    ensures
        forall|c: int| 0 <= c < comps.len() ==> (#[trigger] comps[c]).len() > 0,
        forall|c: int, i: int| 0 <= c < comps.len() && 0 <= i < comps[c].len() ==> (#[trigger] comps[c][i]) < n,
        forall|x: int| 0 <= x < n ==> #[trigger] covered(comps, x),
        forall|c1: int, c2: int, x: usize| 0 <= c1 < comps.len() && 0 <= c2 < comps.len()
            && #[trigger] comps[c1].contains(x) && #[trigger] comps[c2].contains(x) ==> c1 == c2,
{
    assert forall|c: int, i: int| 0 <= c < comps.len() && 0 <= i < comps[c].len() implies (#[trigger] comps[c][i]) < n by {
        assert(is_group(rel, n, comps[c]));
    }
    assert forall|x: int| 0 <= x < n implies #[trigger] covered(comps, x) by {
        lemma_leader(rel, n, x);
        let l = leader(rel, x);
        assert(has_group(comps, l));
        let c = choose|c: int| 0 <= c < comps.len() && comps[c][0] as int == l;
        assert(is_group(rel, n, comps[c]));
    }
    assert forall|c1: int, c2: int, x: usize| 0 <= c1 < comps.len() && 0 <= c2 < comps.len()
        && #[trigger] comps[c1].contains(x) && #[trigger] comps[c2].contains(x) implies c1 == c2 by {
        assert(is_group(rel, n, comps[c1]));
        assert(is_group(rel, n, comps[c2]));
        let i = choose|i: int| 0 <= i < comps[c1].len() && comps[c1][i] == x;
        assert(x < n);
        assert(leader(rel, x as int) == comps[c1][0] as int);
        assert(leader(rel, x as int) == comps[c2][0] as int);
        if c1 < c2 {
            assert(comps[c1][0] < comps[c2][0]);
        } else if c2 < c1 {
            assert(comps[c2][0] < comps[c1][0]);
        }
    }
    assert forall|c: int| 0 <= c < comps.len() implies (#[trigger] comps[c]).len() > 0 by {
        assert(is_group(rel, n, comps[c]));
    }
}

} // verus!
