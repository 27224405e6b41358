//! Eccentricity, diameter, radius, center and periphery from a distance table.
use vstd::prelude::*;
use crate::report::GraphResults;
use crate::walks::increasing;

verus! {

/// The larger of two lengths, `None` being infinite.
pub open spec fn ext_max(a: Option<u64>, b: Option<u64>) -> Option<u64> {
    match (a, b) {
        (Some(x), Some(y)) => Some(if x >= y { x } else { y }),
        _ => None,
    }
}

/// The smaller of two lengths, `None` being infinite.
pub open spec fn ext_min(a: Option<u64>, b: Option<u64>) -> Option<u64> {
    match (a, b) {
        (None, _) => b,
        (_, None) => a,
        (Some(x), Some(y)) => Some(if x <= y { x } else { y }),
    }
}

/// The largest of 0 and the distances in `row` to the vertices below `m`
/// other than `u`; infinite when one of them is.
pub open spec fn ecc_upto(row: Seq<Option<u64>>, u: int, m: int) -> Option<u64>
    decreases m,
{
    if m <= 0 {
        Some(0)
    } else if m - 1 == u {
        ecc_upto(row, u, m - 1)
    } else {
        ext_max(ecc_upto(row, u, m - 1), row[m - 1])
    }
}

/// The greatest distance from `u` to another vertex.
pub open spec fn eccentricity(d: Seq<Seq<Option<u64>>>, u: int) -> Option<u64> {
    ecc_upto(d[u], u, d.len() as int)
}

pub open spec fn diameter_upto(d: Seq<Seq<Option<u64>>>, m: int) -> Option<u64>
    decreases m,
{
    if m <= 0 {
        Some(0)
    } else {
        ext_max(diameter_upto(d, m - 1), eccentricity(d, m - 1))
    }
}

pub open spec fn radius_upto(d: Seq<Seq<Option<u64>>>, m: int) -> Option<u64>
    decreases m,
{
    if m <= 0 {
        None
    } else {
        ext_min(radius_upto(d, m - 1), eccentricity(d, m - 1))
    }
}

/// The greatest eccentricity, 0 without vertices.
pub open spec fn diameter(d: Seq<Seq<Option<u64>>>) -> Option<u64> {
    diameter_upto(d, d.len() as int)
}

/// The least eccentricity, infinite without vertices.
pub open spec fn radius(d: Seq<Seq<Option<u64>>>) -> Option<u64> {
    radius_upto(d, d.len() as int)
}

pub open spec fn table_view(d: Seq<Vec<Option<u64>>>) -> Seq<Seq<Option<u64>>> {
    d.map_values(|r: Vec<Option<u64>>| r@)
}

/// Every row is as long as the table.
pub open spec fn square(d: Seq<Vec<Option<u64>>>) -> bool {
    forall|u: int| 0 <= u < d.len() ==> (#[trigger] d[u])@.len() == d.len()
}

/// `r` lists, in increasing order, the vertices whose eccentricity is `value`.
pub open spec fn selects(d: Seq<Seq<Option<u64>>>, r: Seq<usize>, value: Option<u64>) -> bool {
    &&& increasing(r)
    &&& forall|i: int| 0 <= i < r.len() ==> (#[trigger] r[i]) < d.len() && eccentricity(d, r[i] as int) == value
    &&& forall|u: int| 0 <= u < d.len() && #[trigger] eccentricity(d, u) == value ==> r.contains(u as usize)
}

/// `m` summarises the distance table `d`.
pub open spec fn describes(m: GraphMetrics, d: Seq<Seq<Option<u64>>>) -> bool {
    &&& m.diameter == diameter(d)
    &&& m.radius == radius(d)
    &&& selects(d, m.centers@, radius(d))
    &&& selects(d, m.periphery@, diameter(d))
}

/// A summary of the distance table of an undirected graph; `None` stands for
/// an infinite value.
#[derive(Debug)]
pub struct GraphMetrics {
    pub diameter: Option<u64>,
    pub radius: Option<u64>,
    pub centers: Vec<usize>,
    pub periphery: Vec<usize>,
}

fn max_length(a: Option<u64>, b: Option<u64>) -> (r: Option<u64>)
    ensures
        r == ext_max(a, b),
{
    match (a, b) {
        (Some(x), Some(y)) => Some(if x >= y { x } else { y }),
        _ => None,
    }
}

fn min_length(a: Option<u64>, b: Option<u64>) -> (r: Option<u64>)
    ensures
        r == ext_min(a, b),
{
    match (a, b) {
        (None, _) => b,
        (_, None) => a,
        (Some(x), Some(y)) => Some(if x <= y { x } else { y }),
    }
}

/// The eccentricity of every vertex.
pub fn eccentricities(distances: &Vec<Vec<Option<u64>>>) -> (r: Vec<Option<u64>>)
    requires
        square(distances@),
    ensures
        r@.len() == distances@.len(),
        forall|u: int| 0 <= u < r@.len() ==> r@[u] == eccentricity(table_view(distances@), u),
{
    let ghost d = table_view(distances@);
    let n = distances.len();
    let mut r: Vec<Option<u64>> = Vec::new();
    let mut u: usize = 0;
    while u < n
        invariant
            d == table_view(distances@), n == distances@.len(), square(distances@), u <= n, r@.len() == u,
            forall|x: int| 0 <= x < u ==> r@[x] == eccentricity(d, x),
        decreases n - u,
    {
        let mut e: Option<u64> = Some(0);
        let mut v: usize = 0;
        assert(distances@[u as int]@.len() == n);
        while v < n
            invariant
                d == table_view(distances@), n == distances@.len(), u < n, v <= n,
                distances@[u as int]@.len() == n,
                e == ecc_upto(d[u as int], u as int, v as int),
            decreases n - v,
        {
            if v != u {
                e = max_length(e, distances[u][v]);
            }
            v += 1;
        }
        r.push(e);
        u += 1;
    }
    r
}

/// The vertices whose eccentricity is `value`, in increasing order.
pub fn filter_vertices_by_value(eccentricities: &Vec<Option<u64>>, value: Option<u64>) -> (r: Vec<usize>)
    ensures
        increasing(r@),
        forall|i: int| 0 <= i < r@.len() ==> (#[trigger] r@[i]) < eccentricities@.len() && eccentricities@[r@[i] as int] == value,
        forall|u: int| 0 <= u < eccentricities@.len() && #[trigger] eccentricities@[u] == value ==> r@.contains(u as usize),
{
    let mut r: Vec<usize> = Vec::new();
    let mut u: usize = 0;
    while u < eccentricities.len()
        invariant
            u <= eccentricities@.len(),
            increasing(r@),
            forall|i: int| 0 <= i < r@.len() ==> (#[trigger] r@[i]) < u && eccentricities@[r@[i] as int] == value,
            forall|x: int| 0 <= x < u && #[trigger] eccentricities@[x] == value ==> r@.contains(x as usize),
        decreases eccentricities@.len() - u,
    {
        if eccentricities[u] == value {
            let ghost r0 = r@;
            r.push(u);
            proof {
                assert(r@[r0.len() as int] == u);
                assert forall|x: int| 0 <= x < u + 1 && #[trigger] eccentricities@[x] == value implies r@.contains(x as usize) by {
                    if x < u {
                        assert(r0.contains(x as usize));
                        let i = choose|i: int| 0 <= i < r0.len() && r0[i] == x as usize;
                        assert(r@[i] == x as usize);
                    }
                }
            }
        }
        u += 1;
    }
    r
}

/// Diameter, radius, center and periphery of a distance table.
pub fn graph_metrics(distances: &Vec<Vec<Option<u64>>>) -> (r: GraphMetrics)
    requires
        square(distances@),
    ensures
        describes(r, table_view(distances@)),
{
    let ghost d = table_view(distances@);
    let ecc = eccentricities(distances);
    let n = ecc.len();
    let mut diameter: Option<u64> = Some(0);
    let mut radius: Option<u64> = None;
    let mut u: usize = 0;
    while u < n
        invariant
            d == table_view(distances@), n == ecc@.len(), n == d.len(), u <= n,
            forall|x: int| 0 <= x < n ==> ecc@[x] == eccentricity(d, x),
            diameter == diameter_upto(d, u as int),
            radius == radius_upto(d, u as int),
        decreases n - u,
    {
        diameter = max_length(diameter, ecc[u]);
        radius = min_length(radius, ecc[u]);
        u += 1;
    }
    let centers = filter_vertices_by_value(&ecc, radius);
    let periphery = filter_vertices_by_value(&ecc, diameter);
    GraphMetrics { diameter, radius, centers, periphery }
}

impl GraphResults {
    /// Fills in the metrics of an undirected graph from its distance table;
    /// a directed graph gets none.
    pub fn compute_graph_metrics(&mut self)
        requires
            square(old(self).distances@),
        ensures
            final(self).directed == old(self).directed,
            final(self).deg_in == old(self).deg_in,
            final(self).deg_out == old(self).deg_out,
            final(self).weak_components == old(self).weak_components,
            final(self).strong_components == old(self).strong_components,
            final(self).selected_pairs == old(self).selected_pairs,
            final(self).distances == old(self).distances,
            final(self).paths == old(self).paths,
            old(self).directed ==> final(self).metrics is None,
            !old(self).directed ==> final(self).metrics is Some
                && describes(final(self).metrics.unwrap(), table_view(old(self).distances@)),
    {
        if self.directed {
            self.metrics = None;
        } else {
            self.metrics = Some(graph_metrics(&self.distances));
        }
    }
}

proof fn lemma_ecc_upto_infinite(row: Seq<Option<u64>>, u: int, m: int, v: int)
    requires
        0 <= v < m,
        v != u,
        row[v] is None,
    ensures
        ecc_upto(row, u, m) is None,
    decreases m,
{
    if m - 1 != v {
        lemma_ecc_upto_infinite(row, u, m - 1, v);
    }
}

proof fn lemma_diameter_upto_infinite(d: Seq<Seq<Option<u64>>>, m: int, k: int)
    requires
        0 <= k < m,
        eccentricity(d, k) is None,
    ensures
        diameter_upto(d, m) is None,
    decreases m,
{
    if m - 1 != k {
        lemma_diameter_upto_infinite(d, m - 1, k);
    }
}

/// A vertex at infinite distance from another has infinite eccentricity; the
/// diameter is then infinite and the vertex lies in the periphery.
pub proof fn lemma_unreachable_periphery(m: GraphMetrics, d: Seq<Seq<Option<u64>>>, k: int, v: int)
    requires
        describes(m, d),
        0 <= k < d.len(),
        0 <= v < d.len(),
        v != k,
        d[k].len() == d.len(),
        d[k][v] is None,
    ensures
        eccentricity(d, k) is None,
        m.diameter is None,
        m.periphery@.contains(k as usize),
{
    lemma_ecc_upto_infinite(d[k], k, d.len() as int, v);
    lemma_diameter_upto_infinite(d, d.len() as int, k);
    assert(eccentricity(d, k) == diameter(d));
}

} // verus!
