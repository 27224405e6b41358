//! Reading a graph from its three text encodings: an edge list, an
//! adjacency matrix and adjacency lists. Vertices are written 1-based
//! (the matrix by position); edges are collected, directedness is inferred
//! from them, and the graph is built.
use vstd::prelude::*;
use crate::graph::{Edge, Graph, MAX_WEIGHT, Weight, all_reversed, edges_in_range, empty_adj, with_edges};
use crate::text::{
    all_digits, chars_of, count_value, digits_value, is_digit, lines_of, number_value, parse_count,
    parse_number, slice_of,
    split_lines, split_tokens, tokens_of,
};

verus! {

/// Why a graph text was refused.
#[derive(Debug, Clone, Copy, PartialEq, Eq, Structural)]
pub enum GraphParseError {
    /// The text has no first line.
    MissingVertexCount,
    /// The first line is not a single vertex count.
    InvalidVertexCount,
    /// An edge-list line does not hold exactly three tokens.
    WrongTokenCount,
    /// A vertex token is not a number.
    BadVertex,
    /// A weight token is not a decimal number with at most six decimal
    /// places and a size of at most `MAX_WEIGHT` millionths.
    BadWeight,
    /// A vertex number, or a line standing for a vertex, is outside the graph.
    VertexOutOfRange,
    /// A matrix row does not hold one entry per vertex.
    WrongColumnCount,
}

/// Position of the first `c` in `s` at or after `i`, or `s.len()`.
pub open spec fn find_char(s: Seq<char>, c: char, i: int) -> int
    decreases s.len() - i,
{
    if i >= s.len() {
        s.len() as int
    } else if s[i] == c {
        i
    } else {
        find_char(s, c, i + 1)
    }
}

/// Ten to the power `k`.
pub open spec fn pow10(k: nat) -> nat
    decreases k,
{
    if k == 0 { 1 } else { 10 * pow10((k - 1) as nat) }
}

/// The size of an unsigned decimal `b`, in millionths: digits, optionally a
/// point and at most six more digits, with at least one digit in all; when
/// at most `MAX_WEIGHT`.
pub open spec fn magnitude_of(b: Seq<char>) -> Option<nat> {
    let p = find_char(b, '.', 0);
    let whole = b.subrange(0, p);
    let frac = if p < b.len() { b.subrange(p + 1, b.len() as int) } else { Seq::<char>::empty() };
    if whole.len() + frac.len() == 0 || !all_digits(whole) || !all_digits(frac) || frac.len() > 6 {
        None
    } else {
        let v = digits_value(whole) * 1_000_000 + digits_value(frac) * pow10((6 - frac.len()) as nat);
        if v <= MAX_WEIGHT { Some(v) } else { None }
    }
}

/// A weight: an optional sign, then an unsigned decimal; its value in millionths.
pub open spec fn weight_of(t: Seq<char>) -> Option<Weight> {
    if t.len() > 0 && (t[0] == '+' || t[0] == '-') {
        match magnitude_of(t.drop_first()) {
            Some(v) => Some((if t[0] == '-' { -(v as int) } else { v as int }) as Weight),
            None => None,
        }
    } else {
        match magnitude_of(t) {
            Some(v) => Some(v as Weight),
            None => None,
        }
    }
}

/// A 1-based vertex number of a graph on `n` vertices, as a 0-based index.
pub open spec fn vertex_of(t: Seq<char>, n: nat) -> Result<usize, GraphParseError> {
    match count_value(t, usize::MAX as nat) {
        None => Err(GraphParseError::BadVertex),
        Some(v) => if 1 <= v <= n { Ok((v - 1) as usize) } else { Err(GraphParseError::VertexOutOfRange) },
    }
}

/// The vertex count on the first line.
pub open spec fn vertex_count(lines: Seq<Seq<char>>) -> Result<nat, GraphParseError> {
    if lines.len() == 0 {
        Err(GraphParseError::MissingVertexCount)
    } else {
        let t = tokens_of(lines[0]);
        if t.len() == 1 && count_value(t[0], usize::MAX as nat) is Some {
            Ok(count_value(t[0], usize::MAX as nat).unwrap())
        } else {
            Err(GraphParseError::InvalidVertexCount)
        }
    }
}

/// The edge of an edge-list line `u v w`.
pub open spec fn edge_line(t: Seq<Seq<char>>, n: nat) -> Result<Edge, GraphParseError> {
    if t.len() != 3 {
        Err(GraphParseError::WrongTokenCount)
    } else {
        match vertex_of(t[0], n) {
            Err(e) => Err(e),
            Ok(u) => match vertex_of(t[1], n) {
                Err(e) => Err(e),
                Ok(v) => match weight_of(t[2]) {
                    None => Err(GraphParseError::BadWeight),
                    Some(w) => Ok((u, v, w)),
                },
            },
        }
    }
}

/// Edges of the edge-list lines `1..m`; blank lines are skipped.
pub open spec fn edge_list_upto(lines: Seq<Seq<char>>, n: nat, m: int) -> Result<Seq<Edge>, GraphParseError>
    decreases m,
{
    if m <= 1 {
        Ok(Seq::empty())
    } else {
        match edge_list_upto(lines, n, m - 1) {
            Err(e) => Err(e),
            Ok(es) => {
                let t = tokens_of(lines[m - 1]);
                if t.len() == 0 {
                    Ok(es)
                } else {
                    match edge_line(t, n) {
                        Err(e) => Err(e),
                        Ok(e) => Ok(es.push(e)),
                    }
                }
            },
        }
    }
}

/// Edges of the tokens `t[..k]` of an adjacency line of vertex `u`, each
/// token `v:w`.
pub open spec fn adjacency_tokens(t: Seq<Seq<char>>, u: usize, n: nat, k: int) -> Result<Seq<Edge>, GraphParseError>
    decreases k,
{
    if k <= 0 {
        Ok(Seq::empty())
    } else {
        match adjacency_tokens(t, u, n, k - 1) {
            Err(e) => Err(e),
            Ok(es) => {
                let tok = t[k - 1];
                let p = find_char(tok, ':', 0);
                match vertex_of(tok.subrange(0, p), n) {
                    Err(e) => Err(e),
                    Ok(v) => if p == tok.len() {
                        Err(GraphParseError::BadWeight)
                    } else {
                        match weight_of(tok.subrange(p + 1, tok.len() as int)) {
                            None => Err(GraphParseError::BadWeight),
                            Some(w) => Ok(es.push((u, v, w))),
                        }
                    },
                }
            },
        }
    }
}

/// Edges of the adjacency lines `1..m`; line `j` lists the entries of
/// vertex `j - 1`, and blank lines are skipped.
pub open spec fn adjacency_upto(lines: Seq<Seq<char>>, n: nat, m: int) -> Result<Seq<Edge>, GraphParseError>
    decreases m,
{
    if m <= 1 {
        Ok(Seq::empty())
    } else {
        match adjacency_upto(lines, n, m - 1) {
            Err(e) => Err(e),
            Ok(es) => {
                let t = tokens_of(lines[m - 1]);
                if t.len() == 0 {
                    Ok(es)
                } else if m - 2 >= n {
                    Err(GraphParseError::VertexOutOfRange)
                } else {
                    match adjacency_tokens(t, (m - 2) as usize, n, t.len() as int) {
                        Err(e) => Err(e),
                        Ok(more) => Ok(es + more),
                    }
                }
            },
        }
    }
}

/// Edges of the entries `t[..k]` of matrix row `i`: one for each non-zero weight.
pub open spec fn matrix_tokens(t: Seq<Seq<char>>, i: usize, k: int) -> Result<Seq<Edge>, GraphParseError>
    decreases k,
{
    if k <= 0 {
        Ok(Seq::empty())
    } else {
        match matrix_tokens(t, i, k - 1) {
            Err(e) => Err(e),
            Ok(es) => match weight_of(t[k - 1]) {
                None => Err(GraphParseError::BadWeight),
                Some(w) => if w != 0 { Ok(es.push((i, (k - 1) as usize, w))) } else { Ok(es) },
            },
        }
    }
}

/// Edges of the matrix lines `1..m`; line `j` is row `j - 1`, and blank
/// lines are skipped.
pub open spec fn matrix_upto(lines: Seq<Seq<char>>, n: nat, m: int) -> Result<Seq<Edge>, GraphParseError>
    decreases m,
{
    if m <= 1 {
        Ok(Seq::empty())
    } else {
        match matrix_upto(lines, n, m - 1) {
            Err(e) => Err(e),
            Ok(es) => {
                let t = tokens_of(lines[m - 1]);
                if t.len() == 0 {
                    Ok(es)
                } else if t.len() != n {
                    Err(GraphParseError::WrongColumnCount)
                } else if m - 2 >= n {
                    Err(GraphParseError::VertexOutOfRange)
                } else {
                    match matrix_tokens(t, (m - 2) as usize, n as int) {
                        Err(e) => Err(e),
                        Ok(more) => Ok(es + more),
                    }
                }
            },
        }
    }
}

/// The three encodings.
pub enum Encoding {
    EdgeList,
    Matrix,
    AdjacencyList,
}

/// Vertex count and edges that `text` describes in the encoding `f`.
pub open spec fn described(text: Seq<char>, f: Encoding) -> Result<(nat, Seq<Edge>), GraphParseError> {
    let lines = lines_of(text);
    match vertex_count(lines) {
        Err(e) => Err(e),
        Ok(n) => {
            let body = match f {
                Encoding::EdgeList => edge_list_upto(lines, n, lines.len() as int),
                Encoding::Matrix => matrix_upto(lines, n, lines.len() as int),
                Encoding::AdjacencyList => adjacency_upto(lines, n, lines.len() as int),
            };
            match body {
                Err(e) => Err(e),
                Ok(es) => Ok((n, es)),
            }
        },
    }
}

/// `g` is the graph on `0..n` built from `es`, directed unless every edge
/// has a reverse edge of equal weight.
pub open spec fn built_from(g: Graph, n: nat, es: Seq<Edge>) -> bool {
    &&& g.wf()
    &&& g.n == n
    &&& g.directed == !all_reversed(es)
    &&& g.adj_view() == with_edges(empty_adj(n), g.directed, es)
}

/// What reading `text` in the encoding `f` gives.
pub open spec fn read_as(text: Seq<char>, f: Encoding, r: Result<Graph, GraphParseError>) -> bool {
    match described(text, f) {
        Ok((n, es)) => r is Ok && built_from(r->Ok_0, n, es),
        Err(e) => r == Err::<Graph, GraphParseError>(e),
    }
}

fn find_char_in(s: &Vec<char>, c: char) -> (r: usize)
    ensures
        r as int == find_char(s@, c, 0),
        r <= s@.len(),
{
    let mut i: usize = 0;
    while i < s.len()
        invariant
            i <= s@.len(),
            find_char(s@, c, 0) == find_char(s@, c, i as int),
        decreases s@.len() - i,
    {
        if s[i] == c {
            return i;
        }
        i += 1;
    }
    i
}

proof fn lemma_find_char_bound(s: Seq<char>, c: char, i: int)
    requires
        0 <= i <= s.len(),
    ensures
        i <= find_char(s, c, i) <= s.len(),
        find_char(s, c, i) < s.len() ==> s[find_char(s, c, i)] == c,
    decreases s.len() - i,
{
    if i < s.len() && s[i] != c {
        lemma_find_char_bound(s, c, i + 1);
    }
}

proof fn lemma_digits_value_bound(s: Seq<char>)
    requires
        all_digits(s),
    ensures
        digits_value(s) < pow10(s.len()),
    decreases s.len(),
{
    if s.len() > 0 {
        let t = s.drop_last();
        assert(all_digits(t)) by {
            assert forall|i: int| 0 <= i < t.len() implies is_digit(#[trigger] t[i]) by {
                assert(t[i] == s[i]);
            }
        }
        lemma_digits_value_bound(t);
        assert(is_digit(s[s.len() - 1]));
        let d = (s.last() as int - '0' as int) as nat;
        assert(d <= 9);
        assert(digits_value(t) * 10 + d < pow10(t.len()) * 10) by (nonlinear_arith)
            requires digits_value(t) < pow10(t.len()), d <= 9;
    }
}

/// Millionths in one unit of the last of `k` decimal places.
fn place_value(k: usize) -> (r: u64)
    requires
        k <= 6,
    ensures
        r as nat == pow10((6 - k) as nat),
        1 <= r <= 1_000_000,
{
    proof {
        reveal_with_fuel(pow10, 7);
    }
    if k == 0 {
        1_000_000
    } else if k == 1 {
        100_000
    } else if k == 2 {
        10_000
    } else if k == 3 {
        1_000
    } else if k == 4 {
        100
    } else if k == 5 {
        10
    } else {
        1
    }
}

/// Reads an unsigned decimal in millionths.
fn parse_magnitude(t: &Vec<char>) -> (r: Option<u64>)
    ensures
        match magnitude_of(t@) {
            Some(v) => r == Some(v as u64),
            None => r is None,
        },
{
    let ghost s = t@;
    let p = find_char_in(t, '.');
    let len = t.len();
    proof { lemma_find_char_bound(s, '.', 0); }
    let ghost whole = s.subrange(0, p as int);
    let ghost frac = if p < len { s.subrange(p + 1, len as int) } else { Seq::<char>::empty() };
    let frac_len: usize = if p < len { len - p - 1 } else { 0 };
    assert(frac.len() == frac_len);
    if p + frac_len == 0 {
        return None;
    }
    if frac_len > 6 {
        return None;
    }
    let w: u64 = if p == 0 {
        assert(whole.len() == 0);
        assert(digits_value(whole) == 0);
        0
    } else {
        match parse_number(t, 0, p, 1_099_511) {
            Some(w) => w,
            None => {
                proof {
                    if all_digits(whole) && all_digits(frac) {
                        assert(digits_value(whole) > 1_099_511);
                        assert(digits_value(whole) * 1_000_000 > MAX_WEIGHT) by (nonlinear_arith)
                            requires digits_value(whole) > 1_099_511;
                    }
                }
                return None;
            },
        }
    };
    let f: u64 = if frac_len == 0 {
        assert(digits_value(frac) == 0);
        0
    } else {
        match parse_number(t, p + 1, len, 999_999) {
            Some(f) => f,
            None => {
                proof {
                    if all_digits(frac) {
                        lemma_digits_value_bound(frac);
                        reveal_with_fuel(pow10, 7);
                        assert(pow10(frac.len()) <= 1_000_000);
                    }
                }
                return None;
            },
        }
    };
    let scale = place_value(frac_len);
    proof {
        assert(f as nat == digits_value(frac));
        assert(w * 1_000_000 + f * scale <= 1_099_511 * 1_000_000 + 999_999 * 1_000_000) by (nonlinear_arith)
            requires w <= 1_099_511, f <= 999_999, scale <= 1_000_000;
    }
    let v = w * 1_000_000 + f * scale;
    if v > MAX_WEIGHT as u64 {
        None
    } else {
        Some(v)
    }
}

/// Reads a weight token.
pub fn parse_weight(t: &Vec<char>) -> (r: Option<Weight>)
    ensures
        r == weight_of(t@),
{
    let len = t.len();
    if len > 0 && (t[0] == '+' || t[0] == '-') {
        let b = slice_of(t, 1, len);
        assert(b@ =~= t@.drop_first());
        match parse_magnitude(&b) {
            Some(v) => {
                if t[0] == '-' { Some(-(v as i64)) } else { Some(v as i64) }
            },
            None => None,
        }
    } else {
        match parse_magnitude(t) {
            Some(v) => Some(v as i64),
            None => None,
        }
    }
}

/// Reads the 1-based vertex number `t[lo..hi]` of a graph on `n` vertices.
fn parse_vertex(t: &Vec<char>, lo: usize, hi: usize, n: usize) -> (r: Result<usize, GraphParseError>)
    requires
        lo <= hi <= t@.len(),
    ensures
        r == vertex_of(t@.subrange(lo as int, hi as int), n as nat),
        r is Ok ==> r->Ok_0 < n,
{
    match parse_count(t, lo, hi, usize::MAX as u64) {
        None => Err(GraphParseError::BadVertex),
        Some(v) => {
            if 1 <= v && v <= n as u64 {
                Ok((v - 1) as usize)
            } else {
                Err(GraphParseError::VertexOutOfRange)
            }
        },
    }
}

fn read_vertex_count(lines: &Vec<Vec<char>>) -> (r: Result<usize, GraphParseError>)
    ensures
        match vertex_count(lines@.map_values(|l: Vec<char>| l@)) {
            Ok(n) => r == Ok::<usize, GraphParseError>(n as usize),
            Err(e) => r == Err::<usize, GraphParseError>(e),
        },
{
    if lines.len() == 0 {
        return Err(GraphParseError::MissingVertexCount);
    }
    let t = split_tokens(&lines[0]);
    if t.len() != 1 {
        return Err(GraphParseError::InvalidVertexCount);
    }
    let len = t[0].len();
    assert(t@[0]@.subrange(0, len as int) =~= t@[0]@);
    match parse_count(&t[0], 0, len, usize::MAX as u64) {
        Some(v) => Ok(v as usize),
        None => Err(GraphParseError::InvalidVertexCount),
    }
}

proof fn lemma_edge_list_err(lines: Seq<Seq<char>>, n: nat, m1: int, m2: int)
    requires
        1 <= m1 <= m2,
        edge_list_upto(lines, n, m1) is Err,
    ensures
        edge_list_upto(lines, n, m2) == edge_list_upto(lines, n, m1),
    decreases m2 - m1,
{
    if m1 < m2 {
        lemma_edge_list_err(lines, n, m1, m2 - 1);
    }
}

proof fn lemma_adjacency_err(lines: Seq<Seq<char>>, n: nat, m1: int, m2: int)
    requires
        1 <= m1 <= m2,
        adjacency_upto(lines, n, m1) is Err,
    ensures
        adjacency_upto(lines, n, m2) == adjacency_upto(lines, n, m1),
    decreases m2 - m1,
{
    if m1 < m2 {
        lemma_adjacency_err(lines, n, m1, m2 - 1);
    }
}

proof fn lemma_adjacency_tokens_err(t: Seq<Seq<char>>, u: usize, n: nat, k1: int, k2: int)
    requires
        0 <= k1 <= k2,
        adjacency_tokens(t, u, n, k1) is Err,
    ensures
        adjacency_tokens(t, u, n, k2) == adjacency_tokens(t, u, n, k1),
    decreases k2 - k1,
{
    if k1 < k2 {
        lemma_adjacency_tokens_err(t, u, n, k1, k2 - 1);
    }
}

proof fn lemma_matrix_err(lines: Seq<Seq<char>>, n: nat, m1: int, m2: int)
    requires
        1 <= m1 <= m2,
        matrix_upto(lines, n, m1) is Err,
    ensures
        matrix_upto(lines, n, m2) == matrix_upto(lines, n, m1),
    decreases m2 - m1,
{
    if m1 < m2 {
        lemma_matrix_err(lines, n, m1, m2 - 1);
    }
}

proof fn lemma_matrix_tokens_err(t: Seq<Seq<char>>, i: usize, k1: int, k2: int)
    requires
        0 <= k1 <= k2,
        matrix_tokens(t, i, k1) is Err,
    ensures
        matrix_tokens(t, i, k2) == matrix_tokens(t, i, k1),
    decreases k2 - k1,
{
    if k1 < k2 {
        lemma_matrix_tokens_err(t, i, k1, k2 - 1);
    }
}

impl Graph {
    /// Reads an edge list: the vertex count, then one line `u v w` per edge.
    pub fn parse_edgelist(text: &str) -> (r: Result<Graph, GraphParseError>)
        ensures
            read_as(text@, Encoding::EdgeList, r),
    {
        let chars = chars_of(text);
        let lines = split_lines(&chars);
        let ghost ls = lines@.map_values(|l: Vec<char>| l@);
        let n = match read_vertex_count(&lines) {
            Ok(n) => n,
            Err(e) => return Err(e),
        };
        let mut edges: Vec<Edge> = Vec::new();
        let mut j: usize = 1;
        while j < lines.len()
            invariant
                ls == lines@.map_values(|l: Vec<char>| l@), ls == lines_of(text@),
                vertex_count(ls) == Ok::<nat, GraphParseError>(n as nat),
                1 <= j <= lines@.len(),
                edge_list_upto(ls, n as nat, j as int) == Ok::<Seq<Edge>, GraphParseError>(edges@),
                edges_in_range(edges@, n as nat),
            decreases lines@.len() - j,
        {
            let t = split_tokens(&lines[j]);
            assert(ls[j as int] == lines@[j as int]@);
            let ghost tv = t@.map_values(|l: Vec<char>| l@);
            if t.len() != 0 {
                if t.len() != 3 {
                    proof { lemma_edge_list_err(ls, n as nat, j + 1, ls.len() as int); }
                    return Err(GraphParseError::WrongTokenCount);
                }
                assert(tv[0] == t@[0]@ && tv[1] == t@[1]@ && tv[2] == t@[2]@);
                assert(t@[0]@.subrange(0, t@[0]@.len() as int) =~= t@[0]@);
                assert(t@[1]@.subrange(0, t@[1]@.len() as int) =~= t@[1]@);
                let u = match parse_vertex(&t[0], 0, t[0].len(), n) {
                    Ok(u) => u,
                    Err(e) => {
                        proof { lemma_edge_list_err(ls, n as nat, j + 1, ls.len() as int); }
                        return Err(e);
                    },
                };
                let v = match parse_vertex(&t[1], 0, t[1].len(), n) {
                    Ok(v) => v,
                    Err(e) => {
                        proof { lemma_edge_list_err(ls, n as nat, j + 1, ls.len() as int); }
                        return Err(e);
                    },
                };
                let w = match parse_weight(&t[2]) {
                    Some(w) => w,
                    None => {
                        proof { lemma_edge_list_err(ls, n as nat, j + 1, ls.len() as int); }
                        return Err(GraphParseError::BadWeight);
                    },
                };
                edges.push((u, v, w));
            }
            j += 1;
        }
        Ok(Graph::from_edges(n, &edges))
    }

    /// Reads an adjacency matrix: the vertex count, then one row per vertex
    /// with one weight per vertex; a non-zero weight is an edge.
    pub fn parse_matrix(text: &str) -> (r: Result<Graph, GraphParseError>)
        ensures
            read_as(text@, Encoding::Matrix, r),
    {
        let chars = chars_of(text);
        let lines = split_lines(&chars);
        let ghost ls = lines@.map_values(|l: Vec<char>| l@);
        let n = match read_vertex_count(&lines) {
            Ok(n) => n,
            Err(e) => return Err(e),
        };
        let mut edges: Vec<Edge> = Vec::new();
        let mut j: usize = 1;
        while j < lines.len()
            invariant
                ls == lines@.map_values(|l: Vec<char>| l@), ls == lines_of(text@),
                vertex_count(ls) == Ok::<nat, GraphParseError>(n as nat),
                1 <= j <= lines@.len(),
                matrix_upto(ls, n as nat, j as int) == Ok::<Seq<Edge>, GraphParseError>(edges@),
                edges_in_range(edges@, n as nat),
            decreases lines@.len() - j,
        {
            let t = split_tokens(&lines[j]);
            assert(ls[j as int] == lines@[j as int]@);
            let ghost tv = t@.map_values(|l: Vec<char>| l@);
            if t.len() != 0 {
                if t.len() != n {
                    proof { lemma_matrix_err(ls, n as nat, j + 1, ls.len() as int); }
                    return Err(GraphParseError::WrongColumnCount);
                }
                if j - 1 >= n {
                    proof { lemma_matrix_err(ls, n as nat, j + 1, ls.len() as int); }
                    return Err(GraphParseError::VertexOutOfRange);
                }
                let i = j - 1;
                let mut row: Vec<Edge> = Vec::new();
                let mut k: usize = 0;
                while k < n
                    invariant
                        tv == t@.map_values(|l: Vec<char>| l@), t@.len() == n, i < n, k <= n,
                        ls == lines@.map_values(|l: Vec<char>| l@), ls == lines_of(text@),
                        vertex_count(ls) == Ok::<nat, GraphParseError>(n as nat),
                        1 <= j < lines@.len(), i == j - 1, tv == tokens_of(ls[j as int]),
                        matrix_upto(ls, n as nat, j as int) == Ok::<Seq<Edge>, GraphParseError>(edges@),
                        edges_in_range(edges@, n as nat),
                        matrix_tokens(tv, i, k as int) == Ok::<Seq<Edge>, GraphParseError>(row@),
                        edges_in_range(row@, n as nat),
                    decreases n - k,
                {
                    assert(tv[k as int] == t@[k as int]@);
                    match parse_weight(&t[k]) {
                        Some(w) => {
                            if w != 0 {
                                row.push((i, k, w));
                            }
                        },
                        None => {
                            proof {
                                assert(matrix_tokens(tv, i, k + 1) == Err::<Seq<Edge>, GraphParseError>(GraphParseError::BadWeight));
                                lemma_matrix_tokens_err(tv, i, k + 1, n as int);
                                assert(matrix_upto(ls, n as nat, j + 1) == Err::<Seq<Edge>, GraphParseError>(GraphParseError::BadWeight));
                                lemma_matrix_err(ls, n as nat, j + 1, ls.len() as int);
                            }
                            return Err(GraphParseError::BadWeight);
                        },
                    }
                    k += 1;
                }
                let ghost e0 = edges@;
                let ghost r0 = row@;
                edges.append(&mut row);
                assert(edges@ =~= e0 + r0);
                assert forall|x: int| 0 <= x < edges@.len() implies (#[trigger] edges@[x]).0 < n && edges@[x].1 < n by {
                    if x < e0.len() { assert(edges@[x] == e0[x]); } else { assert(edges@[x] == r0[x - e0.len()]); }
                }
            }
            j += 1;
        }
        Ok(Graph::from_edges(n, &edges))
    }

    /// Reads adjacency lists: the vertex count, then for each vertex a line
    /// of tokens `v:w`, each an edge to vertex `v` of weight `w`.
    pub fn parse_adjust(text: &str) -> (r: Result<Graph, GraphParseError>)
        ensures
            read_as(text@, Encoding::AdjacencyList, r),
    {
        let chars = chars_of(text);
        let lines = split_lines(&chars);
        let ghost ls = lines@.map_values(|l: Vec<char>| l@);
        let n = match read_vertex_count(&lines) {
            Ok(n) => n,
            Err(e) => return Err(e),
        };
        let mut edges: Vec<Edge> = Vec::new();
        let mut j: usize = 1;
        while j < lines.len()
            invariant
                ls == lines@.map_values(|l: Vec<char>| l@), ls == lines_of(text@),
                vertex_count(ls) == Ok::<nat, GraphParseError>(n as nat),
                1 <= j <= lines@.len(),
                adjacency_upto(ls, n as nat, j as int) == Ok::<Seq<Edge>, GraphParseError>(edges@),
                edges_in_range(edges@, n as nat),
            decreases lines@.len() - j,
        {
            let t = split_tokens(&lines[j]);
            assert(ls[j as int] == lines@[j as int]@);
            let ghost tv = t@.map_values(|l: Vec<char>| l@);
            if t.len() != 0 {
                if j - 1 >= n {
                    proof { lemma_adjacency_err(ls, n as nat, j + 1, ls.len() as int); }
                    return Err(GraphParseError::VertexOutOfRange);
                }
                let u = j - 1;
                let m = t.len();
                let mut row: Vec<Edge> = Vec::new();
                let mut k: usize = 0;
                while k < m
                    invariant
                        tv == t@.map_values(|l: Vec<char>| l@), t@.len() == m, u < n, k <= m,
                        ls == lines@.map_values(|l: Vec<char>| l@), ls == lines_of(text@),
                        vertex_count(ls) == Ok::<nat, GraphParseError>(n as nat),
                        1 <= j < lines@.len(), u == j - 1, tv == tokens_of(ls[j as int]), m > 0,
                        adjacency_upto(ls, n as nat, j as int) == Ok::<Seq<Edge>, GraphParseError>(edges@),
                        edges_in_range(edges@, n as nat),
                        adjacency_tokens(tv, u, n as nat, k as int) == Ok::<Seq<Edge>, GraphParseError>(row@),
                        edges_in_range(row@, n as nat),
                    decreases m - k,
                {
                    let tok = &t[k];
                    assert(tv[k as int] == tok@);
                    let p = find_char_in(tok, ':');
                    let v = match parse_vertex(tok, 0, p, n) {
                        Ok(v) => v,
                        Err(e) => {
                            proof {
                                assert(adjacency_tokens(tv, u, n as nat, k + 1) == Err::<Seq<Edge>, GraphParseError>(e));
                                lemma_adjacency_tokens_err(tv, u, n as nat, k + 1, m as int);
                                assert(adjacency_upto(ls, n as nat, j + 1) == Err::<Seq<Edge>, GraphParseError>(e));
                                lemma_adjacency_err(ls, n as nat, j + 1, ls.len() as int);
                            }
                            return Err(e);
                        },
                    };
                    if p == tok.len() {
                        proof {
                            assert(adjacency_tokens(tv, u, n as nat, k + 1) == Err::<Seq<Edge>, GraphParseError>(GraphParseError::BadWeight));
                            lemma_adjacency_tokens_err(tv, u, n as nat, k + 1, m as int);
                            assert(adjacency_upto(ls, n as nat, j + 1) == Err::<Seq<Edge>, GraphParseError>(GraphParseError::BadWeight));
                            lemma_adjacency_err(ls, n as nat, j + 1, ls.len() as int);
                        }
                        return Err(GraphParseError::BadWeight);
                    }
                    let wt = slice_of(tok, p + 1, tok.len());
                    match parse_weight(&wt) {
                        Some(w) => {
                            row.push((u, v, w));
                        },
                        None => {
                            proof {
                                assert(adjacency_tokens(tv, u, n as nat, k + 1) == Err::<Seq<Edge>, GraphParseError>(GraphParseError::BadWeight));
                                lemma_adjacency_tokens_err(tv, u, n as nat, k + 1, m as int);
                                assert(adjacency_upto(ls, n as nat, j + 1) == Err::<Seq<Edge>, GraphParseError>(GraphParseError::BadWeight));
                                lemma_adjacency_err(ls, n as nat, j + 1, ls.len() as int);
                            }
                            return Err(GraphParseError::BadWeight);
                        },
                    }
                    k += 1;
                }
                let ghost e0 = edges@;
                let ghost r0 = row@;
                edges.append(&mut row);
                assert(edges@ =~= e0 + r0);
                assert forall|x: int| 0 <= x < edges@.len() implies (#[trigger] edges@[x]).0 < n && edges@[x].1 < n by {
                    if x < e0.len() { assert(edges@[x] == e0[x]); } else { assert(edges@[x] == r0[x - e0.len()]); }
                }
            }
            j += 1;
        }
        Ok(Graph::from_edges(n, &edges))
    }
}

} // verus!
