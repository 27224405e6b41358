//! The text form of a relation: the base set on the first line, one
//! character per word, then one pair of elements per line. Words stand for
//! their first character; blank lines are skipped.
use vstd::prelude::*;
use crate::char_set::CharSet;
use crate::text::{chars_of, lemma_tokens_nonempty, lines_of, split_lines, split_tokens, tokens_of};

verus! {

/// Why a relation text was refused; lines are numbered from 1.
#[derive(Debug, Clone, Copy, PartialEq, Eq, Structural)]
pub enum RelationTextError {
    /// There is no first line.
    Empty,
    /// The first line names no element.
    EmptyBase,
    /// A pair line does not hold exactly two words.
    WrongPairLength { line: usize, found: usize },
    /// A pair names an element outside the base set.
    UnknownElement { element: char, line: usize },
    /// No pair was given.
    NoPairs,
}

/// First characters of the words `t`.
pub open spec fn initials(t: Seq<Seq<char>>) -> Set<char> {
    Set::new(|c: char| exists|i: int| 0 <= i < t.len() && t[i][0] == c)
}

/// Pairs of the lines `1..m`, given the base set.
pub open spec fn pairs_upto(lines: Seq<Seq<char>>, base: Set<char>, m: int) -> Result<Seq<(char, char)>, RelationTextError>
    decreases m,
{
    if m <= 1 {
        Ok(Seq::empty())
    } else {
        match pairs_upto(lines, base, m - 1) {
            Err(e) => Err(e),
            Ok(ps) => {
                let t = tokens_of(lines[m - 1]);
                if t.len() == 0 {
                    Ok(ps)
                } else if t.len() != 2 {
                    Err(RelationTextError::WrongPairLength { line: m as usize, found: t.len() as usize })
                } else if !base.contains(t[0][0]) {
                    Err(RelationTextError::UnknownElement { element: t[0][0], line: m as usize })
                } else if !base.contains(t[1][0]) {
                    Err(RelationTextError::UnknownElement { element: t[1][0], line: m as usize })
                } else {
                    Ok(ps.push((t[0][0], t[1][0])))
                }
            },
        }
    }
}

/// The base set and the pairs that `text` describes.
pub open spec fn relation_of(text: Seq<char>) -> Result<(Set<char>, Seq<(char, char)>), RelationTextError> {
    let lines = lines_of(text);
    if lines.len() == 0 {
        Err(RelationTextError::Empty)
    } else {
        let bt = tokens_of(lines[0]);
        if bt.len() == 0 {
            Err(RelationTextError::EmptyBase)
        } else {
            match pairs_upto(lines, initials(bt), lines.len() as int) {
                Err(e) => Err(e),
                Ok(ps) => if ps.len() == 0 { Err(RelationTextError::NoPairs) } else { Ok((initials(bt), ps)) },
            }
        }
    }
}

proof fn lemma_pairs_err(lines: Seq<Seq<char>>, base: Set<char>, m1: int, m2: int)
    requires
        1 <= m1 <= m2,
        pairs_upto(lines, base, m1) is Err,
    ensures
        pairs_upto(lines, base, m2) == pairs_upto(lines, base, m1),
    decreases m2 - m1,
{
    if m1 < m2 {
        lemma_pairs_err(lines, base, m1, m2 - 1);
    }
}

/// Reads a relation: its base set and its pairs.
pub fn parse_relation(text: &str) -> (r: Result<(CharSet, Vec<(char, char)>), RelationTextError>)
    ensures
        match relation_of(text@) {
            Ok((base, ps)) => r is Ok && r->Ok_0.0.wf() && r->Ok_0.0.elems() == base && r->Ok_0.1@ == ps,
            Err(e) => r == Err::<(CharSet, Vec<(char, char)>), RelationTextError>(e),
        },
{
    let cs = chars_of(text);
    let lines = split_lines(&cs);
    let ghost ls = lines@.map_values(|l: Vec<char>| l@);
    if lines.len() == 0 {
        return Err(RelationTextError::Empty);
    }
    let bt = split_tokens(&lines[0]);
    let ghost bv = bt@.map_values(|t: Vec<char>| t@);
    assert(ls[0] == lines@[0]@);
    if bt.len() == 0 {
        return Err(RelationTextError::EmptyBase);
    }
    proof {
        lemma_tokens_nonempty(lines@[0]@);
    }
    let mut base = CharSet::new();
    let mut i: usize = 0;
    while i < bt.len()
        invariant
            bv == bt@.map_values(|t: Vec<char>| t@), bv == tokens_of(lines@[0]@),
            forall|k: int| 0 <= k < bv.len() ==> (#[trigger] bv[k]).len() > 0,
            i <= bt@.len(), base.wf(),
            base.elems() == Set::new(|c: char| exists|k: int| 0 <= k < i && bv[k][0] == c),
        decreases bt@.len() - i,
    {
        assert(bv[i as int] == bt@[i as int]@);
        let c = bt[i][0];
        let ghost b0 = base.elems();
        base.add(c);
        assert(base.elems() =~= Set::new(|d: char| exists|k: int| 0 <= k < i + 1 && bv[k][0] == d)) by {
            assert forall|d: char| base.elems().contains(d) <==> exists|k: int| 0 <= k < i + 1 && bv[k][0] == d by {
                if d == c { assert(bv[i as int][0] == c); }
                if exists|k: int| 0 <= k < i + 1 && bv[k][0] == d {
                    let k = choose|k: int| 0 <= k < i + 1 && bv[k][0] == d;
                    if k < i { assert(b0.contains(d)); }
                }
            }
        }
        i += 1;
    }
    assert(base.elems() =~= initials(bv));
    let ghost bs = initials(bv);
    let mut pairs: Vec<(char, char)> = Vec::new();
    let mut j: usize = 1;
    while j < lines.len()
        invariant
            ls == lines@.map_values(|l: Vec<char>| l@), ls == lines_of(text@),
            ls.len() > 0, bv == tokens_of(ls[0]), bv.len() > 0, bs == initials(bv),
            base.wf(), base.elems() == bs,
            1 <= j <= lines@.len(),
            pairs_upto(ls, bs, j as int) == Ok::<Seq<(char, char)>, RelationTextError>(pairs@),
        decreases lines@.len() - j,
    {
        let t = split_tokens(&lines[j]);
        assert(ls[j as int] == lines@[j as int]@);
        let ghost tv = t@.map_values(|x: Vec<char>| x@);
        proof { lemma_tokens_nonempty(ls[j as int]); }
        if t.len() != 0 {
            if t.len() != 2 {
                let e = RelationTextError::WrongPairLength { line: j + 1, found: t.len() };
                proof { lemma_pairs_err(ls, bs, j + 1, ls.len() as int); }
                return Err(e);
            }
            assert(tv[0] == t@[0]@ && tv[1] == t@[1]@);
            assert(tv[0].len() > 0 && tv[1].len() > 0);
            let a = t[0][0];
            let b = t[1][0];
            if !base.contains(a) {
                proof { lemma_pairs_err(ls, bs, j + 1, ls.len() as int); }
                return Err(RelationTextError::UnknownElement { element: a, line: j + 1 });
            }
            if !base.contains(b) {
                proof { lemma_pairs_err(ls, bs, j + 1, ls.len() as int); }
                return Err(RelationTextError::UnknownElement { element: b, line: j + 1 });
            }
            pairs.push((a, b));
        }
        j += 1;
    }
    if pairs.len() == 0 {
        return Err(RelationTextError::NoPairs);
    }
    Ok((base, pairs))
}

} // verus!
