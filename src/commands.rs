//! Commands of the set calculator, one per line: `new A`, `del A`,
//! `add A x`, `rem A x`, `pow A`, `see [A]`, and `A op B` with `op` one of
//! `+ & - < =`. Sets and elements are named by the first character of their
//! word.
use vstd::prelude::*;
use crate::text::{chars_of, split_tokens, string_of, tokens_of};

verus! {

/// A binary operation on two named sets.
#[derive(Debug, Clone, PartialEq, Eq)]
pub enum SetOp {
    Union,
    Intersection,
    Difference,
    Subset,
    Equal,
    /// An operator symbol that is none of the above.
    Unknown(String),
}

/// A command of the set calculator.
#[derive(Debug, Clone, PartialEq, Eq)]
pub enum SetCommand {
    New(char),
    Del(char),
    Add(char, char),
    Rem(char, char),
    Pow(char),
    /// Show one set, or all of them.
    See(Option<char>),
    Binary(char, SetOp, char),
}

/// Why a command line was refused.
#[derive(Debug, Clone, Copy, PartialEq, Eq, Structural)]
pub enum CommandError {
    Empty,
    /// `new`, `del` or `pow` without a set name.
    MissingName,
    /// `add` or `rem` without a set name and an element.
    MissingElement,
    /// A line that is no keyword command and not `A op B`.
    InvalidFormat,
}

/// An operation as a mathematical value.
pub enum OpView {
    Union,
    Intersection,
    Difference,
    Subset,
    Equal,
    Unknown(Seq<char>),
}

/// A command as a mathematical value.
pub enum CommandView {
    New(char),
    Del(char),
    Add(char, char),
    Rem(char, char),
    Pow(char),
    See(Option<char>),
    Binary(char, OpView, char),
}

pub open spec fn op_view(o: SetOp) -> OpView {
    match o {
        SetOp::Union => OpView::Union,
        SetOp::Intersection => OpView::Intersection,
        SetOp::Difference => OpView::Difference,
        SetOp::Subset => OpView::Subset,
        SetOp::Equal => OpView::Equal,
        SetOp::Unknown(s) => OpView::Unknown(s@),
    }
}

pub open spec fn command_view(c: SetCommand) -> CommandView {
    match c {
        SetCommand::New(a) => CommandView::New(a),
        SetCommand::Del(a) => CommandView::Del(a),
        SetCommand::Add(a, x) => CommandView::Add(a, x),
        SetCommand::Rem(a, x) => CommandView::Rem(a, x),
        SetCommand::Pow(a) => CommandView::Pow(a),
        SetCommand::See(a) => CommandView::See(a),
        SetCommand::Binary(a, o, b) => CommandView::Binary(a, op_view(o), b),
    }
}

/// The operation written `t`.
pub open spec fn op_of_text(t: Seq<char>) -> OpView {
    if t == seq!['+'] {
        OpView::Union
    } else if t == seq!['&'] {
        OpView::Intersection
    } else if t == seq!['-'] {
        OpView::Difference
    } else if t == seq!['<'] {
        OpView::Subset
    } else if t == seq!['='] {
        OpView::Equal
    } else {
        OpView::Unknown(t)
    }
}

/// The command that `line` holds.
pub open spec fn command_of(line: Seq<char>) -> Result<CommandView, CommandError> {
    let p = tokens_of(line);
    if p.len() == 0 {
        Err(CommandError::Empty)
    } else {
        let w = p[0];
        if w == seq!['n', 'e', 'w'] || w == seq!['d', 'e', 'l'] || w == seq!['p', 'o', 'w'] {
            if p.len() < 2 {
                Err(CommandError::MissingName)
            } else if w == seq!['n', 'e', 'w'] {
                Ok(CommandView::New(p[1][0]))
            } else if w == seq!['d', 'e', 'l'] {
                Ok(CommandView::Del(p[1][0]))
            } else {
                Ok(CommandView::Pow(p[1][0]))
            }
        } else if w == seq!['a', 'd', 'd'] || w == seq!['r', 'e', 'm'] {
            if p.len() < 3 {
                Err(CommandError::MissingElement)
            } else if w == seq!['a', 'd', 'd'] {
                Ok(CommandView::Add(p[1][0], p[2][0]))
            } else {
                Ok(CommandView::Rem(p[1][0], p[2][0]))
            }
        } else if w == seq!['s', 'e', 'e'] {
            if p.len() == 2 { Ok(CommandView::See(Some(p[1][0]))) } else { Ok(CommandView::See(None)) }
        } else if p.len() != 3 {
            Err(CommandError::InvalidFormat)
        } else {
            Ok(CommandView::Binary(p[0][0], op_of_text(p[1]), p[2][0]))
        }
    }
}

/// Whether the characters `t` spell `w`.
fn spells(t: &Vec<char>, w: &str) -> (r: bool)
    ensures
        r == (t@ == w@),
{
    let cs = chars_of(w);
    if t.len() != cs.len() {
        return false;
    }
    let mut i: usize = 0;
    while i < t.len()
        invariant
            cs@ == w@, t@.len() == cs@.len(), i <= t@.len(),
            forall|k: int| 0 <= k < i ==> t@[k] == cs@[k],
        decreases t@.len() - i,
    {
        if t[i] != cs[i] {
            return false;
        }
        i += 1;
    }
    assert(t@ =~= cs@);
    true
}

/// Reads one command line.
pub fn parse_command(line: &str) -> (r: Result<SetCommand, CommandError>)
    ensures
        match command_of(line@) {
            Ok(c) => r is Ok && command_view(r->Ok_0) == c,
            Err(e) => r == Err::<SetCommand, CommandError>(e),
        },
{
    let cs = chars_of(line);
    let p = split_tokens(&cs);
    let ghost pv = p@.map_values(|t: Vec<char>| t@);
    assert(pv == tokens_of(line@));
    if p.len() == 0 {
        return Err(CommandError::Empty);
    }
    proof {
        reveal_strlit("new");
        reveal_strlit("del");
        reveal_strlit("pow");
        reveal_strlit("add");
        reveal_strlit("rem");
        reveal_strlit("see");
        reveal_strlit("+");
        reveal_strlit("&");
        reveal_strlit("-");
        reveal_strlit("<");
        reveal_strlit("=");
        assert("new"@ =~= seq!['n', 'e', 'w']);
        assert("del"@ =~= seq!['d', 'e', 'l']);
        assert("pow"@ =~= seq!['p', 'o', 'w']);
        assert("add"@ =~= seq!['a', 'd', 'd']);
        assert("rem"@ =~= seq!['r', 'e', 'm']);
        assert("see"@ =~= seq!['s', 'e', 'e']);
        assert("+"@ =~= seq!['+']);
        assert("&"@ =~= seq!['&']);
        assert("-"@ =~= seq!['-']);
        assert("<"@ =~= seq!['<']);
        assert("="@ =~= seq!['=']);
        assert(pv[0] == p@[0]@);
        crate::text::lemma_tokens_nonempty(line@);
        assert forall|k: int| 0 <= k < p@.len() implies p@[k]@.len() > 0 by {
            assert(pv[k] == p@[k]@);
        }
    }
    let w = &p[0];
    let is_new = spells(w, "new");
    let is_del = spells(w, "del");
    let is_pow = spells(w, "pow");
    let is_add = spells(w, "add");
    let is_rem = spells(w, "rem");
    if is_new || is_del || is_pow {
        if p.len() < 2 {
            return Err(CommandError::MissingName);
        }
        assert(pv[1] == p@[1]@);
        let name = p[1][0];
        if is_new {
            Ok(SetCommand::New(name))
        } else if is_del {
            Ok(SetCommand::Del(name))
        } else {
            Ok(SetCommand::Pow(name))
        }
    } else if is_add || is_rem {
        if p.len() < 3 {
            return Err(CommandError::MissingElement);
        }
        assert(pv[1] == p@[1]@ && pv[2] == p@[2]@);
        let name = p[1][0];
        let x = p[2][0];
        if is_add {
            Ok(SetCommand::Add(name, x))
        } else {
            Ok(SetCommand::Rem(name, x))
        }
    } else if spells(w, "see") {
        if p.len() == 2 {
            assert(pv[1] == p@[1]@);
            Ok(SetCommand::See(Some(p[1][0])))
        } else {
            Ok(SetCommand::See(None))
        }
    } else if p.len() != 3 {
        Err(CommandError::InvalidFormat)
    } else {
        assert(pv[1] == p@[1]@ && pv[2] == p@[2]@);
        let o = &p[1];
        let op = if spells(o, "+") {
            SetOp::Union
        } else if spells(o, "&") {
            SetOp::Intersection
        } else if spells(o, "-") {
            SetOp::Difference
        } else if spells(o, "<") {
            SetOp::Subset
        } else if spells(o, "=") {
            SetOp::Equal
        } else {
            SetOp::Unknown(string_of(o))
        };
        Ok(SetCommand::Binary(p[0][0], op, p[2][0]))
    }
}

} // verus!
