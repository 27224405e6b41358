//! Reading formulas: tokens, then a fully parenthesised syntax.
use vstd::prelude::*;
use crate::boolean::ast::{Ast, BinOp, Formula, formula_of, op_of};
use crate::text::{is_digit, is_space, string_of};

verus! {

/// A token of a formula.
#[derive(Debug)]
pub enum Token {
    LParen,
    RParen,
    Op(char),
    Var(String),
}

/// A token as a mathematical value.
pub enum Tok {
    LParen,
    RParen,
    Op(char),
    Var(Seq<char>),
}

pub open spec fn tok_of(t: Token) -> Tok {
    match t {
        Token::LParen => Tok::LParen,
        Token::RParen => Tok::RParen,
        Token::Op(c) => Tok::Op(c),
        Token::Var(s) => Tok::Var(s@),
    }
}

pub open spec fn toks_of(ts: Seq<Token>) -> Seq<Tok> {
    ts.map_values(|t: Token| tok_of(t))
}

pub open spec fn is_letter(c: char) -> bool {
    ('a' <= c && c <= 'z') || ('A' <= c && c <= 'Z')
}

/// Whether `ch` can start a variable: an ASCII letter.
fn is_var_start(ch: char) -> (r: bool)
    ensures
        r == is_letter(ch),
{
    ('a' <= ch && ch <= 'z') || ('A' <= ch && ch <= 'Z')
}

pub open spec fn is_op_char(c: char) -> bool {
    c == '+' || c == '&' || c == '@' || c == '~' || c == '>' || c == '|' || c == '!' || c == '-'
}

/// End of the run of digits starting at `j`.
pub open spec fn digits_end(s: Seq<char>, j: int) -> int
    decreases s.len() - j,
{
    if 0 <= j < s.len() && is_digit(s[j]) {
        digits_end(s, j + 1)
    } else {
        j
    }
}

pub open spec fn cons(t: Tok, rest: Option<Seq<Tok>>) -> Option<Seq<Tok>> {
    match rest {
        Some(r) => Some(seq![t] + r),
        None => None,
    }
}

/// The tokens of `s[i..]`, or `None` when it holds something that is no token.
/// Blanks separate tokens; brackets of any shape open and close; a variable
/// is a letter, an underscore and at least one digit.
pub open spec fn lex(s: Seq<char>, i: int) -> Option<Seq<Tok>>
    decreases s.len() - i,
{
    if i < 0 || i >= s.len() {
        Some(Seq::empty())
    } else {
        let c = s[i];
        if is_space(c) {
            lex(s, i + 1)
        } else if c == '(' || c == '{' || c == '[' {
            cons(Tok::LParen, lex(s, i + 1))
        } else if c == ')' || c == '}' || c == ']' {
            cons(Tok::RParen, lex(s, i + 1))
        } else if is_op_char(c) {
            cons(Tok::Op(c), lex(s, i + 1))
        } else if is_letter(c) && i + 1 < s.len() && s[i + 1] == '_' && i + 2 < digits_end(s, i + 2) <= s.len() {
            cons(Tok::Var(s.subrange(i, digits_end(s, i + 2))), lex(s, digits_end(s, i + 2)))
        } else {
            None
        }
    }
}

proof fn lemma_digits_end(s: Seq<char>, j: int)
    requires
        0 <= j <= s.len(),
    ensures
        j <= digits_end(s, j) <= s.len(),
        forall|k: int| j <= k < digits_end(s, j) ==> is_digit(#[trigger] s[k]),
    decreases s.len() - j,
{
    if j < s.len() && is_digit(s[j]) {
        lemma_digits_end(s, j + 1);
    }
}

pub open spec fn joined(prefix: Seq<Tok>, rest: Option<Seq<Tok>>) -> Option<Seq<Tok>> {
    match rest {
        Some(r) => Some(prefix + r),
        None => None,
    }
}

fn error_text(what: &str) -> (r: String)
    ensures
        r@ == what@,
{
    what.to_string()
}

/// `before`, then `middle` in quotes, then `after`.
fn quoting(before: &str, middle: &Vec<char>, after: &str) -> (r: String)
    ensures
        r@ == before@ + seq!['\''] + middle@ + seq!['\''] + after@,
{
    let mut out = crate::text::chars_of(before);
    out.push('\'');
    let mut i: usize = 0;
    let ghost o0 = out@;
    while i < middle.len()
        invariant
            i <= middle@.len(), out@ == o0 + middle@.subrange(0, i as int),
        decreases middle@.len() - i,
    {
        out.push(middle[i]);
        i += 1;
        assert(out@ =~= o0 + middle@.subrange(0, i as int));
    }
    out.push('\'');
    let tail = crate::text::chars_of(after);
    let ghost o1 = out@;
    let mut j: usize = 0;
    while j < tail.len()
        invariant
            j <= tail@.len(), out@ == o1 + tail@.subrange(0, j as int),
        decreases tail@.len() - j,
    {
        out.push(tail[j]);
        j += 1;
        assert(out@ =~= o1 + tail@.subrange(0, j as int));
    }
    assert(middle@.subrange(0, middle@.len() as int) =~= middle@);
    assert(tail@.subrange(0, tail@.len() as int) =~= tail@);
    assert(out@ =~= before@ + seq!['\''] + middle@ + seq!['\''] + after@);
    string_of(&out)
}

/// Splits a formula into tokens.
pub fn tokenize(s: &str) -> (r: Result<Vec<Token>, String>)
    ensures
        match lex(s@, 0) {
            Some(ts) => r is Ok && toks_of(r->Ok_0@) == ts,
            None => r is Err,
        },
{
    let cs = crate::text::chars_of(s);
    let n = cs.len();
    let mut tokens: Vec<Token> = Vec::new();
    let mut i: usize = 0;
    while i < n
        invariant
            cs@ == s@, n == cs@.len(), i <= n,
            lex(s@, 0) == joined(toks_of(tokens@), lex(s@, i as int)),
        decreases n - i,
    {
        let c = cs[i];
        let ghost t0 = toks_of(tokens@);
        if crate::text::is_blank(c) {
            i += 1;
        } else if c == '(' || c == '{' || c == '[' {
            tokens.push(Token::LParen);
            proof {
                assert(toks_of(tokens@) =~= t0 + seq![Tok::LParen]);
                match lex(s@, i + 1) { Some(r) => { assert(t0 + (seq![Tok::LParen] + r) =~= (t0 + seq![Tok::LParen]) + r); }, None => {} }
            }
            i += 1;
        } else if c == ')' || c == '}' || c == ']' {
            tokens.push(Token::RParen);
            proof {
                assert(toks_of(tokens@) =~= t0 + seq![Tok::RParen]);
                match lex(s@, i + 1) { Some(r) => { assert(t0 + (seq![Tok::RParen] + r) =~= (t0 + seq![Tok::RParen]) + r); }, None => {} }
            }
            i += 1;
        } else if c == '+' || c == '&' || c == '@' || c == '~' || c == '>' || c == '|' || c == '!' || c == '-' {
            tokens.push(Token::Op(c));
            proof {
                assert(toks_of(tokens@) =~= t0 + seq![Tok::Op(c)]);
                match lex(s@, i + 1) { Some(r) => { assert(t0 + (seq![Tok::Op(c)] + r) =~= (t0 + seq![Tok::Op(c)]) + r); }, None => {} }
            }
            i += 1;
        } else if is_var_start(c) {
            if i + 1 >= n || cs[i + 1] != '_' {
                let name = crate::text::slice_of(&cs, i, i + 1);
                return Err(quoting("Invalid variable ", &name, ": expected underscore after letter"));
            }
            let mut j: usize = i + 2;
            proof { lemma_digits_end(s@, j as int); }
            while j < n && '0' <= cs[j] && cs[j] <= '9'
                invariant
                    cs@ == s@, n == cs@.len(), i + 2 <= j <= n,
                    digits_end(s@, j as int) == digits_end(s@, i + 2),
                decreases n - j,
            {
                j += 1;
            }
            if j == i + 2 {
                let name = crate::text::slice_of(&cs, i, i + 2);
                return Err(quoting("Invalid variable ", &name, ": expected digits after underscore"));
            }
            let name_chars = crate::text::slice_of(&cs, i, j);
            let name = string_of(&name_chars);
            let ghost v = Tok::Var(s@.subrange(i as int, j as int));
            tokens.push(Token::Var(name));
            proof {
                assert(toks_of(tokens@) =~= t0 + seq![v]);
                match lex(s@, j as int) { Some(r) => { assert(t0 + (seq![v] + r) =~= (t0 + seq![v]) + r); }, None => {} }
            }
            i = j;
        } else {
            let bad = crate::text::slice_of(&cs, i, i + 1);
            return Err(quoting("Unexpected character in input: ", &bad, ""));
        }
    }
    assert(toks_of(tokens@) + Seq::<Tok>::empty() =~= toks_of(tokens@));
    Ok(tokens)
}

/// The formula that starts at token `pos`, and the position after it.
pub open spec fn parse_from(t: Seq<Tok>, pos: int) -> Option<(Formula, int)>
    decreases t.len() - pos,
{
    if pos < 0 || pos >= t.len() {
        None
    } else {
        match t[pos] {
            Tok::Var(name) => Some((Formula::Var(name), pos + 1)),
            Tok::Op(c) => if c == '-' {
                match parse_from(t, pos + 1) {
                    Some((sub, np)) => Some((Formula::Not(Box::new(sub)), np)),
                    None => None,
                }
            } else {
                None
            },
            Tok::RParen => None,
            Tok::LParen => match parse_from(t, pos + 1) {
                None => None,
                Some((left, mid)) => if mid <= pos || mid >= t.len() {
                    None
                } else {
                    match t[mid] {
                        Tok::Op(c) => match op_of(c) {
                            None => None,
                            Some(op) => match parse_from(t, mid + 1) {
                                None => None,
                                Some((right, end)) => if end < t.len() && t[end] is RParen {
                                    Some((Formula::Bin(op, Box::new(left), Box::new(right)), end + 1))
                                } else {
                                    None
                                },
                            },
                        },
                        _ => None,
                    }
                },
            },
        }
    }
}

proof fn lemma_parse_advances(t: Seq<Tok>, pos: int)
    requires
        parse_from(t, pos) is Some,
    ensures
        pos < parse_from(t, pos)->Some_0.1 <= t.len(),
    decreases t.len() - pos,
{
    match t[pos] {
        Tok::Op(c) => {
            lemma_parse_advances(t, pos + 1);
        },
        Tok::LParen => {
            lemma_parse_advances(t, pos + 1);
            let mid = parse_from(t, pos + 1)->Some_0.1;
            lemma_parse_advances(t, mid + 1);
        },
        _ => {},
    }
}

/// Parses the formula at the start of `tokens`; returns it with the number
/// of tokens it took.
pub fn parse_expr(tokens: &Vec<Token>) -> (r: Result<(Ast, usize), String>)
    ensures
        match parse_from(toks_of(tokens@), 0) {
            Some((f, np)) => r is Ok && formula_of(r->Ok_0.0) == f && r->Ok_0.1 == np,
            None => r is Err,
        },
{
    parse_at(tokens, 0)
}

fn parse_at(tokens: &Vec<Token>, pos: usize) -> (r: Result<(Ast, usize), String>)
    ensures
        match parse_from(toks_of(tokens@), pos as int) {
            Some((f, np)) => r is Ok && formula_of(r->Ok_0.0) == f && r->Ok_0.1 == np,
            None => r is Err,
        },
    decreases tokens@.len() - pos,
{
    let ghost t = toks_of(tokens@);
    if pos >= tokens.len() {
        return Err(error_text("Unexpected end of tokens"));
    }
    assert(t[pos as int] == tok_of(tokens@[pos as int]));
    match &tokens[pos] {
        Token::Var(name) => {
            let name2 = name.clone();
            let a = Ast::Var(name2);
            assert(formula_of(a) == Formula::Var(name@));
            Ok((a, pos + 1))
        },
        Token::Op(c) => {
            if *c != '-' {
                let mut sym: Vec<char> = Vec::new();
                sym.push(*c);
                return Err(quoting("Unexpected operator token ", &sym, ""));
            }
            let (sub, np) = parse_at(tokens, pos + 1)?;
            let a = Ast::Not(Box::new(sub));
            Ok((a, np))
        },
        Token::RParen => Err(error_text("Unexpected closing parenthesis")),
        Token::LParen => {
            let (left, mid) = parse_at(tokens, pos + 1)?;
            proof { lemma_parse_advances(t, pos + 1); }
            if mid >= tokens.len() {
                return Err(error_text("Unexpected end, expected operator after left expr"));
            }
            assert(t[mid as int] == tok_of(tokens@[mid as int]));
            let op = match &tokens[mid] {
                Token::Op(c) => *c,
                _ => return Err(error_text("Expected binary operator after left expression")),
            };
            let bop = match BinOp::from_char(op) {
                Some(b) => b,
                None => {
                    let mut sym: Vec<char> = Vec::new();
                    sym.push(op);
                    return Err(quoting("Unknown binary operator ", &sym, ""));
                },
            };
            let (right, end) = parse_at(tokens, mid + 1)?;
            proof { lemma_parse_advances(t, mid + 1); }
            if end >= tokens.len() {
                return Err(error_text("Unexpected end, expected ')'"));
            }
            assert(t[end as int] == tok_of(tokens@[end as int]));
            match &tokens[end] {
                Token::RParen => {
                    let a = Ast::BinOp(bop, Box::new(left), Box::new(right));
                    Ok((a, end + 1))
                },
                _ => Err(error_text("Expected closing ')' after binary expression")),
            }
        },
    }
}

} // verus!
