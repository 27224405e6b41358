//! Syntax trees of Boolean formulas.
use vstd::prelude::*;

verus! {

/// A formula: a variable, a negation, or a binary connective.
#[derive(Debug)]
pub enum Ast {
    Var(String),
    Not(Box<Ast>),
    BinOp(BinOp, Box<Ast>, Box<Ast>),
}

/// The binary connectives and their one-character symbols.
#[derive(Debug, Clone, Copy, PartialEq, Eq, Structural)]
pub enum BinOp {
    Or,
    And,
    Xor,
    Equiv,
    Impl,
    Nand,
    Nor,
}

/// A formula as a mathematical value, variables named by their characters.
pub enum Formula {
    Var(Seq<char>),
    Not(Box<Formula>),
    Bin(BinOp, Box<Formula>, Box<Formula>),
}

/// The formula a syntax tree stands for.
pub open spec fn formula_of(a: Ast) -> Formula
    decreases a,
{
    match a {
        Ast::Var(name) => Formula::Var(name@),
        Ast::Not(x) => Formula::Not(Box::new(formula_of(*x))),
        Ast::BinOp(op, l, r) => Formula::Bin(op, Box::new(formula_of(*l)), Box::new(formula_of(*r))),
    }
}

/// The connective written `c`.
pub open spec fn op_of(c: char) -> Option<BinOp> {
    if c == '+' {
        Some(BinOp::Or)
    } else if c == '&' {
        Some(BinOp::And)
    } else if c == '@' {
        Some(BinOp::Xor)
    } else if c == '~' {
        Some(BinOp::Equiv)
    } else if c == '>' {
        Some(BinOp::Impl)
    } else if c == '|' {
        Some(BinOp::Nand)
    } else if c == '!' {
        Some(BinOp::Nor)
    } else {
        None
    }
}

/// The symbol of a connective.
pub open spec fn symbol(op: BinOp) -> char {
    match op {
        BinOp::Or => '+',
        BinOp::And => '&',
        BinOp::Xor => '@',
        BinOp::Equiv => '~',
        BinOp::Impl => '>',
        BinOp::Nand => '|',
        BinOp::Nor => '!',
    }
}

/// The value of `a op b`.
pub open spec fn apply(op: BinOp, a: bool, b: bool) -> bool {
    match op {
        BinOp::Or => a || b,
        BinOp::And => a && b,
        BinOp::Xor => a != b,
        BinOp::Equiv => a == b,
        BinOp::Impl => !a || b,
        BinOp::Nand => !(a && b),
        BinOp::Nor => !(a || b),
    }
}

impl BinOp {
    pub fn from_char(c: char) -> (r: Option<BinOp>)
        ensures
            r == op_of(c),
    {
        match c {
            '+' => Some(BinOp::Or),
            '&' => Some(BinOp::And),
            '@' => Some(BinOp::Xor),
            '~' => Some(BinOp::Equiv),
            '>' => Some(BinOp::Impl),
            '|' => Some(BinOp::Nand),
            '!' => Some(BinOp::Nor),
            _ => None,
        }
    }

    pub fn to_str(self) -> (r: &'static str)
        ensures
            r@ == seq![symbol(self)],
    {
        match self {
            BinOp::Or => {
                proof { reveal_strlit("+"); }
                "+"
            },
            BinOp::And => {
                proof { reveal_strlit("&"); }
                "&"
            },
            BinOp::Xor => {
                proof { reveal_strlit("@"); }
                "@"
            },
            BinOp::Equiv => {
                proof { reveal_strlit("~"); }
                "~"
            },
            BinOp::Impl => {
                proof { reveal_strlit(">"); }
                ">"
            },
            BinOp::Nand => {
                proof { reveal_strlit("|"); }
                "|"
            },
            BinOp::Nor => {
                proof { reveal_strlit("!"); }
                "!"
            },
        }
    }
}

} // verus!
