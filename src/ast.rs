//! The syntax tree of a pattern, its errors, and their mathematical values.
use vstd::prelude::*;

verus! {

/// Why a pattern was rejected.
#[derive(Debug, PartialEq, Eq, Structural, Clone, Copy)]
pub enum ParseError {
    /// The character at the position follows a backslash but cannot be escaped.
    InvalidEscape(usize, char),
    /// A quantifier at the position has nothing before it to apply to.
    NoPrev(usize),
    /// An opening parenthesis is never closed.
    NoRightParen,
    /// The pattern, a group or an alternative holds no atom.
    Empty,
    /// A closing parenthesis at the position has no opening one to match.
    NoLeftParen(usize),
    /// The pattern ends in the backslash at the position.
    TrailingEscape(usize),
}

/// The syntax tree of a pattern.
#[derive(Debug, PartialEq, Eq)]
pub enum AST {
    Char(char),
    Plus(Box<AST>),
    Star(Box<AST>),
    Question(Box<AST>),
    Or(Box<AST>, Box<AST>),
    Sequence(Vec<AST>),
}

/// The mathematical value of a syntax tree.
pub enum Term {
    Char(char),
    Plus(Box<Term>),
    Star(Box<Term>),
    Question(Box<Term>),
    Or(Box<Term>, Box<Term>),
    Sequence(Seq<Term>),
}

impl AST {
    pub open spec fn view(&self) -> Term
        decreases self,
    {
        match self {
            AST::Char(c) => Term::Char(*c),
            AST::Plus(a) => Term::Plus(Box::new(a.view())),
            AST::Star(a) => Term::Star(Box::new(a.view())),
            AST::Question(a) => Term::Question(Box::new(a.view())),
            AST::Or(a, b) => Term::Or(Box::new(a.view()), Box::new(b.view())),
            AST::Sequence(v) => Term::Sequence(
                Seq::new(
                    v.len() as nat,
                    |i: int|
                        if 0 <= i < v.len() {
                            v[i].view()
                        } else {
                            Term::Char('a')
                        },
                ),
            ),
        }
    }
}

/// The terms of a list of syntax trees.
pub open spec fn views(v: Seq<AST>) -> Seq<Term> {
    v.map_values(|a: AST| a@)
}

} // verus!
