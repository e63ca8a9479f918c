//! The query AST: field comparators, per-field predicates, and the node
//! tree the parser produces.

use vstd::prelude::*;

verus! {

use crate::strutil::{
    chars_of,
    contains_chars,
    digits_val,
    eq_chars,
    has_substring,
    is_usize_digits,
    lex_lt,
    lex_lt_chars,
};

/// How a predicate compares a datum field against its operand.
#[derive(Debug, Clone, Copy, PartialEq, Eq, Structural)]
pub enum Comparator {
    Contains,
    Equal,
    Greater,
    GreaterOrEqual,
    Less,
    LessOrEqual,
}

/// What a comparator means on integer fields.  `Contains` is a structural
/// marker on integer fields and never holds at runtime.
pub open spec fn int_test(c: Comparator, left: int, right: int) -> bool {
    match c {
        Comparator::Contains => false,
        Comparator::Equal => left == right,
        Comparator::Greater => left > right,
        Comparator::GreaterOrEqual => left >= right,
        Comparator::Less => left < right,
        Comparator::LessOrEqual => left <= right,
    }
}

/// What a comparator means on string fields; ordering is lexicographic by
/// code point.
pub open spec fn str_test(c: Comparator, left: Seq<char>, right: Seq<char>) -> bool {
    match c {
        Comparator::Contains => has_substring(left, right),
        Comparator::Equal => left == right,
        Comparator::Greater => lex_lt(right, left),
        Comparator::GreaterOrEqual => !lex_lt(left, right),
        Comparator::Less => lex_lt(left, right),
        Comparator::LessOrEqual => !lex_lt(right, left),
    }
}

impl Comparator {
    pub fn test_int(&self, left: usize, right: usize) -> (r: bool)
        ensures
            r == int_test(*self, left as int, right as int),
    {
        match *self {
            Comparator::Contains => false,
            Comparator::Equal => left == right,
            Comparator::Greater => left > right,
            Comparator::GreaterOrEqual => left >= right,
            Comparator::Less => left < right,
            Comparator::LessOrEqual => left <= right,
        }
    }

    pub fn test_str(&self, left: &str, right: &str) -> (r: bool)
        ensures
            r == str_test(*self, left@, right@),
    {
        let l = chars_of(left);
        let r = chars_of(right);
        match *self {
            Comparator::Contains => contains_chars(&l, &r),
            Comparator::Equal => eq_chars(&l, &r),
            Comparator::Greater => lex_lt_chars(&r, &l),
            Comparator::GreaterOrEqual => !lex_lt_chars(&l, &r),
            Comparator::Less => lex_lt_chars(&l, &r),
            Comparator::LessOrEqual => !lex_lt_chars(&r, &l),
        }
    }
}

/// Up to one predicate per datum field; a missing predicate always holds.
#[derive(Debug, Clone, PartialEq)]
pub struct Predicates {
    pub e: Option<(usize, Comparator)>,
    pub a: Option<(String, Comparator)>,
    pub v: Option<(String, Comparator)>,
    pub t: Option<(usize, Comparator)>,
}

/// The mathematical image of [`Predicates`].
pub struct PredicatesView {
    pub e: Option<(int, Comparator)>,
    pub a: Option<(Seq<char>, Comparator)>,
    pub v: Option<(Seq<char>, Comparator)>,
    pub t: Option<(int, Comparator)>,
}

impl View for Predicates {
    type V = PredicatesView;

    open spec fn view(&self) -> PredicatesView {
        PredicatesView {
            e: match self.e {
                Some((n, c)) => Some((n as int, c)),
                None => None,
            },
            a: match self.a {
                Some((s, c)) => Some((s@, c)),
                None => None,
            },
            v: match self.v {
                Some((s, c)) => Some((s@, c)),
                None => None,
            },
            t: match self.t {
                Some((n, c)) => Some((n as int, c)),
                None => None,
            },
        }
    }
}

impl Predicates {
    pub fn new(
        e: Option<(usize, Comparator)>,
        a: Option<(String, Comparator)>,
        v: Option<(String, Comparator)>,
        t: Option<(usize, Comparator)>,
    ) -> (p: Predicates)
        ensures
            p.e == e,
            p.a == a,
            p.v == v,
            p.t == t,
    {
        Predicates { e, a, v, t }
    }

    /// A copy whose image equals this one's.
    pub fn duplicate(&self) -> (p: Predicates)
        ensures
            p@ == self@,
    {
        let a = match &self.a {
            Some((s, c)) => Some((s.clone(), *c)),
            None => None,
        };
        let v = match &self.v {
            Some((s, c)) => Some((s.clone(), *c)),
            None => None,
        };
        Predicates { e: self.e, a, v, t: self.t }
    }
}

/// A parsed query.  `CachedJoin` appears only in expanded evaluation steps,
/// never in parser output: its entity test is membership in an earlier
/// step's cached entity-id list.
#[derive(Debug, PartialEq)]
pub enum AstNode {
    True,
    Or(Box<AstNode>, Box<AstNode>),
    Expression(Predicates),
    Join(Predicates, Box<AstNode>),
    CachedJoin(Predicates, usize),
}

/// The mathematical image of an [`AstNode`].
pub enum AstView {
    True,
    Or(Box<AstView>, Box<AstView>),
    Expression(PredicatesView),
    Join(PredicatesView, Box<AstView>),
    CachedJoin(PredicatesView, int),
}

impl View for AstNode {
    type V = AstView;

    open spec fn view(&self) -> AstView
        decreases self,
    {
        match self {
            AstNode::True => AstView::True,
            AstNode::Or(l, r) => AstView::Or(Box::new((**l)@), Box::new((**r)@)),
            AstNode::Expression(p) => AstView::Expression(p@),
            AstNode::Join(p, c) => AstView::Join(p@, Box::new((**c)@)),
            AstNode::CachedJoin(p, i) => AstView::CachedJoin(p@, *i as int),
        }
    }
}

} // verus!
