//! The query-text parser.
//!
//! Queries are tokenized into parentheses, pipes and words, then parsed by
//! recursive descent:
//!
//! ```text
//! query    := or_expr | <empty>                 -- empty means True
//! or_expr  := and_expr ('|' and_expr)*          -- folded to the left
//! and_expr := pred+
//! pred     := <field><op><value>                -- one word, e.g. "a>=foo"
//!           | "e:" '(' or_expr ')'              -- a join sub-query
//! ```
//!
//! Fields are `e a v t`; operators are `= > >= < <= :`; a value is a run
//! of characters other than space, parentheses and `'|'`.  Fields `e` and
//! `t` take non-negative integers (except that `e:` introduces a join);
//! repeated predicates for one field keep the last occurrence.  The
//! executable parser is proved equal to the specification-level parser
//! [`spec_parse`].

use vstd::prelude::*;

verus! {

use crate::ast::{AstNode, AstView, Comparator, Predicates, PredicatesView};
use crate::strutil::{chars_of, digits_val, is_usize_digits, parse_usize_chars, string_from_chars};

/// A character that may appear in a word token.
pub open spec fn is_word_char(c: char) -> bool {
    c != ' ' && c != '(' && c != ')' && c != '|'
}

/// The number of leading word characters.
pub open spec fn word_len(s: Seq<char>) -> nat
    decreases s.len(),
{
    if s.len() == 0 || !is_word_char(s[0]) {
        0
    } else {
        1 + word_len(s.drop_first())
    }
}

proof fn lemma_word_len_is_boundary(s: Seq<char>, m: int)
    requires
        0 <= m <= s.len(),
        forall|j: int| 0 <= j < m ==> is_word_char(#[trigger] s[j]),
        m == s.len() || !is_word_char(s[m]),
    ensures
        word_len(s) == m,
    decreases m,
{
    if m == 0 {
    } else {
        lemma_word_len_is_boundary(s.drop_first(), m - 1);
    }
}

/// One query token.
#[derive(Debug, PartialEq)]
pub enum Token {
    LParen,
    RParen,
    Pipe,
    Word(Vec<char>),
}

/// The mathematical image of a [`Token`].
pub enum TokenView {
    LParen,
    RParen,
    Pipe,
    Word(Seq<char>),
}

impl View for Token {
    type V = TokenView;

    open spec fn view(&self) -> TokenView {
        match self {
            Token::LParen => TokenView::LParen,
            Token::RParen => TokenView::RParen,
            Token::Pipe => TokenView::Pipe,
            Token::Word(w) => TokenView::Word(w@),
        }
    }
}

/// The text a token stands for, used in parse errors.
pub open spec fn token_text(t: TokenView) -> Seq<char> {
    match t {
        TokenView::LParen => seq!['('],
        TokenView::RParen => seq![')'],
        TokenView::Pipe => seq!['|'],
        TokenView::Word(w) => w,
    }
}

/// Split query text into tokens; spaces only separate.
pub open spec fn spec_tokenize(s: Seq<char>) -> Seq<TokenView>
    decreases s.len(),
    via spec_tokenize_decreases
{
    if s.len() == 0 {
        Seq::empty()
    } else if s[0] == ' ' {
        spec_tokenize(s.drop_first())
    } else if s[0] == '(' {
        seq![TokenView::LParen] + spec_tokenize(s.drop_first())
    } else if s[0] == ')' {
        seq![TokenView::RParen] + spec_tokenize(s.drop_first())
    } else if s[0] == '|' {
        seq![TokenView::Pipe] + spec_tokenize(s.drop_first())
    } else {
        seq![TokenView::Word(s.take(word_len(s) as int))] + spec_tokenize(
            s.skip(word_len(s) as int),
        )
    }
}

proof fn lemma_word_len_le(s: Seq<char>)
    ensures
        word_len(s) <= s.len(),
    decreases s.len(),
{
    if s.len() > 0 && is_word_char(s[0]) {
        lemma_word_len_le(s.drop_first());
    }
}

#[via_fn]
proof fn spec_tokenize_decreases(s: Seq<char>) {
    if s.len() > 0 && s[0] != ' ' && s[0] != '(' && s[0] != ')' && s[0] != '|' {
        assert(is_word_char(s[0]));
        assert(word_len(s) >= 1);
        lemma_word_len_le(s);
    }
}

/// The views of a token vector.
pub open spec fn token_views(toks: Seq<Token>) -> Seq<TokenView> {
    toks.map_values(|t: Token| t@)
}

fn is_word_char_exec(c: char) -> (r: bool)
    ensures
        r == is_word_char(c),
{
    c != ' ' && c != '(' && c != ')' && c != '|'
}

/// Tokenize query text.
pub fn tokenize(s: &Vec<char>) -> (r: Vec<Token>)
    ensures
        token_views(r@) == spec_tokenize(s@),
{
    let mut out: Vec<Token> = Vec::new();
    let mut i: usize = 0;
    proof {
        assert(s@.skip(0) =~= s@);
        assert(token_views(out@) + spec_tokenize(s@.skip(0)) =~= spec_tokenize(s@));
    }
    while i < s.len()
        invariant
            i <= s.len(),
            token_views(out@) + spec_tokenize(s@.skip(i as int)) == spec_tokenize(s@),
        decreases s.len() - i,
    {
        let c = s[i];
        let ghost rest = s@.skip(i as int);
        proof {
            assert(rest[0] == s@[i as int]);
            assert(rest.drop_first() =~= s@.skip(i + 1));
        }
        if c == ' ' {
            i = i + 1;
        } else if c == '(' {
            out.push(Token::LParen);
            proof {
                assert(token_views(out@) =~= token_views(out@.drop_last()) + seq![
                    TokenView::LParen,
                ]);
                assert(token_views(out@) + spec_tokenize(s@.skip(i + 1)) =~= spec_tokenize(s@));
            }
            i = i + 1;
        } else if c == ')' {
            out.push(Token::RParen);
            proof {
                assert(token_views(out@) =~= token_views(out@.drop_last()) + seq![
                    TokenView::RParen,
                ]);
                assert(token_views(out@) + spec_tokenize(s@.skip(i + 1)) =~= spec_tokenize(s@));
            }
            i = i + 1;
        } else if c == '|' {
            out.push(Token::Pipe);
            proof {
                assert(token_views(out@) =~= token_views(out@.drop_last()) + seq![TokenView::Pipe]);
                assert(token_views(out@) + spec_tokenize(s@.skip(i + 1)) =~= spec_tokenize(s@));
            }
            i = i + 1;
        } else {
            // A word token: collect the maximal run of word characters.
            let mut w: Vec<char> = Vec::new();
            let mut k: usize = i;
            proof {
                assert(w@ =~= s@.subrange(i as int, i as int));
            }
            while k < s.len() && is_word_char_exec(s[k])
                invariant
                    i <= k <= s.len(),
                    w@ == s@.subrange(i as int, k as int),
                    forall|j: int| i <= j < k ==> is_word_char(#[trigger] s@[j]),
                decreases s.len() - k,
            {
                w.push(s[k]);
                proof {
                    assert(w@ =~= s@.subrange(i as int, k + 1));
                }
                k = k + 1;
            }
            proof {
                assert(k == s.len() || !is_word_char(s@[k as int]));
                assert forall|j: int| 0 <= j < k - i implies is_word_char(#[trigger] rest[j]) by {
                    assert(rest[j] == s@[i + j]);
                }
                assert(k - i == rest.len() || !is_word_char(rest[k - i]));
                lemma_word_len_is_boundary(rest, k - i);
                assert(rest.take(k - i) =~= s@.subrange(i as int, k as int));
                assert(rest.skip(k - i) =~= s@.skip(k as int));
                assert(is_word_char(rest[0]));
            }
            out.push(Token::Word(w));
            proof {
                assert(token_views(out@) =~= token_views(out@.drop_last()) + seq![
                    TokenView::Word(s@.subrange(i as int, k as int)),
                ]);
                assert(token_views(out@) + spec_tokenize(s@.skip(k as int)) =~= spec_tokenize(s@));
            }
            i = k;
        }
    }
    proof {
        assert(s@.skip(i as int) =~= Seq::<char>::empty());
        assert(token_views(out@) =~= token_views(out@) + spec_tokenize(s@.skip(i as int)));
    }
    out
}

/// A structured parse error: the offending token's text (empty when the
/// query ended too early).
#[derive(Debug, PartialEq)]
pub struct ParseError {
    pub token: String,
}

impl View for ParseError {
    type V = Seq<char>;

    open spec fn view(&self) -> Seq<char> {
        self.token@
    }
}

/// One parsed field predicate.
pub enum PredEntry {
    EInt(usize, Comparator),
    EJoin(Box<AstNode>),
    AStr(String, Comparator),
    VStr(String, Comparator),
    TInt(usize, Comparator),
}

/// The mathematical image of a [`PredEntry`].
pub enum PredEntryView {
    EInt(int, Comparator),
    EJoin(Box<AstView>),
    AStr(Seq<char>, Comparator),
    VStr(Seq<char>, Comparator),
    TInt(int, Comparator),
}

impl View for PredEntry {
    type V = PredEntryView;

    open spec fn view(&self) -> PredEntryView {
        match self {
            PredEntry::EInt(n, c) => PredEntryView::EInt(*n as int, *c),
            PredEntry::EJoin(a) => PredEntryView::EJoin(Box::new((**a)@)),
            PredEntry::AStr(s, c) => PredEntryView::AStr(s@, *c),
            PredEntry::VStr(s, c) => PredEntryView::VStr(s@, *c),
            PredEntry::TInt(n, c) => PredEntryView::TInt(*n as int, *c),
        }
    }
}

/// The predicates gathered so far while reading one conjunction.
pub struct Accum {
    pub e: Option<(usize, Comparator)>,
    pub a: Option<(String, Comparator)>,
    pub v: Option<(String, Comparator)>,
    pub t: Option<(usize, Comparator)>,
    pub child: Option<AstNode>,
}

/// The mathematical image of an [`Accum`].
pub struct AccumView {
    pub e: Option<(int, Comparator)>,
    pub a: Option<(Seq<char>, Comparator)>,
    pub v: Option<(Seq<char>, Comparator)>,
    pub t: Option<(int, Comparator)>,
    pub child: Option<AstView>,
}

impl View for Accum {
    type V = AccumView;

    open spec fn view(&self) -> AccumView {
        AccumView {
            e: match self.e {
                Some((n, c)) => Some((n as int, c)),
                None => None,
            },
            a: match self.a {
                Some((s, c)) => Some((s@, c)),
                None => None,
            },
            v: match self.v {
                Some((s, c)) => Some((s@, c)),
                None => None,
            },
            t: match self.t {
                Some((n, c)) => Some((n as int, c)),
                None => None,
            },
            child: match self.child {
                Some(a) => Some(a@),
                None => None,
            },
        }
    }
}

/// No predicates seen yet.
pub open spec fn acc_init() -> AccumView {
    AccumView { e: None, a: None, v: None, t: None, child: None }
}

/// Record one predicate; a repeated field keeps the later occurrence.  An
/// entity predicate written as a join binds the sub-query; a plain entity
/// predicate overwrites the entity test but keeps an earlier sub-query.
pub open spec fn acc_apply(acc: AccumView, en: PredEntryView) -> AccumView {
    match en {
        PredEntryView::EInt(n, c) => AccumView { e: Some((n, c)), ..acc },
        PredEntryView::EJoin(a) => AccumView {
            e: Some((0, Comparator::Contains)),
            child: Some(*a),
            ..acc
        },
        PredEntryView::AStr(s, c) => AccumView { a: Some((s, c)), ..acc },
        PredEntryView::VStr(s, c) => AccumView { v: Some((s, c)), ..acc },
        PredEntryView::TInt(n, c) => AccumView { t: Some((n, c)), ..acc },
    }
}

/// Close a conjunction: a join when a sub-query was bound, else a plain
/// expression.
pub open spec fn acc_finish(acc: AccumView) -> AstView {
    let p = PredicatesView { e: acc.e, a: acc.a, v: acc.v, t: acc.t };
    match acc.child {
        Some(c) => AstView::Join(p, Box::new(c)),
        None => AstView::Expression(p),
    }
}

/// A gathered sub-query, if any, is well formed.
pub open spec fn acc_wf(acc: AccumView) -> bool {
    match acc.child {
        Some(c) => crate::filter::wf_query(c),
        None => true,
    }
}

/// A parsed predicate's sub-query, if any, is well formed.
pub open spec fn entry_wf(en: PredEntryView) -> bool {
    match en {
        PredEntryView::EJoin(c) => crate::filter::wf_query(*c),
        _ => true,
    }
}

/// The comparator written at position 1 of a predicate word, and where
/// the value starts.
pub open spec fn spec_op(w: Seq<char>) -> Option<(Comparator, int)> {
    if w.len() < 2 {
        None
    } else if w[1] == ':' {
        Some((Comparator::Contains, 2))
    } else if w[1] == '=' {
        Some((Comparator::Equal, 2))
    } else if w[1] == '>' {
        if w.len() >= 3 && w[2] == '=' {
            Some((Comparator::GreaterOrEqual, 3))
        } else {
            Some((Comparator::Greater, 2))
        }
    } else if w[1] == '<' {
        if w.len() >= 3 && w[2] == '=' {
            Some((Comparator::LessOrEqual, 3))
        } else {
            Some((Comparator::Less, 2))
        }
    } else {
        None
    }
}

/// Read one predicate word: field, comparator, value.  Entity and time
/// values must be decimal integers that fit a `usize`; an entity
/// "contains" predicate is only valid as a parenthesised join, never with
/// a plain value.
pub open spec fn spec_word_entry(w: Seq<char>) -> Result<PredEntryView, Seq<char>> {
    if w.len() < 1 || !(w[0] == 'e' || w[0] == 'a' || w[0] == 'v' || w[0] == 't') {
        Err(w)
    } else {
        match spec_op(w) {
            None => Err(w),
            Some((comp, vs)) => {
                let val = w.skip(vs);
                if val.len() == 0 {
                    Err(w)
                } else if w[0] == 'a' {
                    Ok(PredEntryView::AStr(val, comp))
                } else if w[0] == 'v' {
                    Ok(PredEntryView::VStr(val, comp))
                } else if w[0] == 'e' && comp == Comparator::Contains {
                    Err(w)
                } else if is_usize_digits(val) {
                    if w[0] == 'e' {
                        Ok(PredEntryView::EInt(digits_val(val), comp))
                    } else {
                        Ok(PredEntryView::TInt(digits_val(val), comp))
                    }
                } else {
                    Err(w)
                }
            }
        }
    }
}

/// Clamp a continuation position into `[lo, hi]`.
pub open spec fn clamp_pos(j: int, lo: int, hi: int) -> int {
    if j < lo {
        lo
    } else if j > hi {
        hi
    } else {
        j
    }
}

/// Parse one predicate at token position `i`: either a join head
/// `e:` `(` or_expr `)`, or a single predicate word.
pub open spec fn spec_pred(toks: Seq<TokenView>, i: int) -> Result<
    (PredEntryView, int),
    Seq<char>,
>
    decreases toks.len() - i, 0int,
{
    if i < 0 || i >= toks.len() {
        Err(Seq::<char>::empty())
    } else {
        match toks[i] {
            TokenView::Word(w) => {
                if w == seq!['e', ':'] && i + 1 < toks.len() && toks[i + 1] is LParen {
                    match spec_or_expr(toks, i + 2) {
                        Err(e) => Err(e),
                        Ok((c, j)) => {
                            if 0 <= j < toks.len() && toks[j] is RParen {
                                Ok((PredEntryView::EJoin(Box::new(c)), j + 1))
                            } else if 0 <= j < toks.len() {
                                Err(token_text(toks[j]))
                            } else {
                                Err(Seq::<char>::empty())
                            }
                        }
                    }
                } else {
                    match spec_word_entry(w) {
                        Err(e) => Err(e),
                        Ok(en) => Ok((en, i + 1)),
                    }
                }
            }
            _ => Err(token_text(toks[i])),
        }
    }
}

/// Parse the remaining predicates of a conjunction.
pub open spec fn spec_and_rest(toks: Seq<TokenView>, i: int, acc: AccumView) -> Result<
    (AstView, int),
    Seq<char>,
>
    decreases toks.len() - i, 1int,
{
    if 0 <= i < toks.len() && toks[i] is Word {
        match spec_pred(toks, i) {
            Err(e) => Err(e),
            Ok((en, j0)) => spec_and_rest(
                toks,
                clamp_pos(j0, i + 1, toks.len() as int),
                acc_apply(acc, en),
            ),
        }
    } else {
        Ok((acc_finish(acc), i))
    }
}

/// Parse a conjunction: one or more predicates.
pub open spec fn spec_and_expr(toks: Seq<TokenView>, i: int) -> Result<(AstView, int), Seq<char>>
    decreases toks.len() - i, 2int,
{
    if i < 0 || i >= toks.len() {
        Err(Seq::<char>::empty())
    } else {
        match spec_pred(toks, i) {
            Err(e) => Err(e),
            Ok((en, j0)) => spec_and_rest(
                toks,
                clamp_pos(j0, i + 1, toks.len() as int),
                acc_apply(acc_init(), en),
            ),
        }
    }
}

/// Parse the remaining `'|' and_expr` branches, folding to the left.
pub open spec fn spec_or_rest(toks: Seq<TokenView>, i: int, acc: AstView) -> Result<
    (AstView, int),
    Seq<char>,
>
    decreases toks.len() - i, 3int,
{
    if 0 <= i < toks.len() && toks[i] is Pipe {
        match spec_and_expr(toks, i + 1) {
            Err(e) => Err(e),
            Ok((b, k0)) => spec_or_rest(
                toks,
                clamp_pos(k0, i + 1, toks.len() as int),
                AstView::Or(Box::new(acc), Box::new(b)),
            ),
        }
    } else {
        Ok((acc, i))
    }
}

/// Parse a disjunction of conjunctions.
pub open spec fn spec_or_expr(toks: Seq<TokenView>, i: int) -> Result<(AstView, int), Seq<char>>
    decreases toks.len() - i, 4int,
{
    if i < 0 || i >= toks.len() {
        Err(Seq::<char>::empty())
    } else {
        match spec_and_expr(toks, i) {
            Err(e) => Err(e),
            Ok((a, j0)) => spec_or_rest(toks, clamp_pos(j0, i + 1, toks.len() as int), a),
        }
    }
}

/// Parsing is a pure function of the query text: equal inputs yield
/// equal results, and [`AstNode::parse`]'s contract pins its result to
/// [`spec_parse`] of the input.
pub proof fn lemma_parse_pure(a: Seq<char>, b: Seq<char>)
    requires
        a == b,
    ensures
        spec_parse(a) == spec_parse(b),
{
}

/// The meaning of query text: `True` for an all-space query, else the
/// parsed disjunction, which must consume every token.
pub open spec fn spec_parse(s: Seq<char>) -> Result<AstView, Seq<char>> {
    let toks = spec_tokenize(s);
    if toks.len() == 0 {
        Ok(AstView::True)
    } else {
        match spec_or_expr(toks, 0) {
            Err(e) => Err(e),
            Ok((a, j)) => {
                if j == toks.len() {
                    Ok(a)
                } else if 0 <= j < toks.len() {
                    Err(token_text(toks[j]))
                } else {
                    Err(Seq::<char>::empty())
                }
            }
        }
    }
}

/// The text a token stands for, as an owned string.
fn token_string(t: &Token) -> (s: String)
    ensures
        s@ == token_text(t@),
{
    match t {
        Token::LParen => {
            let mut v: Vec<char> = Vec::new();
            v.push('(');
            proof {
                assert(v@ =~= seq!['(']);
            }
            string_from_chars(&v)
        }
        Token::RParen => {
            let mut v: Vec<char> = Vec::new();
            v.push(')');
            proof {
                assert(v@ =~= seq![')']);
            }
            string_from_chars(&v)
        }
        Token::Pipe => {
            let mut v: Vec<char> = Vec::new();
            v.push('|');
            proof {
                assert(v@ =~= seq!['|']);
            }
            string_from_chars(&v)
        }
        Token::Word(w) => string_from_chars(w),
    }
}

/// No predicates seen yet.
fn empty_accum() -> (r: Accum)
    ensures
        r@ == acc_init(),
{
    Accum { e: None, a: None, v: None, t: None, child: None }
}

/// Record one parsed predicate.
fn apply_entry(acc: Accum, en: PredEntry) -> (r: Accum)
    ensures
        r@ == acc_apply(acc@, en@),
        acc_wf(acc@) && entry_wf(en@) ==> acc_wf(r@),
{
    match en {
        PredEntry::EInt(n, c) => Accum { e: Some((n, c)), ..acc },
        PredEntry::EJoin(a) => Accum {
            e: Some((0, Comparator::Contains)),
            child: Some(*a),
            ..acc
        },
        PredEntry::AStr(s, c) => Accum { a: Some((s, c)), ..acc },
        PredEntry::VStr(s, c) => Accum { v: Some((s, c)), ..acc },
        PredEntry::TInt(n, c) => Accum { t: Some((n, c)), ..acc },
    }
}

/// Close a conjunction into an AST node.
fn finish_accum(acc: Accum) -> (r: AstNode)
    ensures
        r@ == acc_finish(acc@),
        acc_wf(acc@) ==> crate::filter::wf_query(r@),
{
    let Accum { e, a, v, t, child } = acc;
    let p = Predicates { e, a, v, t };
    match child {
        Some(c) => AstNode::Join(p, Box::new(c)),
        None => AstNode::Expression(p),
    }
}

/// Read one predicate word.
fn word_entry(w: &Vec<char>) -> (r: Result<PredEntry, ParseError>)
    ensures
        match r {
            Ok(en) => spec_word_entry(w@) == Ok::<PredEntryView, Seq<char>>(en@) && entry_wf(en@),
            Err(pe) => spec_word_entry(w@) == Err::<PredEntryView, Seq<char>>(pe@),
        },
{
    if w.len() < 2 {
        return Err(ParseError { token: string_from_chars(w) });
    }
    let f = w[0];
    if !(f == 'e' || f == 'a' || f == 'v' || f == 't') {
        return Err(ParseError { token: string_from_chars(w) });
    }
    let c1 = w[1];
    if !(c1 == ':' || c1 == '=' || c1 == '>' || c1 == '<') {
        return Err(ParseError { token: string_from_chars(w) });
    }
    let wide = w.len() >= 3 && (c1 == '>' || c1 == '<') && w[2] == '=';
    let comp: Comparator = if c1 == ':' {
        Comparator::Contains
    } else if c1 == '=' {
        Comparator::Equal
    } else if c1 == '>' {
        if wide {
            Comparator::GreaterOrEqual
        } else {
            Comparator::Greater
        }
    } else {
        if wide {
            Comparator::LessOrEqual
        } else {
            Comparator::Less
        }
    };
    let vs: usize = if wide {
        3
    } else {
        2
    };
    proof {
        assert(spec_op(w@) == Some((comp, vs as int)));
    }
    let mut val: Vec<char> = Vec::new();
    let mut k: usize = vs;
    proof {
        assert(val@ =~= w@.subrange(vs as int, vs as int));
    }
    while k < w.len()
        invariant
            vs <= k <= w.len(),
            val@ == w@.subrange(vs as int, k as int),
        decreases w.len() - k,
    {
        val.push(w[k]);
        proof {
            assert(val@ =~= w@.subrange(vs as int, k + 1));
        }
        k = k + 1;
    }
    proof {
        assert(val@ =~= w@.skip(vs as int));
    }
    if val.len() == 0 {
        return Err(ParseError { token: string_from_chars(w) });
    }
    if f == 'a' {
        return Ok(PredEntry::AStr(string_from_chars(&val), comp));
    }
    if f == 'v' {
        return Ok(PredEntry::VStr(string_from_chars(&val), comp));
    }
    if f == 'e' && comp == Comparator::Contains {
        return Err(ParseError { token: string_from_chars(w) });
    }
    match parse_usize_chars(&val) {
        Some(n) => {
            if f == 'e' {
                Ok(PredEntry::EInt(n, comp))
            } else {
                Ok(PredEntry::TInt(n, comp))
            }
        }
        None => Err(ParseError { token: string_from_chars(w) }),
    }
}

/// Parse one predicate at token position `i`.
fn parse_pred(toks: &Vec<Token>, i: usize) -> (r: Result<(PredEntry, usize), ParseError>)
    requires
        i <= toks.len(),
    ensures
        match r {
            Ok((en, j)) => spec_pred(token_views(toks@), i as int) == Ok::<
                (PredEntryView, int),
                Seq<char>,
            >((en@, j as int)) && i < j <= toks.len() && entry_wf(en@),
            Err(pe) => spec_pred(token_views(toks@), i as int) == Err::<
                (PredEntryView, int),
                Seq<char>,
            >(pe@),
        },
    decreases toks.len() - i, 0int,
{
    let ghost tv = token_views(toks@);
    if i >= toks.len() {
        let s = String::new();
        proof {
            assert(s@ =~= Seq::<char>::empty());
        }
        return Err(ParseError { token: s });
    }
    proof {
        assert(tv[i as int] == toks@[i as int]@);
    }
    match &toks[i] {
        Token::Word(w) => {
            let is_join = w.len() == 2 && w[0] == 'e' && w[1] == ':';
            proof {
                if is_join {
                    assert(w@ =~= seq!['e', ':']);
                } else {
                    assert(w@ != seq!['e', ':']) by {
                        if w@ == seq!['e', ':'] {
                            assert(w@.len() == 2 && w@[0] == 'e' && w@[1] == ':');
                        }
                    }
                }
            }
            let next_lparen: bool = if i + 1 < toks.len() {
                proof {
                    assert(tv[i as int + 1] == toks@[i as int + 1]@);
                }
                match &toks[i + 1] {
                    Token::LParen => true,
                    _ => false,
                }
            } else {
                false
            };
            if is_join && next_lparen {
                match parse_or_expr(toks, i + 2) {
                    Err(e) => Err(e),
                    Ok((c, j)) => {
                        if j < toks.len() {
                            proof {
                                assert(tv[j as int] == toks@[j as int]@);
                            }
                            match &toks[j] {
                                Token::RParen => Ok((PredEntry::EJoin(Box::new(c)), j + 1)),
                                _ => Err(ParseError { token: token_string(&toks[j]) }),
                            }
                        } else {
                            let s = String::new();
                            proof {
                                assert(s@ =~= Seq::<char>::empty());
                            }
                            Err(ParseError { token: s })
                        }
                    }
                }
            } else {
                match word_entry(w) {
                    Ok(en) => Ok((en, i + 1)),
                    Err(e) => Err(e),
                }
            }
        }
        _ => Err(ParseError { token: token_string(&toks[i]) }),
    }
}

/// Parse a conjunction: one or more predicates, later fields overriding
/// earlier ones.
fn parse_and_expr(toks: &Vec<Token>, i: usize) -> (r: Result<(AstNode, usize), ParseError>)
    requires
        i <= toks.len(),
    ensures
        match r {
            Ok((ast, j)) => spec_and_expr(token_views(toks@), i as int) == Ok::<
                (AstView, int),
                Seq<char>,
            >((ast@, j as int)) && i < j <= toks.len() && crate::filter::wf_query(ast@),
            Err(pe) => spec_and_expr(token_views(toks@), i as int) == Err::<
                (AstView, int),
                Seq<char>,
            >(pe@),
        },
    decreases toks.len() - i, 1int,
{
    let ghost tv = token_views(toks@);
    if i >= toks.len() {
        let s = String::new();
        proof {
            assert(s@ =~= Seq::<char>::empty());
        }
        return Err(ParseError { token: s });
    }
    let (en, j1) = match parse_pred(toks, i) {
        Ok(p) => p,
        Err(e) => {
            return Err(e);
        }
    };
    let mut acc = apply_entry(empty_accum(), en);
    let mut j = j1;
    proof {
        assert(clamp_pos(j1 as int, i as int + 1, toks.len() as int) == j1 as int);
    }
    loop
        invariant
            i < j <= toks.len(),
            i < toks.len(),
            acc_wf(acc@),
            tv == token_views(toks@),
            spec_and_expr(tv, i as int) == spec_and_rest(tv, j as int, acc@),
        ensures
            i < j <= toks.len(),
            acc_wf(acc@),
            spec_and_expr(tv, i as int) == Ok::<(AstView, int), Seq<char>>(
                (acc_finish(acc@), j as int),
            ),
        decreases toks.len() - j,
    {
        if j >= toks.len() {
            break;
        }
        proof {
            assert(tv[j as int] == toks@[j as int]@);
        }
        let is_word = match &toks[j] {
            Token::Word(_) => true,
            _ => false,
        };
        if !is_word {
            break;
        }
        let (en2, k) = match parse_pred(toks, j) {
            Ok(p) => p,
            Err(e) => {
                return Err(e);
            }
        };
        proof {
            assert(clamp_pos(k as int, j as int + 1, toks.len() as int) == k as int);
        }
        acc = apply_entry(acc, en2);
        j = k;
    }
    let ast = finish_accum(acc);
    Ok((ast, j))
}

/// Parse a disjunction of conjunctions, folded to the left.
fn parse_or_expr(toks: &Vec<Token>, i: usize) -> (r: Result<(AstNode, usize), ParseError>)
    requires
        i <= toks.len(),
    ensures
        match r {
            Ok((ast, j)) => spec_or_expr(token_views(toks@), i as int) == Ok::<
                (AstView, int),
                Seq<char>,
            >((ast@, j as int)) && i < j <= toks.len() && crate::filter::wf_query(ast@),
            Err(pe) => spec_or_expr(token_views(toks@), i as int) == Err::<
                (AstView, int),
                Seq<char>,
            >(pe@),
        },
    decreases toks.len() - i, 2int,
{
    let ghost tv = token_views(toks@);
    if i >= toks.len() {
        let s = String::new();
        proof {
            assert(s@ =~= Seq::<char>::empty());
        }
        return Err(ParseError { token: s });
    }
    let (a0, j1) = match parse_and_expr(toks, i) {
        Ok(p) => p,
        Err(e) => {
            return Err(e);
        }
    };
    let mut ast = a0;
    let mut j = j1;
    proof {
        assert(clamp_pos(j1 as int, i as int + 1, toks.len() as int) == j1 as int);
    }
    loop
        invariant
            i < j <= toks.len(),
            i < toks.len(),
            crate::filter::wf_query(ast@),
            tv == token_views(toks@),
            spec_or_expr(tv, i as int) == spec_or_rest(tv, j as int, ast@),
        ensures
            i < j <= toks.len(),
            crate::filter::wf_query(ast@),
            spec_or_expr(tv, i as int) == Ok::<(AstView, int), Seq<char>>((ast@, j as int)),
        decreases toks.len() - j,
    {
        if j >= toks.len() {
            break;
        }
        proof {
            assert(tv[j as int] == toks@[j as int]@);
        }
        let is_pipe = match &toks[j] {
            Token::Pipe => true,
            _ => false,
        };
        if !is_pipe {
            break;
        }
        let (b, k) = match parse_and_expr(toks, j + 1) {
            Ok(p) => p,
            Err(e) => {
                return Err(e);
            }
        };
        proof {
            assert(clamp_pos(k as int, j as int + 1, toks.len() as int) == k as int);
        }
        ast = AstNode::Or(Box::new(ast), Box::new(b));
        j = k;
    }
    Ok((ast, j))
}

/// The image of an optional sub-query.
pub open spec fn opt_ast_view(o: Option<AstNode>) -> Option<AstView> {
    match o {
        Some(a) => Some(a@),
        None => None,
    }
}

/// A raw predicate tuple a grammar layer may hand over: an entity join
/// carries a sub-query, and entity or time values must be fitting decimal
/// numerals.
pub open spec fn raw_pred_ok(t: (String, String, Option<AstNode>, Comparator)) -> bool {
    if t.0@ == seq!['e'] {
        if t.3 == Comparator::Contains {
            t.2 is Some
        } else {
            is_usize_digits(t.1@)
        }
    } else if t.0@ == seq!['t'] {
        is_usize_digits(t.1@)
    } else {
        true
    }
}

/// Record one raw predicate tuple: known field names overwrite their
/// slot, an entity join binds the sub-query, anything else is skipped.
pub open spec fn apply_raw_pred(
    acc: AccumView,
    name: Seq<char>,
    val: Seq<char>,
    sub: Option<AstView>,
    comp: Comparator,
) -> AccumView {
    if name == seq!['e'] {
        if comp == Comparator::Contains {
            AccumView { e: Some((0, comp)), child: sub, ..acc }
        } else {
            AccumView { e: Some((digits_val(val), comp)), ..acc }
        }
    } else if name == seq!['a'] {
        AccumView { a: Some((val, comp)), ..acc }
    } else if name == seq!['v'] {
        AccumView { v: Some((val, comp)), ..acc }
    } else if name == seq!['t'] {
        AccumView { t: Some((digits_val(val), comp)), ..acc }
    } else {
        acc
    }
}

/// Fold raw predicate tuples left to right.
pub open spec fn fold_raw_preds(
    s: Seq<(String, String, Option<AstNode>, Comparator)>,
    acc: AccumView,
) -> AccumView
    decreases s.len(),
{
    if s.len() == 0 {
        acc
    } else {
        fold_raw_preds(
            s.drop_first(),
            apply_raw_pred(acc, s[0].0@, s[0].1@, opt_ast_view(s[0].2), s[0].3),
        )
    }
}

impl AstNode {
    /// Assemble an AST node from raw predicate tuples, one per parsed
    /// predicate: repeated fields keep the last occurrence, and a bound
    /// sub-query turns the node into a join.
    pub fn from_parser(preds: Vec<(String, String, Option<AstNode>, Comparator)>) -> (r: AstNode)
        requires
            forall|i: int| 0 <= i < preds@.len() ==> raw_pred_ok(#[trigger] preds@[i]),
        ensures
            r@ == acc_finish(fold_raw_preds(preds@, acc_init())),
    {
        let ghost all = preds@;
        let mut preds = preds;
        let mut acc = empty_accum();
        loop
            invariant
                forall|i: int| 0 <= i < preds@.len() ==> raw_pred_ok(#[trigger] preds@[i]),
                fold_raw_preds(all, acc_init()) == fold_raw_preds(preds@, acc@),
            ensures
                preds@.len() == 0,
                fold_raw_preds(all, acc_init()) == acc@,
            decreases preds@.len(),
        {
            if preds.len() == 0 {
                break;
            }
            let ghost pre = preds@;
            let t = preds.remove(0);
            proof {
                assert(preds@ =~= pre.drop_first());
                assert(t == pre[0]);
            }
            let (nm, val, sub, comp) = t;
            let name_chars = chars_of(nm.as_str());
            let known: bool = name_chars.len() == 1 && (name_chars[0] == 'e' || name_chars[0]
                == 'a' || name_chars[0] == 'v' || name_chars[0] == 't');
            proof {
                if known {
                    if name_chars[0] == 'e' {
                        assert(nm@ =~= seq!['e']);
                    } else if name_chars[0] == 'a' {
                        assert(nm@ =~= seq!['a']);
                    } else if name_chars[0] == 'v' {
                        assert(nm@ =~= seq!['v']);
                    } else {
                        assert(nm@ =~= seq!['t']);
                    }
                } else {
                    assert(nm@ != seq!['e'] && nm@ != seq!['a'] && nm@ != seq!['v'] && nm@ != seq![
                        't',
                    ]) by {
                        if nm@ == seq!['e'] || nm@ == seq!['a'] || nm@ == seq!['v'] || nm@ == seq![
                            't',
                        ] {
                            assert(nm@.len() == 1);
                        }
                    }
                }
            }
            if known && name_chars[0] == 'e' {
                if comp == Comparator::Contains {
                    let c = match sub {
                        Some(a) => a,
                        None => vstd::pervasive::unreached(),
                    };
                    acc = Accum {
                        e: Some((0, Comparator::Contains)),
                        child: Some(c),
                        ..acc
                    };
                } else {
                    let vc = chars_of(val.as_str());
                    let n = match parse_usize_chars(&vc) {
                        Some(n) => n,
                        None => vstd::pervasive::unreached(),
                    };
                    acc = Accum { e: Some((n, comp)), ..acc };
                }
            } else if known && name_chars[0] == 'a' {
                acc = Accum { a: Some((val, comp)), ..acc };
            } else if known && name_chars[0] == 'v' {
                acc = Accum { v: Some((val, comp)), ..acc };
            } else if known && name_chars[0] == 't' {
                let vc = chars_of(val.as_str());
                let n = match parse_usize_chars(&vc) {
                    Some(n) => n,
                    None => vstd::pervasive::unreached(),
                };
                acc = Accum { t: Some((n, comp)), ..acc };
            }
        }
        finish_accum(acc)
    }

    /// Parse query text: `True` for an all-space query, else the full
    /// disjunction; a leftover token is an error.
    pub fn parse(query: &str) -> (r: Result<AstNode, ParseError>)
        ensures
            match r {
                Ok(ast) => spec_parse(query@) == Ok::<AstView, Seq<char>>(ast@)
                    && crate::filter::wf_query(ast@),
                Err(pe) => spec_parse(query@) == Err::<AstView, Seq<char>>(pe@),
            },
    {
        let cs = chars_of(query);
        let toks = tokenize(&cs);
        if toks.len() == 0 {
            return Ok(AstNode::True);
        }
        match parse_or_expr(&toks, 0) {
            Err(e) => Err(e),
            Ok((ast, j)) => {
                if j == toks.len() {
                    Ok(ast)
                } else {
                    proof {
                        assert(token_views(toks@)[j as int] == toks@[j as int]@);
                    }
                    Err(ParseError { token: token_string(&toks[j]) })
                }
            }
        }
    }
}

} // verus!
