//! Command-line command and join-clause types, and their parsers.

use vstd::prelude::*;

verus! {

use crate::strutil::{chars_of, segment_string, string_from_chars, suffix_string};

/// One declared join: a column name and the query whose results the
/// column's values are matched against.
#[derive(Debug, PartialEq)]
pub struct Join(pub String, pub String);

impl View for Join {
    type V = (Seq<char>, Seq<char>);

    open spec fn view(&self) -> (Seq<char>, Seq<char>) {
        (self.0@, self.1@)
    }
}

/// A parsed line of user input.
#[derive(Debug, PartialEq)]
pub enum CliCommand {
    Load(String),
    LoadCsv(String, String, String, Vec<Join>),
    Query(String),
    Write(String),
    Empty,
    Clear,
    Nothing,
    Exit,
}

/// Why a line of user input was rejected.
#[derive(Debug, PartialEq)]
pub enum CliError {
    UnknownCommand(String),
    InvalidArgs(String),
    InvalidJoinClause(String),
}

/// The images of a join-clause vector.
pub open spec fn joins_view(s: Seq<Join>) -> Seq<(Seq<char>, Seq<char>)> {
    s.map_values(|j: Join| j@)
}

/// The mathematical image of a [`CliCommand`].
pub enum CliCommandView {
    Load(Seq<char>),
    LoadCsv(Seq<char>, Seq<char>, Seq<char>, Seq<(Seq<char>, Seq<char>)>),
    Query(Seq<char>),
    Write(Seq<char>),
    Empty,
    Clear,
    Nothing,
    Exit,
}

impl View for CliCommand {
    type V = CliCommandView;

    open spec fn view(&self) -> CliCommandView {
        match self {
            CliCommand::Load(s) => CliCommandView::Load(s@),
            CliCommand::LoadCsv(a, b, c, js) => CliCommandView::LoadCsv(
                a@,
                b@,
                c@,
                joins_view(js@),
            ),
            CliCommand::Query(s) => CliCommandView::Query(s@),
            CliCommand::Write(s) => CliCommandView::Write(s@),
            CliCommand::Empty => CliCommandView::Empty,
            CliCommand::Clear => CliCommandView::Clear,
            CliCommand::Nothing => CliCommandView::Nothing,
            CliCommand::Exit => CliCommandView::Exit,
        }
    }
}

/// The mathematical image of a [`CliError`].
pub enum CliErrorView {
    UnknownCommand(Seq<char>),
    InvalidArgs(Seq<char>),
    InvalidJoinClause(Seq<char>),
}

impl View for CliError {
    type V = CliErrorView;

    open spec fn view(&self) -> CliErrorView {
        match self {
            CliError::UnknownCommand(s) => CliErrorView::UnknownCommand(s@),
            CliError::InvalidArgs(s) => CliErrorView::InvalidArgs(s@),
            CliError::InvalidJoinClause(s) => CliErrorView::InvalidJoinClause(s@),
        }
    }
}

/// The first space at or after `i`, or the length when there is none.
pub open spec fn ws_start(s: Seq<char>, i: int) -> int
    decreases s.len() - i,
{
    if i < 0 || i >= s.len() {
        s.len() as int
    } else if s[i] == ' ' {
        i
    } else {
        ws_start(s, i + 1)
    }
}

/// The first non-space at or after `i`, or the length when there is none.
pub open spec fn ws_end(s: Seq<char>, i: int) -> int
    decreases s.len() - i,
{
    if i < 0 || i >= s.len() {
        s.len() as int
    } else if s[i] == ' ' {
        ws_end(s, i + 1)
    } else {
        i
    }
}

proof fn lemma_ws_start_range(s: Seq<char>, i: int)
    requires
        0 <= i <= s.len(),
    ensures
        i <= ws_start(s, i) <= s.len(),
    decreases s.len() - i,
{
    if i < s.len() && s[i] != ' ' {
        lemma_ws_start_range(s, i + 1);
    }
}

proof fn lemma_ws_end_range(s: Seq<char>, i: int)
    requires
        0 <= i <= s.len(),
    ensures
        i <= ws_end(s, i) <= s.len(),
    decreases s.len() - i,
{
    if i < s.len() && s[i] == ' ' {
        lemma_ws_end_range(s, i + 1);
    }
}

proof fn lemma_ws_start_boundary(s: Seq<char>, i: int, m: int)
    requires
        0 <= i <= m <= s.len(),
        forall|j: int| i <= j < m ==> (#[trigger] s[j]) != ' ',
        m == s.len() || s[m] == ' ',
    ensures
        ws_start(s, i) == m,
    decreases m - i,
{
    if i < m {
        lemma_ws_start_boundary(s, i + 1, m);
    }
}

proof fn lemma_ws_end_boundary(s: Seq<char>, i: int, m: int)
    requires
        0 <= i <= m <= s.len(),
        forall|j: int| i <= j < m ==> (#[trigger] s[j]) == ' ',
        m == s.len() || s[m] != ' ',
    ensures
        ws_end(s, i) == m,
    decreases m - i,
{
    if i < m {
        lemma_ws_end_boundary(s, i + 1, m);
    }
}

/// The segments from position `i` on, split at single spaces, keeping
/// empty segments.
pub open spec fn split_from(s: Seq<char>, i: int) -> Seq<Seq<char>>
    decreases s.len() - i,
    via split_from_decreases
{
    if i < 0 || i > s.len() {
        Seq::empty()
    } else {
        let p = ws_start(s, i);
        if p >= s.len() {
            seq![s.subrange(i, s.len() as int)]
        } else {
            seq![s.subrange(i, p)] + split_from(s, p + 1)
        }
    }
}

#[via_fn]
proof fn split_from_decreases(s: Seq<char>, i: int) {
    if 0 <= i <= s.len() {
        lemma_ws_start_range(s, i);
    }
}

/// Split on single spaces, keeping empty segments.
pub open spec fn split_sp(s: Seq<char>) -> Seq<Seq<char>> {
    split_from(s, 0)
}

/// Joined with single spaces: the first `j` segments.
pub open spec fn join_upto(parts: Seq<Seq<char>>, j: int) -> Seq<char>
    decreases j,
{
    if j <= 0 {
        Seq::empty()
    } else if j == 1 {
        parts[0]
    } else {
        join_upto(parts, j - 1) + seq![' '] + parts[j - 1]
    }
}

/// Segments joined with single spaces.
pub open spec fn join_sp(parts: Seq<Seq<char>>) -> Seq<char> {
    join_upto(parts, parts.len() as int)
}

/// The first `','` or `' '` at or after `i`, or the length.
pub open spec fn col_end(s: Seq<char>, i: int) -> int
    decreases s.len() - i,
{
    if i < 0 || i >= s.len() {
        s.len() as int
    } else if s[i] == ',' || s[i] == ' ' {
        i
    } else {
        col_end(s, i + 1)
    }
}

/// The first `'"'` at or after `i`, or the length.
pub open spec fn quote_end(s: Seq<char>, i: int) -> int
    decreases s.len() - i,
{
    if i < 0 || i >= s.len() {
        s.len() as int
    } else if s[i] == '"' {
        i
    } else {
        quote_end(s, i + 1)
    }
}

proof fn lemma_col_end_boundary(s: Seq<char>, i: int, m: int)
    requires
        0 <= i <= m <= s.len(),
        forall|j: int| i <= j < m ==> (#[trigger] s[j]) != ',' && s[j] != ' ',
        m == s.len() || s[m] == ',' || s[m] == ' ',
    ensures
        col_end(s, i) == m,
    decreases m - i,
{
    if i < m {
        lemma_col_end_boundary(s, i + 1, m);
    }
}

proof fn lemma_quote_end_boundary(s: Seq<char>, i: int, m: int)
    requires
        0 <= i <= m <= s.len(),
        forall|j: int| i <= j < m ==> (#[trigger] s[j]) != '"',
        m == s.len() || s[m] == '"',
    ensures
        quote_end(s, i) == m,
    decreases m - i,
{
    if i < m {
        lemma_quote_end_boundary(s, i + 1, m);
    }
}

/// Parse one `join(<column>, "<query>")` clause at position `i`: the
/// clause and the position after it, or the offending text.
pub open spec fn spec_join_clause(s: Seq<char>, i: int) -> Result<
    ((Seq<char>, Seq<char>), int),
    Seq<char>,
> {
    if i + 5 <= s.len() && s.subrange(i, i + 5) == seq!['j', 'o', 'i', 'n', '('] {
        let c0 = i + 5;
        let c1 = col_end(s, c0);
        if c1 == c0 || c1 >= s.len() || s[c1] != ',' {
            Err(s.skip(i))
        } else {
            let w1 = ws_end(s, c1 + 1);
            if w1 == c1 + 1 || w1 >= s.len() || s[w1] != '"' {
                Err(s.skip(i))
            } else {
                let q1 = quote_end(s, w1 + 1);
                if q1 >= s.len() || q1 + 1 >= s.len() || s[q1 + 1] != ')' {
                    Err(s.skip(i))
                } else {
                    Ok(((s.subrange(c0, c1), s.subrange(w1 + 1, q1)), q1 + 2))
                }
            }
        }
    } else {
        Err(s.skip(i))
    }
}

/// Clamp a continuation position into `[lo, hi]`.
pub open spec fn clamp_at(j: int, lo: int, hi: int) -> int {
    if j < lo {
        lo
    } else if j > hi {
        hi
    } else {
        j
    }
}

/// Parse the join clauses from position `i` on: whitespace-separated
/// `join(...)` clauses until the end of the text.
pub open spec fn spec_joins_from(s: Seq<char>, i: int) -> Result<
    Seq<(Seq<char>, Seq<char>)>,
    Seq<char>,
>
    decreases s.len() - i,
{
    if i < 0 || i >= s.len() {
        Ok(Seq::empty())
    } else {
        let j = ws_end(s, i);
        if j >= s.len() {
            Ok(Seq::empty())
        } else {
            match spec_join_clause(s, j) {
                Err(e) => Err(e),
                Ok((cl, k)) => {
                    match spec_joins_from(s, clamp_at(k, i + 1, s.len() as int)) {
                        Err(e) => Err(e),
                        Ok(rest) => Ok(seq![cl] + rest),
                    }
                }
            }
        }
    }
}

/// The meaning of a join-clause argument string.
pub open spec fn spec_parse_joins(s: Seq<char>) -> Result<Seq<(Seq<char>, Seq<char>)>, Seq<char>> {
    spec_joins_from(s, 0)
}

/// The meaning of one input line.
pub open spec fn spec_command(s: Seq<char>) -> Result<CliCommandView, CliErrorView> {
    if s.len() == 0 {
        Ok(CliCommandView::Nothing)
    } else {
        let p0 = ws_start(s, 0);
        let cmd = s.take(p0);
        let rest: Seq<char> = if p0 == s.len() {
            Seq::empty()
        } else {
            s.skip(p0 + 1)
        };
        if cmd == seq!['l'] {
            Ok(CliCommandView::Load(rest))
        } else if cmd == seq!['c'] {
            let parts = split_sp(rest);
            if parts.len() < 3 {
                Err(CliErrorView::InvalidArgs(rest))
            } else {
                match spec_parse_joins(join_sp(parts.skip(3))) {
                    Ok(js) => Ok(CliCommandView::LoadCsv(parts[0], parts[1], parts[2], js)),
                    Err(t) => Err(CliErrorView::InvalidJoinClause(t)),
                }
            }
        } else if cmd == seq!['q'] {
            Ok(CliCommandView::Query(rest))
        } else if cmd == seq!['w'] {
            Ok(CliCommandView::Write(rest))
        } else if cmd == seq!['e', 'm', 'p', 't', 'y'] {
            Ok(CliCommandView::Empty)
        } else if cmd == seq!['c', 'l', 'e', 'a', 'r'] {
            Ok(CliCommandView::Clear)
        } else if cmd == seq!['e', 'x', 'i', 't'] {
            Ok(CliCommandView::Exit)
        } else {
            Err(CliErrorView::UnknownCommand(cmd))
        }
    }
}

/// Parse zero or more whitespace-separated `join(<column>, "<query>")`
/// clauses.
pub fn parse_joins(raw: &str) -> (r: Result<Vec<Join>, CliError>)
    ensures
        match r {
            Ok(js) => spec_parse_joins(raw@) == Ok::<Seq<(Seq<char>, Seq<char>)>, Seq<char>>(
                joins_view(js@),
            ),
            Err(CliError::InvalidJoinClause(t)) => spec_parse_joins(raw@) == Err::<
                Seq<(Seq<char>, Seq<char>)>,
                Seq<char>,
            >(t@),
            Err(_) => false,
        },
{
    let cs = chars_of(raw);
    let mut out: Vec<Join> = Vec::new();
    let mut i: usize = 0;
    proof {
        assert(joins_view(out@) =~= Seq::<(Seq<char>, Seq<char>)>::empty());
    }
    loop
        invariant
            i <= cs@.len(),
            cs@ == raw@,
            spec_parse_joins(raw@) == (match spec_joins_from(cs@, i as int) {
                Ok(rest) => Ok::<Seq<(Seq<char>, Seq<char>)>, Seq<char>>(joins_view(out@) + rest),
                Err(e) => Err::<Seq<(Seq<char>, Seq<char>)>, Seq<char>>(e),
            }),
        decreases cs@.len() - i,
    {
        let ghost i0 = i as int;
        while i < cs.len() && cs[i] == ' '
            invariant
                i0 <= i <= cs@.len(),
                forall|j2: int| i0 <= j2 < i ==> (#[trigger] cs@[j2]) == ' ',
            decreases cs@.len() - i,
        {
            i = i + 1;
        }
        proof {
            lemma_ws_end_boundary(cs@, i0, i as int);
        }
        if i >= cs.len() {
            proof {
                assert(joins_view(out@) + Seq::<(Seq<char>, Seq<char>)>::empty() =~= joins_view(
                    out@,
                ));
            }
            return Ok(out);
        }
        let ghost j = i as int;
        let head_ok: bool = cs.len() - i >= 5 && cs[i] == 'j' && cs[i + 1] == 'o' && cs[i + 2]
            == 'i' && cs[i + 3] == 'n' && cs[i + 4] == '(';
        proof {
            if head_ok {
                assert(cs@.subrange(j, j + 5) =~= seq!['j', 'o', 'i', 'n', '(']);
            } else if j + 5 <= cs@.len() {
                assert(cs@.subrange(j, j + 5) != seq!['j', 'o', 'i', 'n', '(']) by {
                    if cs@.subrange(j, j + 5) == seq!['j', 'o', 'i', 'n', '('] {
                        assert(cs@[j] == 'j' && cs@[j + 1] == 'o' && cs@[j + 2] == 'i' && cs@[j + 3]
                            == 'n' && cs@[j + 4] == '(');
                    }
                }
            }
        }
        if !head_ok {
            return Err(CliError::InvalidJoinClause(suffix_string(&cs, i)));
        }
        let c0 = i + 5;
        let mut c1 = c0;
        while c1 < cs.len() && cs[c1] != ',' && cs[c1] != ' '
            invariant
                c0 <= c1 <= cs@.len(),
                forall|j2: int| c0 <= j2 < c1 ==> (#[trigger] cs@[j2]) != ',' && cs@[j2] != ' ',
            decreases cs@.len() - c1,
        {
            c1 = c1 + 1;
        }
        proof {
            lemma_col_end_boundary(cs@, c0 as int, c1 as int);
        }
        if c1 == c0 || c1 >= cs.len() || cs[c1] != ',' {
            return Err(CliError::InvalidJoinClause(suffix_string(&cs, i)));
        }
        let w0 = c1 + 1;
        let mut w1 = w0;
        while w1 < cs.len() && cs[w1] == ' '
            invariant
                w0 <= w1 <= cs@.len(),
                forall|j2: int| w0 <= j2 < w1 ==> (#[trigger] cs@[j2]) == ' ',
            decreases cs@.len() - w1,
        {
            w1 = w1 + 1;
        }
        proof {
            lemma_ws_end_boundary(cs@, w0 as int, w1 as int);
        }
        if w1 == w0 || w1 >= cs.len() || cs[w1] != '"' {
            return Err(CliError::InvalidJoinClause(suffix_string(&cs, i)));
        }
        let q0 = w1 + 1;
        let mut q1 = q0;
        while q1 < cs.len() && cs[q1] != '"'
            invariant
                q0 <= q1 <= cs@.len(),
                forall|j2: int| q0 <= j2 < q1 ==> (#[trigger] cs@[j2]) != '"',
            decreases cs@.len() - q1,
        {
            q1 = q1 + 1;
        }
        proof {
            lemma_quote_end_boundary(cs@, q0 as int, q1 as int);
        }
        if q1 >= cs.len() {
            return Err(CliError::InvalidJoinClause(suffix_string(&cs, i)));
        }
        if q1 + 1 >= cs.len() || cs[q1 + 1] != ')' {
            return Err(CliError::InvalidJoinClause(suffix_string(&cs, i)));
        }
        let col = segment_string(&cs, c0, c1);
        let q = segment_string(&cs, q0, q1);
        let ghost pre = out@;
        out.push(Join(col, q));
        proof {
            assert(joins_view(out@) =~= joins_view(pre) + seq![(cs@.subrange(c0 as int, c1 as int),
                cs@.subrange(q0 as int, q1 as int))]);
            assert(spec_join_clause(cs@, j) == Ok::<((Seq<char>, Seq<char>), int), Seq<char>>((
                (cs@.subrange(c0 as int, c1 as int), cs@.subrange(q0 as int, q1 as int)),
                q1 as int + 2,
            )));
            assert(clamp_at(q1 as int + 2, i0 + 1, cs@.len() as int) == q1 as int + 2);
            assert forall|rest: Seq<(Seq<char>, Seq<char>)>|
                joins_view(pre) + (seq![
                    (cs@.subrange(c0 as int, c1 as int), cs@.subrange(q0 as int, q1 as int)),
                ] + rest) =~= joins_view(out@) + rest by {}
        }
        i = q1 + 2;
    }
}

/// Parse one input line into a command; the line's first token selects
/// the command and the rest are its arguments.
pub fn parse_command(input: &str) -> (r: Result<CliCommand, CliError>)
    ensures
        match r {
            Ok(c) => spec_command(input@) == Ok::<CliCommandView, CliErrorView>(c@),
            Err(e) => spec_command(input@) == Err::<CliCommandView, CliErrorView>(e@),
        },
{
    let cs = chars_of(input);
    if cs.len() == 0 {
        return Ok(CliCommand::Nothing);
    }
    let mut p0: usize = 0;
    while p0 < cs.len() && cs[p0] != ' '
        invariant
            p0 <= cs@.len(),
            cs@ == input@,
            forall|j2: int| 0 <= j2 < p0 ==> (#[trigger] cs@[j2]) != ' ',
        decreases cs@.len() - p0,
    {
        p0 = p0 + 1;
    }
    proof {
        lemma_ws_start_boundary(cs@, 0, p0 as int);
        assert(cs@.take(p0 as int) =~= cs@.subrange(0, p0 as int));
    }
    let rest_s: String = if p0 == cs.len() {
        let s = String::new();
        proof {
            assert(s@ =~= Seq::<char>::empty());
        }
        s
    } else {
        suffix_string(&cs, p0 + 1)
    };
    let ghost cmd = cs@.take(p0 as int);
    if p0 == 1 && cs[0] == 'l' {
        proof {
            assert(cmd =~= seq!['l']);
        }
        return Ok(CliCommand::Load(rest_s));
    }
    if p0 == 1 && cs[0] == 'q' {
        proof {
            assert(cmd =~= seq!['q']);
            assert(cmd != seq!['l']) by {
                if cmd == seq!['l'] {
                    assert(cmd[0] == 'l');
                }
            }
            assert(cmd != seq!['c']) by {
                if cmd == seq!['c'] {
                    assert(cmd[0] == 'c');
                }
            }
        }
        return Ok(CliCommand::Query(rest_s));
    }
    if p0 == 1 && cs[0] == 'w' {
        proof {
            assert(cmd =~= seq!['w']);
            assert(cmd != seq!['l']) by {
                if cmd == seq!['l'] {
                    assert(cmd[0] == 'l');
                }
            }
            assert(cmd != seq!['c']) by {
                if cmd == seq!['c'] {
                    assert(cmd[0] == 'c');
                }
            }
            assert(cmd != seq!['q']) by {
                if cmd == seq!['q'] {
                    assert(cmd[0] == 'q');
                }
            }
        }
        return Ok(CliCommand::Write(rest_s));
    }
    if p0 == 5 && cs[0] == 'e' && cs[1] == 'm' && cs[2] == 'p' && cs[3] == 't' && cs[4] == 'y' {
        proof {
            assert(cmd =~= seq!['e', 'm', 'p', 't', 'y']);
            lemma_short_cmd_mismatch(cmd);
        }
        return Ok(CliCommand::Empty);
    }
    if p0 == 5 && cs[0] == 'c' && cs[1] == 'l' && cs[2] == 'e' && cs[3] == 'a' && cs[4] == 'r' {
        proof {
            assert(cmd =~= seq!['c', 'l', 'e', 'a', 'r']);
            lemma_short_cmd_mismatch(cmd);
            assert(cmd != seq!['e', 'm', 'p', 't', 'y']) by {
                if cmd == seq!['e', 'm', 'p', 't', 'y'] {
                    assert(cmd[0] == 'e');
                }
            }
        }
        return Ok(CliCommand::Clear);
    }
    if p0 == 4 && cs[0] == 'e' && cs[1] == 'x' && cs[2] == 'i' && cs[3] == 't' {
        proof {
            assert(cmd =~= seq!['e', 'x', 'i', 't']);
            lemma_short_cmd_mismatch(cmd);
            assert(cmd != seq!['e', 'm', 'p', 't', 'y']) by {
                if cmd == seq!['e', 'm', 'p', 't', 'y'] {
                    assert(cmd.len() == 5);
                }
            }
            assert(cmd != seq!['c', 'l', 'e', 'a', 'r']) by {
                if cmd == seq!['c', 'l', 'e', 'a', 'r'] {
                    assert(cmd.len() == 5);
                }
            }
        }
        return Ok(CliCommand::Exit);
    }
    if p0 == 1 && cs[0] == 'c' {
        proof {
            assert(cmd =~= seq!['c']);
            assert(cmd != seq!['l']) by {
                if cmd == seq!['l'] {
                    assert(cmd[0] == 'l');
                }
            }
        }
        return parse_csv_command(&rest_s);
    }
    proof {
        lemma_cmd_is_unknown(cmd, p0 as int, cs@);
    }
    Err(CliError::UnknownCommand(segment_string(&cs, 0, p0)))
}

/// A one-character command token matches none of the long command words.
proof fn lemma_short_cmd_mismatch(cmd: Seq<char>)
    requires
        cmd.len() >= 2,
    ensures
        cmd != seq!['l'],
        cmd != seq!['c'],
        cmd != seq!['q'],
        cmd != seq!['w'],
{
    assert(seq!['l'].len() == 1);
    assert(seq!['c'].len() == 1);
    assert(seq!['q'].len() == 1);
    assert(seq!['w'].len() == 1);
}

/// A token that matched none of the command tests matches none of the
/// command words.
proof fn lemma_cmd_is_unknown(cmd: Seq<char>, p0: int, s: Seq<char>)
    requires
        cmd == s.take(p0),
        0 <= p0 <= s.len(),
        !(p0 == 1 && s[0] == 'l'),
        !(p0 == 1 && s[0] == 'c'),
        !(p0 == 1 && s[0] == 'q'),
        !(p0 == 1 && s[0] == 'w'),
        !(p0 == 5 && s[0] == 'e' && s[1] == 'm' && s[2] == 'p' && s[3] == 't' && s[4] == 'y'),
        !(p0 == 5 && s[0] == 'c' && s[1] == 'l' && s[2] == 'e' && s[3] == 'a' && s[4] == 'r'),
        !(p0 == 4 && s[0] == 'e' && s[1] == 'x' && s[2] == 'i' && s[3] == 't'),
    ensures
        cmd != seq!['l'],
        cmd != seq!['c'],
        cmd != seq!['q'],
        cmd != seq!['w'],
        cmd != seq!['e', 'm', 'p', 't', 'y'],
        cmd != seq!['c', 'l', 'e', 'a', 'r'],
        cmd != seq!['e', 'x', 'i', 't'],
{
    if cmd == seq!['l'] {
        assert(cmd.len() == 1 && cmd[0] == 'l');
    }
    if cmd == seq!['c'] {
        assert(cmd.len() == 1 && cmd[0] == 'c');
    }
    if cmd == seq!['q'] {
        assert(cmd.len() == 1 && cmd[0] == 'q');
    }
    if cmd == seq!['w'] {
        assert(cmd.len() == 1 && cmd[0] == 'w');
    }
    if cmd == seq!['e', 'm', 'p', 't', 'y'] {
        assert(cmd.len() == 5 && cmd[0] == 'e' && cmd[1] == 'm' && cmd[2] == 'p' && cmd[3] == 't'
            && cmd[4] == 'y');
    }
    if cmd == seq!['c', 'l', 'e', 'a', 'r'] {
        assert(cmd.len() == 5 && cmd[0] == 'c' && cmd[1] == 'l' && cmd[2] == 'e' && cmd[3] == 'a'
            && cmd[4] == 'r');
    }
    if cmd == seq!['e', 'x', 'i', 't'] {
        assert(cmd.len() == 4 && cmd[0] == 'e' && cmd[1] == 'x' && cmd[2] == 'i' && cmd[3] == 't');
    }
}

/// Parse the arguments of the tabular-load command: path, entity, time
/// header, then optional join clauses.
fn parse_csv_command(rest_s: &String) -> (r: Result<CliCommand, CliError>)
    ensures
        ({
            let rest = rest_s@;
            let parts = split_sp(rest);
            match r {
                Ok(c) => parts.len() >= 3 && (match spec_parse_joins(join_sp(parts.skip(3))) {
                    Ok(js) => c@ == CliCommandView::LoadCsv(parts[0], parts[1], parts[2], js),
                    Err(_) => false,
                }),
                Err(CliError::InvalidArgs(t)) => parts.len() < 3 && t@ == rest,
                Err(CliError::InvalidJoinClause(t)) => parts.len() >= 3 && spec_parse_joins(
                    join_sp(parts.skip(3)),
                ) == Err::<Seq<(Seq<char>, Seq<char>)>, Seq<char>>(t@),
                Err(CliError::UnknownCommand(_)) => false,
            }
        }),
{
    let rc = chars_of(rest_s.as_str());
    let ghost rv = rc@;
    let mut parts: Vec<String> = Vec::new();
    let mut i: usize = 0;
    proof {
        assert(crate::csv_parser::strs_view(parts@) =~= Seq::<Seq<char>>::empty());
    }
    loop
        invariant_except_break
            i <= rv.len(),
            rv == rc@,
            rv == rest_s@,
            split_sp(rv) == crate::csv_parser::strs_view(parts@) + split_from(rv, i as int),
        ensures
            split_sp(rv) == crate::csv_parser::strs_view(parts@),
            rv == rest_s@,
        decreases rv.len() - i,
    {
        let ghost parts_pre = parts@;
        let mut q = i;
        while q < rc.len() && rc[q] != ' '
            invariant
                i <= q <= rv.len(),
                rv == rc@,
                forall|j2: int| i <= j2 < q ==> (#[trigger] rv[j2]) != ' ',
            decreases rv.len() - q,
        {
            q = q + 1;
        }
        proof {
            lemma_ws_start_boundary(rv, i as int, q as int);
        }
        let seg = segment_string(&rc, i, q);
        parts.push(seg);
        proof {
            assert(crate::csv_parser::strs_view(parts@) =~= crate::csv_parser::strs_view(parts_pre)
                + seq![rv.subrange(i as int, q as int)]);
        }
        if q >= rc.len() {
            proof {
                assert(split_from(rv, i as int) =~= seq![rv.subrange(i as int, rv.len() as int)]);
                assert(split_sp(rv) =~= crate::csv_parser::strs_view(parts@));
            }
            break;
        }
        proof {
            assert(split_from(rv, i as int) =~= seq![rv.subrange(i as int, q as int)] + split_from(
                rv,
                q as int + 1,
            ));
            assert(crate::csv_parser::strs_view(parts_pre) + (seq![
                rv.subrange(i as int, q as int),
            ] + split_from(rv, q as int + 1)) =~= crate::csv_parser::strs_view(parts@)
                + split_from(rv, q as int + 1));
        }
        i = q + 1;
    }
    let ghost pviews = crate::csv_parser::strs_view(parts@);
    if parts.len() < 3 {
        return Err(CliError::InvalidArgs(rest_s.clone()));
    }
    proof {
        assert(pviews[0] == parts@[0]@);
        assert(pviews[1] == parts@[1]@);
        assert(pviews[2] == parts@[2]@);
    }
    let a = parts[0].clone();
    let b = parts[1].clone();
    let c = parts[2].clone();
    let mut jr = String::new();
    proof {
        assert(jr@ =~= Seq::<char>::empty());
        assert(join_upto(pviews.skip(3), 0) == Seq::<char>::empty());
    }
    let mut t: usize = 3;
    if parts.len() > 3 {
        jr = parts[3].clone();
        t = 4;
        proof {
            assert(pviews[3] == parts@[3]@);
            assert(pviews.skip(3)[0] == pviews[3]);
        }
    }
    let mut sv: Vec<char> = Vec::new();
    sv.push(' ');
    proof {
        assert(sv@ =~= seq![' ']);
    }
    let space = string_from_chars(&sv);
    while t < parts.len()
        invariant
            3 <= t <= parts@.len(),
            parts@.len() > 3 ==> t >= 4,
            pviews == crate::csv_parser::strs_view(parts@),
            space@ == seq![' '],
            jr@ == join_upto(pviews.skip(3), t - 3),
        decreases parts@.len() - t,
    {
        proof {
            assert(pviews[t as int] == parts@[t as int]@);
            assert(pviews.skip(3)[t - 3] == pviews[t as int]);
        }
        jr.append(space.as_str());
        jr.append(parts[t].as_str());
        t = t + 1;
    }
    proof {
        assert(join_sp(pviews.skip(3)) == join_upto(pviews.skip(3), pviews.skip(3).len() as int));
        assert(pviews.skip(3).len() == pviews.len() - 3);
    }
    match parse_joins(jr.as_str()) {
        Ok(js) => Ok(CliCommand::LoadCsv(a, b, c, js)),
        Err(e) => {
            proof {
                assert(e matches CliError::InvalidJoinClause(_));
            }
            Err(e)
        }
    }
}

} // verus!
