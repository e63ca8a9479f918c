//! The loader: turn tabular rows into datums, and discover references by
//! running one query per declared join.
//!
//! Each data row allocates one entity id; every non-time column becomes a
//! datum under the attribute `"<entity>/<robotized column>"`.  A join
//! clause names a column and a query: the query's results are matched by
//! value against the new datums of that column, and each match emits a
//! reference from the new entity to the matched one.

use vstd::prelude::*;

verus! {

use crate::ast::AstNode;
use crate::cli::Join;
use crate::data::{datum_views, ref_views, views_of_datums, Datum, DatumView, Db, DbModel, Error,
    Ref, RefView};
use crate::filter::{matching_datums, run_step, wf_query};
use crate::parser::spec_parse;
use crate::strutil::{chars_of, digits_val, eq_chars, is_usize_digits, parse_usize_chars,
    string_from_chars};

/// Spaces replaced by underscores.
pub open spec fn underscored(s: Seq<char>) -> Seq<char> {
    s.map_values(|c: char| if c == ' ' { '_' } else { c })
}

/// What `str::to_lowercase` returns: a function of the characters alone.
pub uninterp spec fn lower_of(s: Seq<char>) -> Seq<char>;

/// Relies on `str::to_lowercase`: the result depends on the characters of
/// the input alone.
#[verifier::external_body]
fn lowercase(s: &str) -> (r: String)
    ensures
        r@ == lower_of(s@),
{
    s.to_lowercase()
}

/// A column or entity name as it appears inside an attribute: spaces to
/// underscores, then lowercased.
pub open spec fn robotized(s: Seq<char>) -> Seq<char> {
    lower_of(underscored(s))
}

pub fn robotize(string: &str) -> (r: String)
    ensures
        r@ == robotized(string@),
{
    let cs = chars_of(string);
    let mut mapped: Vec<char> = Vec::new();
    let mut i: usize = 0;
    while i < cs.len()
        invariant
            i <= cs.len(),
            mapped@ == underscored(cs@).take(i as int),
        decreases cs.len() - i,
    {
        let c = cs[i];
        mapped.push(
            if c == ' ' {
                '_'
            } else {
                c
            },
        );
        proof {
            assert(underscored(cs@)[i as int] == (if cs@[i as int] == ' ' {
                '_'
            } else {
                cs@[i as int]
            }));
            assert(mapped@ =~= underscored(cs@).take(i as int + 1));
        }
        i = i + 1;
    }
    proof {
        assert(underscored(cs@).take(cs@.len() as int) =~= underscored(cs@));
    }
    lowercase(string_from_chars(&mapped).as_str())
}

/// Index of the first `'/'`, or the length when there is none.
pub open spec fn slash_idx(a: Seq<char>) -> int
    decreases a.len(),
{
    if a.len() == 0 {
        0
    } else if a[0] == '/' {
        0
    } else {
        1 + slash_idx(a.drop_first())
    }
}

proof fn lemma_slash_idx_le(a: Seq<char>)
    ensures
        0 <= slash_idx(a) <= a.len(),
    decreases a.len(),
{
    if a.len() > 0 && a[0] != '/' {
        lemma_slash_idx_le(a.drop_first());
    }
}

proof fn lemma_slash_idx_boundary(a: Seq<char>, m: int)
    requires
        0 <= m <= a.len(),
        forall|j: int| 0 <= j < m ==> (#[trigger] a[j]) != '/',
        m == a.len() || a[m] == '/',
    ensures
        slash_idx(a) == m,
    decreases m,
{
    if m > 0 {
        lemma_slash_idx_boundary(a.drop_first(), m - 1);
    }
}

/// The entity part of an attribute: everything before the first `'/'`.
pub open spec fn entity_of(a: Seq<char>) -> Seq<char> {
    a.take(slash_idx(a))
}

/// Extract the entity part of an attribute.
fn entity_part(a: &str) -> (r: String)
    ensures
        r@ == entity_of(a@),
{
    let cs = chars_of(a);
    let mut out: Vec<char> = Vec::new();
    let mut i: usize = 0;
    proof {
        assert(out@ =~= cs@.take(0));
    }
    loop
        invariant
            i <= cs.len(),
            cs@ == a@,
            out@ == cs@.take(i as int),
            forall|j: int| 0 <= j < i ==> (#[trigger] cs@[j]) != '/',
        ensures
            out@ == cs@.take(i as int),
            i == cs@.len() || cs@[i as int] == '/',
            forall|j: int| 0 <= j < i ==> (#[trigger] cs@[j]) != '/',
        decreases cs.len() - i,
    {
        if i >= cs.len() {
            break;
        }
        if cs[i] == '/' {
            break;
        }
        out.push(cs[i]);
        proof {
            assert(out@ =~= cs@.take(i as int + 1));
        }
        i = i + 1;
    }
    proof {
        lemma_slash_idx_boundary(a@, i as int);
    }
    string_from_chars(&out)
}

/// The attribute of one column: `"<entity>/<robotized name>"`.
pub open spec fn attr_of(entity: Seq<char>, name: Seq<char>) -> Seq<char> {
    entity + seq!['/'] + robotized(name)
}

/// Build a column attribute.
fn attribute_for(entity: &str, name: &str) -> (r: String)
    ensures
        r@ == attr_of(entity@, name@),
{
    let mut s = entity.to_owned();
    let mut v: Vec<char> = Vec::new();
    v.push('/');
    proof {
        assert(v@ =~= seq!['/']);
    }
    let slash = string_from_chars(&v);
    s.append(slash.as_str());
    let rn = robotize(name);
    s.append(rn.as_str());
    s
}

/// The relation attribute of a reference: `"<newEntity>/<oldEntity>"`.
pub open spec fn rel_attr(new_a: Seq<char>, old_a: Seq<char>) -> Seq<char> {
    entity_of(new_a) + seq!['/'] + entity_of(old_a)
}

/// Build a relation attribute from the two datums' attributes.
fn relation_for(new_a: &str, old_a: &str) -> (r: String)
    ensures
        r@ == rel_attr(new_a@, old_a@),
{
    let mut s = entity_part(new_a);
    let mut v: Vec<char> = Vec::new();
    v.push('/');
    proof {
        assert(v@ =~= seq!['/']);
    }
    let slash = string_from_chars(&v);
    s.append(slash.as_str());
    let op = entity_part(old_a);
    s.append(op.as_str());
    s
}

/// The images of a string vector.
pub open spec fn strs_view(s: Seq<String>) -> Seq<Seq<char>> {
    s.map_values(|x: String| x@)
}

/// The images of a row vector.
pub open spec fn rows_view(s: Seq<Vec<String>>) -> Seq<Seq<Seq<char>>> {
    s.map_values(|r: Vec<String>| strs_view(r@))
}

/// The images of a join-clause slice.
pub open spec fn joins_view(s: Seq<Join>) -> Seq<(Seq<char>, Seq<char>)> {
    s.map_values(|j: Join| j@)
}

/// The datums of one row's first `j` columns: one per non-time column,
/// in column order, all under entity id `eid` at time `time`.
pub open spec fn row_datums_upto(
    headers: Seq<Seq<char>>,
    row: Seq<Seq<char>>,
    time_index: int,
    eid: int,
    entity: Seq<char>,
    time: int,
    j: int,
) -> Seq<DatumView>
    decreases j,
{
    if j <= 0 {
        Seq::empty()
    } else {
        let prev = row_datums_upto(headers, row, time_index, eid, entity, time, j - 1);
        if j - 1 != time_index {
            prev + seq![
                DatumView { e: eid, a: attr_of(entity, headers[j - 1]), v: row[j - 1], t: time },
            ]
        } else {
            prev
        }
    }
}

/// All datums of one row: columns shared by the header row and the data
/// row, minus the time column.
pub open spec fn spec_row_datums(
    headers: Seq<Seq<char>>,
    row: Seq<Seq<char>>,
    time_index: int,
    eid: int,
    entity: Seq<char>,
    time: int,
) -> Seq<DatumView> {
    let m = if headers.len() <= row.len() {
        headers.len() as int
    } else {
        row.len() as int
    };
    row_datums_upto(headers, row, time_index, eid, entity, time, m)
}

/// Turn one data row into datums.  The time cell must hold a fitting
/// decimal integer; an unreadable time cell is reported with its text,
/// an absent one with empty text.
pub fn parse_row(
    row: Vec<String>,
    headers: &Vec<String>,
    time_index: usize,
    eid: usize,
    entity: &str,
) -> (r: Result<Vec<Datum>, Error>)
    ensures
        ({
            let hv = strs_view(headers@);
            let rv = strs_view(row@);
            match r {
                Ok(ds) => (time_index as int) < rv.len() && is_usize_digits(rv[time_index as int])
                    && datum_views(ds@) == spec_row_datums(
                    hv,
                    rv,
                    time_index as int,
                    eid as int,
                    entity@,
                    digits_val(rv[time_index as int]),
                ),
                Err(Error::TimeColumnTypeError(s)) => {
                    if (time_index as int) < rv.len() {
                        !is_usize_digits(rv[time_index as int]) && s@ == rv[time_index as int]
                    } else {
                        s@ == Seq::<char>::empty()
                    }
                }
                Err(Error::MissingTimeHeader(_)) => false,
            }
        }),
{
    let ghost hv = strs_view(headers@);
    let ghost rv = strs_view(row@);
    if time_index >= row.len() {
        let s = String::new();
        proof {
            assert(s@ =~= Seq::<char>::empty());
        }
        return Err(Error::TimeColumnTypeError(s));
    }
    proof {
        assert(rv[time_index as int] == row@[time_index as int]@);
    }
    let tc = chars_of(row[time_index].as_str());
    let time: usize = match parse_usize_chars(&tc) {
        Some(t) => t,
        None => {
            return Err(Error::TimeColumnTypeError(row[time_index].clone()));
        }
    };
    let m: usize = if headers.len() <= row.len() {
        headers.len()
    } else {
        row.len()
    };
    let mut out: Vec<Datum> = Vec::new();
    let mut j: usize = 0;
    proof {
        assert(datum_views(out@) =~= row_datums_upto(
            hv,
            rv,
            time_index as int,
            eid as int,
            entity@,
            time as int,
            0,
        ));
    }
    while j < m
        invariant
            j <= m,
            hv == strs_view(headers@),
            rv == strs_view(row@),
            m == if hv.len() <= rv.len() {
                hv.len() as int
            } else {
                rv.len() as int
            },
            datum_views(out@) == row_datums_upto(
                hv,
                rv,
                time_index as int,
                eid as int,
                entity@,
                time as int,
                j as int,
            ),
        decreases m - j,
    {
        if j != time_index {
            proof {
                assert(hv[j as int] == headers@[j as int]@);
                assert(rv[j as int] == row@[j as int]@);
            }
            let attr = attribute_for(entity, headers[j].as_str());
            let d = Datum::new(eid, attr.as_str(), row[j].as_str(), time);
            out.push(d);
        }
        proof {
            assert(datum_views(out@) =~= row_datums_upto(
                hv,
                rv,
                time_index as int,
                eid as int,
                entity@,
                time as int,
                j as int + 1,
            ));
        }
        j = j + 1;
    }
    Ok(out)
}

/// References from one new datum: one per query-result datum whose value
/// (among the first `k`) equals the new datum's value.
pub open spec fn refs_for_new(n: DatumView, olds: Seq<DatumView>, k: int) -> Seq<RefView>
    decreases k,
{
    if k <= 0 {
        Seq::empty()
    } else {
        let prev = refs_for_new(n, olds, k - 1);
        if olds[k - 1].v == n.v {
            prev + seq![
                RefView { e: n.e, a: rel_attr(n.a, olds[k - 1].a), v: olds[k - 1].e, t: n.t },
            ]
        } else {
            prev
        }
    }
}

/// Build the references from one new datum to every query-result datum
/// sharing its value.
pub fn generate_refs(new: &Datum, old_datums: &Vec<&Datum>) -> (r: Vec<Ref>)
    ensures
        ref_views(r@) == refs_for_new(
            new@,
            views_of_datums(old_datums@),
            old_datums@.len() as int,
        ),
{
    let ghost olds = views_of_datums(old_datums@);
    let mut out: Vec<Ref> = Vec::new();
    let mut i: usize = 0;
    proof {
        assert(ref_views(out@) =~= refs_for_new(new@, olds, 0));
    }
    while i < old_datums.len()
        invariant
            i <= old_datums.len(),
            olds == views_of_datums(old_datums@),
            ref_views(out@) == refs_for_new(new@, olds, i as int),
        decreases old_datums.len() - i,
    {
        let old = old_datums[i];
        proof {
            assert(olds[i as int] == old_datums@[i as int]@);
        }
        if old.v == new.v {
            let a = relation_for(new.a.as_str(), old.a.as_str());
            out.push(Ref::new(new.e, a, old.e, new.t));
        }
        proof {
            assert(ref_views(out@) =~= refs_for_new(new@, olds, i as int + 1));
        }
        i = i + 1;
    }
    out
}

/// The references one join clause emits: for each new datum carrying the
/// clause's attribute (among the first `k` ingested datums), one per
/// query-result datum with the same value.
pub open spec fn join_refs_upto(
    datums: Seq<DatumView>,
    attr: Seq<char>,
    olds: Seq<DatumView>,
    k: int,
) -> Seq<RefView>
    decreases k,
{
    if k <= 0 {
        Seq::empty()
    } else {
        let prev = join_refs_upto(datums, attr, olds, k - 1);
        if datums[k - 1].a == attr {
            prev + refs_for_new(datums[k - 1], olds, olds.len() as int)
        } else {
            prev
        }
    }
}

/// The query results a join clause matches against.
pub open spec fn join_olds(q: Seq<char>, db: DbModel) -> Seq<DatumView> {
    match spec_parse(q) {
        Ok(a) => matching_datums(a, db),
        Err(_) => Seq::empty(),
    }
}

/// The references of the first `k` join clauses, in clause order.
pub open spec fn all_refs_upto(
    datums: Seq<DatumView>,
    joins: Seq<(Seq<char>, Seq<char>)>,
    db: DbModel,
    entity: Seq<char>,
    k: int,
) -> Seq<RefView>
    decreases k,
{
    if k <= 0 {
        Seq::empty()
    } else {
        let prev = all_refs_upto(datums, joins, db, entity, k - 1);
        let attr = attr_of(entity, joins[k - 1].0);
        let olds = join_olds(joins[k - 1].1, db);
        prev + join_refs_upto(datums, attr, olds, datums.len() as int)
    }
}

/// Where in the header row the time column sits: the first exact match.
pub open spec fn spec_time_index(headers: Seq<Seq<char>>, time: Seq<char>) -> Option<int>
    decreases headers.len(),
{
    if headers.len() == 0 {
        None
    } else if headers[0] == time {
        Some(0)
    } else {
        match spec_time_index(headers.drop_first(), time) {
            Some(i) => Some(i + 1),
            None => None,
        }
    }
}

proof fn lemma_time_index_found(headers: Seq<Seq<char>>, time: Seq<char>, m: int)
    requires
        0 <= m < headers.len(),
        forall|j: int| 0 <= j < m ==> (#[trigger] headers[j]) != time,
        headers[m] == time,
    ensures
        spec_time_index(headers, time) == Some(m),
    decreases m,
{
    if m > 0 {
        lemma_time_index_found(headers.drop_first(), time, m - 1);
    }
}

proof fn lemma_time_index_missing(headers: Seq<Seq<char>>, time: Seq<char>)
    requires
        forall|j: int| 0 <= j < headers.len() ==> (#[trigger] headers[j]) != time,
    ensures
        spec_time_index(headers, time) is None,
    decreases headers.len(),
{
    if headers.len() > 0 {
        lemma_time_index_missing(headers.drop_first(), time);
    }
}

/// The datums of the first `k` rows: row `k` gets entity id
/// `offset + k`, counting rows from zero.  The first unreadable time
/// cell aborts the whole ingest with its text.
pub open spec fn ingest_upto(
    headers: Seq<Seq<char>>,
    rows: Seq<Seq<Seq<char>>>,
    time_index: int,
    offset: int,
    entity: Seq<char>,
    k: int,
) -> Result<Seq<DatumView>, Seq<char>>
    decreases k,
{
    if k <= 0 {
        Ok(Seq::empty())
    } else {
        match ingest_upto(headers, rows, time_index, offset, entity, k - 1) {
            Err(e) => Err(e),
            Ok(prev) => {
                let row = rows[k - 1];
                if time_index >= row.len() {
                    Err(Seq::empty())
                } else if !is_usize_digits(row[time_index]) {
                    Err(row[time_index])
                } else {
                    Ok(
                        prev + spec_row_datums(
                            headers,
                            row,
                            time_index,
                            offset + (k - 1),
                            entity,
                            digits_val(row[time_index]),
                        ),
                    )
                }
            }
        }
    }
}

/// The configuration of one tabular ingest: where the file lives, which
/// entity its rows describe, which header holds the time, and the
/// declared joins.
#[derive(Debug)]
pub struct CsvParser<'a> {
    pub filename: &'a str,
    pub entity: &'a str,
    pub time: &'a str,
    pub joins: &'a [Join],
}

impl<'a> CsvParser<'a> {
    pub fn new(filename: &'a str, entity: &'a str, time: &'a str, joins: &'a [Join]) -> (p:
        CsvParser<'a>)
        ensures
            p.filename == filename,
            p.entity == entity,
            p.time == time,
            p.joins == joins,
    {
        CsvParser { filename, entity, time, joins }
    }

    /// Resolve every join clause against the current store: the clause's
    /// query is run, and each new datum of the clause's column is matched
    /// by value against the results.
    pub fn find_refs(&self, datums: &Vec<Datum>, db: &Db) -> (r: Vec<Ref>)
        requires
            forall|i: int|
                0 <= i < self.joins@.len() ==> spec_parse((#[trigger] self.joins@[i])@.1) is Ok,
        ensures
            ref_views(r@) == all_refs_upto(
                datum_views(datums@),
                joins_view(self.joins@),
                db@,
                self.entity@,
                self.joins@.len() as int,
            ),
    {
        let ghost dv = datum_views(datums@);
        let ghost jv = joins_view(self.joins@);
        let mut out: Vec<Ref> = Vec::new();
        let mut i: usize = 0;
        proof {
            assert(ref_views(out@) =~= all_refs_upto(dv, jv, db@, self.entity@, 0));
        }
        while i < self.joins.len()
            invariant
                i <= self.joins@.len(),
                dv == datum_views(datums@),
                jv == joins_view(self.joins@),
                forall|t: int|
                    0 <= t < self.joins@.len() ==> spec_parse(
                        (#[trigger] self.joins@[t])@.1,
                    ) is Ok,
                ref_views(out@) == all_refs_upto(dv, jv, db@, self.entity@, i as int),
            decreases self.joins@.len() - i,
        {
            let j = &self.joins[i];
            proof {
                assert(jv[i as int] == self.joins@[i as int]@);
            }
            let mut refs = self.find_refs_for_join(datums, j.0.as_str(), j.1.as_str(), db);
            out.append(&mut refs);
            proof {
                assert(ref_views(out@) =~= all_refs_upto(dv, jv, db@, self.entity@, i as int + 1));
            }
            i = i + 1;
        }
        out
    }

    /// Resolve one join clause: run its query over the store and link
    /// each new datum of its column to every result sharing its value.
    pub fn find_refs_for_join(&self, datums: &Vec<Datum>, column: &str, query: &str, db: &Db) -> (r:
        Vec<Ref>)
        requires
            spec_parse(query@) is Ok,
        ensures
            ref_views(r@) == join_refs_upto(
                datum_views(datums@),
                attr_of(self.entity@, column@),
                join_olds(query@, db@),
                datums@.len() as int,
            ),
    {
        let ghost dv = datum_views(datums@);
        let attribute = attribute_for(self.entity, column);
        let ast = match AstNode::parse(query) {
            Ok(a) => a,
            Err(_) => vstd::pervasive::unreached(),
        };
        let old_datums = run_step(db, &ast);
        proof {
            assert(views_of_datums(old_datums@) == join_olds(query@, db@));
        }
        let ghost olds = views_of_datums(old_datums@);
        let mut out: Vec<Ref> = Vec::new();
        let mut i: usize = 0;
        proof {
            assert(ref_views(out@) =~= join_refs_upto(dv, attribute@, olds, 0));
        }
        while i < datums.len()
            invariant
                i <= datums@.len(),
                dv == datum_views(datums@),
                olds == views_of_datums(old_datums@),
                ref_views(out@) == join_refs_upto(dv, attribute@, olds, i as int),
            decreases datums@.len() - i,
        {
            let d = &datums[i];
            proof {
                assert(dv[i as int] == datums@[i as int]@);
            }
            if d.a == attribute {
                let mut refs = generate_refs(d, &old_datums);
                out.append(&mut refs);
            }
            proof {
                assert(ref_views(out@) =~= join_refs_upto(dv, attribute@, olds, i as int + 1));
            }
            i = i + 1;
        }
        out
    }

    /// Ingest tabular rows: allocate one entity id per row starting at
    /// the store's offset, emit one datum per non-time column, resolve
    /// the join clauses against the current store, and report how many
    /// rows were ingested.
    pub fn parse(&self, headers: &Vec<String>, rows: Vec<Vec<String>>, db: &Db) -> (r: Result<
        (Vec<Datum>, Vec<Ref>, usize),
        Error,
    >)
        requires
            db@.offset + rows@.len() <= usize::MAX,
            forall|i: int|
                0 <= i < self.joins@.len() ==> spec_parse((#[trigger] self.joins@[i])@.1) is Ok,
        ensures
            ({
                let hv = strs_view(headers@);
                let rv = rows_view(rows@);
                match r {
                    Ok((datums, refs, cnt)) => {
                        &&& spec_time_index(hv, self.time@) matches Some(ti) && ingest_upto(
                            hv,
                            rv,
                            ti,
                            db@.offset,
                            self.entity@,
                            rv.len() as int,
                        ) == Ok::<Seq<DatumView>, Seq<char>>(datum_views(datums@))
                        &&& ref_views(refs@) == all_refs_upto(
                            datum_views(datums@),
                            joins_view(self.joins@),
                            db@,
                            self.entity@,
                            self.joins@.len() as int,
                        )
                        &&& cnt == rv.len()
                    }
                    Err(Error::MissingTimeHeader(s)) => spec_time_index(hv, self.time@) is None
                        && s@ == self.time@,
                    Err(Error::TimeColumnTypeError(s)) => spec_time_index(
                        hv,
                        self.time@,
                    ) matches Some(ti) && ingest_upto(
                        hv,
                        rv,
                        ti,
                        db@.offset,
                        self.entity@,
                        rv.len() as int,
                    ) == Err::<Seq<DatumView>, Seq<char>>(s@),
                }
            }),
    {
        let ghost hv = strs_view(headers@);
        let ghost rv = rows_view(rows@);
        let ghost all_rows = rows@;

        // Locate the time column.
        let tchars = chars_of(self.time);
        let mut ti: usize = 0;
        loop
            invariant
                ti <= headers@.len(),
                hv == strs_view(headers@),
                tchars@ == self.time@,
                forall|j: int| 0 <= j < ti ==> (#[trigger] hv[j]) != self.time@,
            ensures
                ti <= headers@.len(),
                if ti < headers@.len() {
                    hv[ti as int] == self.time@ && forall|j: int|
                        0 <= j < ti ==> (#[trigger] hv[j]) != self.time@
                } else {
                    forall|j: int| 0 <= j < hv.len() ==> (#[trigger] hv[j]) != self.time@
                },
            decreases headers@.len() - ti,
        {
            if ti >= headers.len() {
                break;
            }
            proof {
                assert(hv[ti as int] == headers@[ti as int]@);
            }
            let hc = chars_of(headers[ti].as_str());
            if eq_chars(&hc, &tchars) {
                break;
            }
            ti = ti + 1;
        }
        if ti >= headers.len() {
            proof {
                lemma_time_index_missing(hv, self.time@);
            }
            return Err(Error::MissingTimeHeader(self.time.to_owned()));
        }
        proof {
            lemma_time_index_found(hv, self.time@, ti as int);
        }

        // One entity id per row, datums per non-time column.
        let row_count = rows.len();
        let mut rows = rows;
        let mut datums: Vec<Datum> = Vec::new();
        let mut k: usize = 0;
        proof {
            assert(datum_views(datums@) =~= Seq::<DatumView>::empty());
            assert(ingest_upto(hv, rv, ti as int, db@.offset, self.entity@, 0)
                == Ok::<Seq<DatumView>, Seq<char>>(datum_views(datums@)));
        }
        let mut fail: Option<Error> = None;
        loop
            invariant_except_break
                fail is None,
                rows@ =~= all_rows.skip(k as int),
            invariant
                k <= row_count,
                row_count == all_rows.len(),
                hv == strs_view(headers@),
                rv == rows_view(all_rows),
                (ti as int) < hv.len(),
                spec_time_index(hv, self.time@) == Some(ti as int),
                db@.offset + row_count <= usize::MAX,
                fail is None ==> ingest_upto(hv, rv, ti as int, db@.offset, self.entity@, k as int)
                    == Ok::<Seq<DatumView>, Seq<char>>(datum_views(datums@)),
            ensures
                match fail {
                    Option::None => ingest_upto(
                        hv,
                        rv,
                        ti as int,
                        db@.offset,
                        self.entity@,
                        rv.len() as int,
                    ) == Ok::<Seq<DatumView>, Seq<char>>(datum_views(datums@)),
                    Option::Some(e) => e matches Error::TimeColumnTypeError(s) && ingest_upto(
                        hv,
                        rv,
                        ti as int,
                        db@.offset,
                        self.entity@,
                        rv.len() as int,
                    ) == Err::<Seq<DatumView>, Seq<char>>(s@),
                },
            decreases row_count - k,
        {
            if k >= row_count {
                break;
            }
            let row = rows.remove(0);
            proof {
                assert(all_rows.skip(k as int)[0] == all_rows[k as int]);
                assert(rows@ =~= all_rows.skip(k as int + 1));
                assert(rv[k as int] == strs_view(all_rows[k as int]@));
            }
            let eid = db.offset + k;
            let ghost pre = datum_views(datums@);
            match parse_row(row, headers, ti, eid, self.entity) {
                Ok(mut ds) => {
                    let ghost dsv = datum_views(ds@);
                    datums.append(&mut ds);
                    proof {
                        assert(datum_views(datums@) =~= pre + dsv);
                    }
                }
                Err(e) => {
                    proof {
                        let r_k = rv[k as int];
                        if ti as int >= r_k.len() {
                            assert(ingest_upto(
                                hv,
                                rv,
                                ti as int,
                                db@.offset,
                                self.entity@,
                                k as int + 1,
                            ) == Err::<Seq<DatumView>, Seq<char>>(Seq::<char>::empty()));
                        } else {
                            assert(ingest_upto(
                                hv,
                                rv,
                                ti as int,
                                db@.offset,
                                self.entity@,
                                k as int + 1,
                            ) == Err::<Seq<DatumView>, Seq<char>>(r_k[ti as int]));
                        }
                        lemma_ingest_err_propagates(
                            hv,
                            rv,
                            ti as int,
                            db@.offset,
                            self.entity@,
                            k as int + 1,
                            rv.len() as int,
                        );
                    }
                    fail = Some(e);
                    break;
                }
            }
            k = k + 1;
        }
        match fail {
            Some(e) => {
                return Err(e);
            }
            None => {}
        }

        // Resolve the declared joins against the current store.
        let refs = self.find_refs(&datums, db);
        Ok((datums, refs, row_count))
    }
}

proof fn lemma_row_datums_eids(
    headers: Seq<Seq<char>>,
    row: Seq<Seq<char>>,
    time_index: int,
    eid: int,
    entity: Seq<char>,
    time: int,
    j: int,
)
    ensures
        forall|m: int|
            0 <= m < row_datums_upto(headers, row, time_index, eid, entity, time, j).len()
                ==> (#[trigger] row_datums_upto(headers, row, time_index, eid, entity, time, j)[m]).e
                == eid,
    decreases j,
{
    if j > 0 {
        lemma_row_datums_eids(headers, row, time_index, eid, entity, time, j - 1);
        let p0 = row_datums_upto(headers, row, time_index, eid, entity, time, j - 1);
        let p = row_datums_upto(headers, row, time_index, eid, entity, time, j);
        assert forall|m: int| 0 <= m < p.len() implies (#[trigger] p[m]).e == eid by {
            if m < p0.len() {
                assert(p[m] == p0[m]);
            }
        }
    }
}

proof fn lemma_ingest_eid_range(
    headers: Seq<Seq<char>>,
    rows: Seq<Seq<Seq<char>>>,
    time_index: int,
    offset: int,
    entity: Seq<char>,
    k: int,
)
    requires
        ingest_upto(headers, rows, time_index, offset, entity, k) is Ok,
    ensures
        ({
            let ds = ingest_upto(headers, rows, time_index, offset, entity, k)->Ok_0;
            forall|m: int| 0 <= m < ds.len() ==> offset <= (#[trigger] ds[m]).e < offset + k
        }),
    decreases k,
{
    if k > 0 {
        lemma_ingest_eid_range(headers, rows, time_index, offset, entity, k - 1);
        let row = rows[k - 1];
        if time_index < row.len() && is_usize_digits(row[time_index]) {
            lemma_row_datums_eids(
                headers,
                row,
                time_index,
                offset + (k - 1),
                entity,
                digits_val(row[time_index]),
                if headers.len() <= row.len() {
                    headers.len() as int
                } else {
                    row.len() as int
                },
            );
        }
    }
}

/// Ingesting N rows allocates exactly the entity ids
/// `offset .. offset + N`: every new id lies in that range, no new id
/// collides with an id already in the store, and after the offset
/// advances by N every id lies below the new offset.
pub proof fn lemma_ingest_allocates_fresh(
    db: DbModel,
    headers: Seq<Seq<char>>,
    rows: Seq<Seq<Seq<char>>>,
    time_index: int,
    entity: Seq<char>,
)
    requires
        forall|i: int| 0 <= i < db.datums.len() ==> (#[trigger] db.datums[i]).e < db.offset,
        ingest_upto(headers, rows, time_index, db.offset, entity, rows.len() as int) is Ok,
    ensures
        ({
            let ds = ingest_upto(headers, rows, time_index, db.offset, entity, rows.len() as int)->Ok_0;
            &&& forall|m: int|
                0 <= m < ds.len() ==> db.offset <= (#[trigger] ds[m]).e < db.offset + rows.len()
            &&& forall|i: int, m: int|
                0 <= i < db.datums.len() && 0 <= m < ds.len() ==> (#[trigger] db.datums[i]).e != (
                #[trigger] ds[m]).e
            &&& forall|i: int|
                0 <= i < db.datums.len() ==> (#[trigger] db.datums[i]).e < db.offset + rows.len()
        }),
{
    lemma_ingest_eid_range(headers, rows, time_index, db.offset, entity, rows.len() as int);
}

proof fn lemma_refs_for_new_shape(n: DatumView, olds: Seq<DatumView>, k: int)
    requires
        k <= olds.len(),
    ensures
        ({
            let rs = refs_for_new(n, olds, k);
            forall|m: int|
                0 <= m < rs.len() ==> (#[trigger] rs[m]).e == n.e && exists|i: int|
                    0 <= i < olds.len() && olds[i].e == rs[m].v
        }),
    decreases k,
{
    if k > 0 {
        lemma_refs_for_new_shape(n, olds, k - 1);
        let rs0 = refs_for_new(n, olds, k - 1);
        let rs = refs_for_new(n, olds, k);
        if olds[k - 1].v == n.v {
            assert forall|m: int|
                0 <= m < rs.len() implies (#[trigger] rs[m]).e == n.e && exists|i: int|
                    0 <= i < olds.len() && olds[i].e == rs[m].v by {
                if m < rs0.len() {
                    assert(rs[m] == rs0[m]);
                } else {
                    assert(olds[k - 1].e == rs[m].v);
                }
            }
        }
    }
}

proof fn lemma_join_refs_endpoints(
    datums: Seq<DatumView>,
    attr: Seq<char>,
    olds: Seq<DatumView>,
    k: int,
)
    requires
        k <= datums.len(),
    ensures
        ({
            let rs = join_refs_upto(datums, attr, olds, k);
            forall|m: int|
                0 <= m < rs.len() ==> (exists|i: int|
                    0 <= i < datums.len() && datums[i].e == (#[trigger] rs[m]).e) && (exists|i: int|
                    0 <= i < olds.len() && olds[i].e == rs[m].v)
        }),
    decreases k,
{
    if k > 0 {
        lemma_join_refs_endpoints(datums, attr, olds, k - 1);
        let rs0 = join_refs_upto(datums, attr, olds, k - 1);
        let rs = join_refs_upto(datums, attr, olds, k);
        if datums[k - 1].a == attr {
            lemma_refs_for_new_shape(datums[k - 1], olds, olds.len() as int);
            let block = refs_for_new(datums[k - 1], olds, olds.len() as int);
            assert forall|m: int|
                0 <= m < rs.len() implies (exists|i: int|
                    0 <= i < datums.len() && datums[i].e == (#[trigger] rs[m]).e) && (exists|i: int|
                    0 <= i < olds.len() && olds[i].e == rs[m].v) by {
                if m < rs0.len() {
                    assert(rs[m] == rs0[m]);
                } else {
                    assert(rs[m] == block[m - rs0.len()]);
                    assert(datums[k - 1].e == rs[m].e);
                }
            }
        }
    }
}

proof fn lemma_matching_sub(ast: crate::ast::AstView, db: DbModel, n: int)
    requires
        0 <= n <= db.datums.len(),
    ensures
        forall|m: int|
            #![trigger crate::filter::matching_prefix(ast, db, n)[m]]
            0 <= m < crate::filter::matching_prefix(ast, db, n).len() ==> exists|i: int|
                0 <= i < db.datums.len() && #[trigger] db.datums[i]
                    == crate::filter::matching_prefix(ast, db, n)[m],
    decreases n,
{
    if n > 0 {
        lemma_matching_sub(ast, db, n - 1);
        let p0 = crate::filter::matching_prefix(ast, db, n - 1);
        let p = crate::filter::matching_prefix(ast, db, n);
        assert forall|m: int| #![trigger p[m]] 0 <= m < p.len() implies exists|i: int|
            0 <= i < db.datums.len() && #[trigger] db.datums[i] == p[m] by {
            if m < p0.len() {
                assert(p[m] == p0[m]);
            } else {
                assert(p[m] == db.datums[n - 1]);
            }
        }
    }
}

/// Every reference an ingest emits links a just-ingested entity to a
/// stored one: its source is some new datum's entity id, and its target
/// is the entity id of some datum already in the store.
pub proof fn lemma_ref_endpoints(
    datums: Seq<DatumView>,
    joins: Seq<(Seq<char>, Seq<char>)>,
    db: DbModel,
    entity: Seq<char>,
    k: int,
)
    requires
        0 <= k <= joins.len(),
    ensures
        ({
            let rs = all_refs_upto(datums, joins, db, entity, k);
            forall|m: int|
                0 <= m < rs.len() ==> (exists|i: int|
                    0 <= i < datums.len() && datums[i].e == (#[trigger] rs[m]).e) && (exists|i: int|
                    0 <= i < db.datums.len() && db.datums[i].e == rs[m].v)
        }),
    decreases k,
{
    if k > 0 {
        lemma_ref_endpoints(datums, joins, db, entity, k - 1);
        let rs0 = all_refs_upto(datums, joins, db, entity, k - 1);
        let rs = all_refs_upto(datums, joins, db, entity, k);
        let attr = attr_of(entity, joins[k - 1].0);
        let olds = join_olds(joins[k - 1].1, db);
        lemma_join_refs_endpoints(datums, attr, olds, datums.len() as int);
        match spec_parse(joins[k - 1].1) {
            Ok(a) => {
                lemma_matching_sub(a, db, db.datums.len() as int);
            }
            Err(_) => {}
        }
        let block = join_refs_upto(datums, attr, olds, datums.len() as int);
        assert forall|m: int|
            0 <= m < rs.len() implies (exists|i: int|
                0 <= i < datums.len() && datums[i].e == (#[trigger] rs[m]).e) && (exists|i: int|
                0 <= i < db.datums.len() && db.datums[i].e == rs[m].v) by {
            if m < rs0.len() {
                assert(rs[m] == rs0[m]);
            } else {
                let mb = m - rs0.len();
                assert(rs[m] == block[mb]);
                let i1 = choose|i: int| 0 <= i < olds.len() && olds[i].e == block[mb].v;
                let i2 = choose|i: int| 0 <= i < db.datums.len() && db.datums[i] == olds[i1];
                assert(db.datums[i2].e == rs[m].v);
            }
        }
    }
}

/// Once a row has failed, every longer prefix fails the same way.
proof fn lemma_ingest_err_propagates(
    headers: Seq<Seq<char>>,
    rows: Seq<Seq<Seq<char>>>,
    time_index: int,
    offset: int,
    entity: Seq<char>,
    k: int,
    m: int,
)
    requires
        0 <= k <= m,
        ingest_upto(headers, rows, time_index, offset, entity, k) is Err,
    ensures
        ingest_upto(headers, rows, time_index, offset, entity, m) == ingest_upto(
            headers,
            rows,
            time_index,
            offset,
            entity,
            k,
        ),
    decreases m - k,
{
    if k < m {
        lemma_ingest_err_propagates(headers, rows, time_index, offset, entity, k + 1, m);
    }
}

} // verus!
