//! The in-memory tables: datums, references, and the store that owns them.

use vstd::prelude::*;

verus! {

/// One immutable observation: entity `e` carries attribute `a` with value
/// `v` at time `t`.  The attribute has the shape `"<entity>/<field>"`.
#[derive(Debug, Clone, PartialEq)]
pub struct Datum {
    pub e: usize,
    pub a: String,
    pub v: String,
    pub t: usize,
}

/// The mathematical image of a [`Datum`]: unbounded integers and character
/// sequences.
pub struct DatumView {
    pub e: int,
    pub a: Seq<char>,
    pub v: Seq<char>,
    pub t: int,
}

impl View for Datum {
    type V = DatumView;

    open spec fn view(&self) -> DatumView {
        DatumView { e: self.e as int, a: self.a@, v: self.v@, t: self.t as int }
    }
}

impl Datum {
    pub fn new(e: usize, a: &str, v: &str, t: usize) -> (d: Datum)
        ensures
            d@.e == e,
            d@.a == a@,
            d@.v == v@,
            d@.t == t,
    {
        Datum { e, a: a.to_owned(), v: v.to_owned(), t }
    }
}

/// A directed relation: entity `e` points at entity `v` under relation name
/// `a` (typically `"<fromEntity>/<toEntity>"`) at time `t`.
#[derive(Debug, Clone, PartialEq)]
pub struct Ref {
    pub e: usize,
    pub a: String,
    pub v: usize,
    pub t: usize,
}

/// The mathematical image of a [`Ref`].
pub struct RefView {
    pub e: int,
    pub a: Seq<char>,
    pub v: int,
    pub t: int,
}

impl View for Ref {
    type V = RefView;

    open spec fn view(&self) -> RefView {
        RefView { e: self.e as int, a: self.a@, v: self.v as int, t: self.t as int }
    }
}

impl Ref {
    pub fn new(e: usize, a: String, v: usize, t: usize) -> (r: Ref)
        ensures
            r@.e == e,
            r@.a == a@,
            r@.v == v,
            r@.t == t,
    {
        Ref { e, a, v, t }
    }
}

/// The store: ordered datum and reference tables plus the next entity id to
/// allocate.  Datums and refs are only ever appended, never edited.
#[derive(Debug, Clone, PartialEq)]
pub struct Db {
    pub datums: Vec<Datum>,
    pub refs: Vec<Ref>,
    pub offset: usize,
}

/// The mathematical image of a [`Db`].
pub struct DbModel {
    pub datums: Seq<DatumView>,
    pub refs: Seq<RefView>,
    pub offset: int,
}

impl View for Db {
    type V = DbModel;

    open spec fn view(&self) -> DbModel {
        DbModel {
            datums: self.datums@.map_values(|d: Datum| d@),
            refs: self.refs@.map_values(|r: Ref| r@),
            offset: self.offset as int,
        }
    }
}

impl Db {
    pub fn new() -> (db: Db)
        ensures
            db@.datums == Seq::<DatumView>::empty(),
            db@.refs == Seq::<RefView>::empty(),
            db@.offset == 0,
    {
        let db = Db { datums: Vec::new(), refs: Vec::new(), offset: 0 };
        proof {
            assert(db@.datums =~= Seq::<DatumView>::empty());
            assert(db@.refs =~= Seq::<RefView>::empty());
        }
        db
    }

    /// Append freshly ingested datums and refs and advance the allocation
    /// offset by `offset` (the number of rows the batch ingested).
    pub fn insert(&mut self, datums: Vec<Datum>, refs: Vec<Ref>, offset: usize)
        requires
            old(self).offset + offset <= usize::MAX,
        ensures
            final(self)@.datums == old(self)@.datums + datums@.map_values(|d: Datum| d@),
            final(self)@.refs == old(self)@.refs + refs@.map_values(|r: Ref| r@),
            final(self)@.offset == old(self)@.offset + offset,
    {
        let ghost new_datums = datums@;
        let ghost new_refs = refs@;
        let mut datums = datums;
        let mut refs = refs;
        self.datums.append(&mut datums);
        self.refs.append(&mut refs);
        self.offset = self.offset + offset;
        proof {
            assert(self@.datums =~= old(self)@.datums + new_datums.map_values(|d: Datum| d@));
            assert(self@.refs =~= old(self)@.refs + new_refs.map_values(|r: Ref| r@));
        }
    }
}

/// The errors the loader reports: a missing time header, or a time cell that
/// is not a non-negative integer.
#[derive(Debug, Clone, PartialEq)]
pub enum Error {
    TimeColumnTypeError(String),
    MissingTimeHeader(String),
}

/// An ordered selection of datums borrowed from a store: the result of a
/// query.
#[derive(Debug)]
pub struct DbView<'a> {
    pub datums: Vec<&'a Datum>,
}

/// The datum sequence a borrowed selection stands for.
pub open spec fn views_of_datums<'a>(s: Seq<&'a Datum>) -> Seq<DatumView> {
    s.map_values(|d: &Datum| d@)
}

/// The images of an owned datum vector.
pub open spec fn datum_views(s: Seq<Datum>) -> Seq<DatumView> {
    s.map_values(|d: Datum| d@)
}

/// The images of an owned reference vector.
pub open spec fn ref_views(s: Seq<Ref>) -> Seq<RefView> {
    s.map_values(|r: Ref| r@)
}

} // verus!
