//! Query semantics and the straightforward recursive, single-threaded
//! evaluator.
//!
//! [`datum_matches`] is the meaning of a query: which datums of a store it
//! selects.  [`Filter::execute`] evaluates a query directly by structural
//! recursion; the staged executor in [`crate::exec`] is proved to agree
//! with it.

use vstd::prelude::*;

verus! {

use crate::ast::{int_test, str_test, AstNode, AstView, Comparator};
use crate::ast::PredicatesView;
use crate::data::{views_of_datums, Datum, DatumView, Db, DbModel, DbView, Ref, RefView};

/// Parser output never contains a `CachedJoin` node.
pub open spec fn wf_query(ast: AstView) -> bool
    decreases ast,
{
    match ast {
        AstView::True => true,
        AstView::Or(l, r) => wf_query(*l) && wf_query(*r),
        AstView::Expression(_) => true,
        AstView::Join(_, c) => wf_query(*c),
        AstView::CachedJoin(_, _) => false,
    }
}

/// The empty query selects the whole store: evaluating `True` returns
/// every datum, in store order.
pub proof fn lemma_true_selects_all(db: DbModel, n: int)
    requires
        0 <= n <= db.datums.len(),
    ensures
        matching_prefix(AstView::True, db, n) == db.datums.take(n),
    decreases n,
{
    if n > 0 {
        lemma_true_selects_all(db, n - 1);
        assert(matching_prefix(AstView::True, db, n) =~= db.datums.take(n));
    } else {
        assert(matching_prefix(AstView::True, db, n) =~= db.datums.take(n));
    }
}

/// The store positions of the selected datums, in order.
pub open spec fn matching_indices(ast: AstView, db: DbModel, n: int) -> Seq<int>
    decreases n,
{
    if n <= 0 {
        Seq::empty()
    } else if datum_matches(ast, db, db.datums[n - 1]) {
        matching_indices(ast, db, n - 1).push(n - 1)
    } else {
        matching_indices(ast, db, n - 1)
    }
}

/// Query evaluation preserves store order: the k-th selected datum sits
/// at the k-th matching store position, and those positions strictly
/// increase.
pub proof fn lemma_order_preserving(ast: AstView, db: DbModel, n: int)
    requires
        0 <= n <= db.datums.len(),
    ensures
        ({
            let idx = matching_indices(ast, db, n);
            let res = matching_prefix(ast, db, n);
            &&& idx.len() == res.len()
            &&& forall|k: int| 0 <= k < idx.len() ==> 0 <= #[trigger] idx[k] < n
            &&& forall|k1: int, k2: int|
                0 <= k1 < k2 < idx.len() ==> #[trigger] idx[k1] < #[trigger] idx[k2]
            &&& forall|k: int|
                0 <= k < idx.len() ==> res[k] == db.datums[#[trigger] idx[k]]
        }),
    decreases n,
{
    if n > 0 {
        lemma_order_preserving(ast, db, n - 1);
        let idx0 = matching_indices(ast, db, n - 1);
        let res0 = matching_prefix(ast, db, n - 1);
        if datum_matches(ast, db, db.datums[n - 1]) {
            let idx = idx0.push(n - 1);
            let res = res0.push(db.datums[n - 1]);
            assert forall|k: int| 0 <= k < idx.len() implies 0 <= #[trigger] idx[k] < n by {
                if k < idx0.len() {
                    assert(idx[k] == idx0[k]);
                }
            }
            assert forall|k1: int, k2: int|
                0 <= k1 < k2 < idx.len() implies #[trigger] idx[k1] < #[trigger] idx[k2] by {
                if k2 < idx0.len() {
                    assert(idx[k1] == idx0[k1] && idx[k2] == idx0[k2]);
                } else {
                    assert(idx[k1] == idx0[k1] && idx[k2] == n - 1);
                }
            }
            assert forall|k: int|
                0 <= k < idx.len() implies res[k] == db.datums[#[trigger] idx[k]] by {
                if k < idx0.len() {
                    assert(idx[k] == idx0[k] && res[k] == res0[k]);
                }
            }
        }
    }
}

/// An optional integer-field predicate holds on a field value.
pub open spec fn int_pred_holds(p: Option<(int, Comparator)>, val: int) -> bool {
    match p {
        Some((v, c)) => int_test(c, val, v),
        None => true,
    }
}

/// An optional string-field predicate holds on a field value.
pub open spec fn str_pred_holds(p: Option<(Seq<char>, Comparator)>, val: Seq<char>) -> bool {
    match p {
        Some((s, c)) => str_test(c, val, s),
        None => true,
    }
}

/// All four field predicates of a base expression hold on a datum.
pub open spec fn base_matches(p: PredicatesView, d: DatumView) -> bool {
    &&& int_pred_holds(p.e, d.e)
    &&& str_pred_holds(p.a, d.a)
    &&& str_pred_holds(p.v, d.v)
    &&& int_pred_holds(p.t, d.t)
}

/// The non-entity predicates of a join hold on a datum.
pub open spec fn join_rest_matches(p: PredicatesView, d: DatumView) -> bool {
    &&& str_pred_holds(p.a, d.a)
    &&& str_pred_holds(p.v, d.v)
    &&& int_pred_holds(p.t, d.t)
}

/// A join's entity test: membership of the datum's entity id in the
/// translated id set, if an entity predicate is present at all.
pub open spec fn join_entity_matches(p: Option<(int, Comparator)>, eids: Set<int>, e: int) -> bool {
    match p {
        Some(_) => eids.contains(e),
        None => true,
    }
}

/// Translate entity ids through the reference table: an id on either end
/// of a ref whose other end lies in `eids` is included.
pub open spec fn translate_set(refs: Seq<RefView>, eids: Set<int>) -> Set<int> {
    Set::new(
        |x: int|
            exists|i: int|
                0 <= i < refs.len() && ((eids.contains((#[trigger] refs[i]).e) && refs[i].v == x)
                    || (eids.contains(refs[i].v) && refs[i].e == x)),
    )
}

/// Whether a query selects a datum of the store.  A `Join` tests the
/// datum's entity id against the translated entity ids of its sub-query;
/// `CachedJoin` has no meaning here and never holds.
pub open spec fn datum_matches(ast: AstView, db: DbModel, d: DatumView) -> bool
    decreases ast, 0int,
{
    match ast {
        AstView::True => true,
        AstView::Expression(p) => base_matches(p, d),
        AstView::Or(l, r) => datum_matches(*l, db, d) || datum_matches(*r, db, d),
        AstView::Join(p, c) => join_entity_matches(
            p.e,
            translate_set(db.refs, matching_eids(*c, db)),
            d.e,
        ) && join_rest_matches(p, d),
        AstView::CachedJoin(_, _) => false,
    }
}

/// The entity ids of the datums a query selects.
pub open spec fn matching_eids(ast: AstView, db: DbModel) -> Set<int>
    decreases ast, 1int,
{
    Set::new(
        |e: int|
            exists|i: int|
                0 <= i < db.datums.len() && datum_matches(ast, db, #[trigger] db.datums[i])
                    && db.datums[i].e == e,
    )
}

/// The selected datums among the first `n` of the store, in store order.
pub open spec fn matching_prefix(ast: AstView, db: DbModel, n: int) -> Seq<DatumView>
    decreases n,
{
    if n <= 0 {
        Seq::empty()
    } else if datum_matches(ast, db, db.datums[n - 1]) {
        matching_prefix(ast, db, n - 1).push(db.datums[n - 1])
    } else {
        matching_prefix(ast, db, n - 1)
    }
}

/// All selected datums of the store, in store order: the result a query
/// evaluation must produce.
pub open spec fn matching_datums(ast: AstView, db: DbModel) -> Seq<DatumView> {
    matching_prefix(ast, db, db.datums.len() as int)
}

/// An optional integer predicate, tested on a datum field.
pub fn test_predicate(pred: &Option<(usize, Comparator)>, datum_val: usize) -> (r: bool)
    ensures
        r == int_pred_holds(
            match *pred {
                Some((v, c)) => Some((v as int, c)),
                None => None,
            },
            datum_val as int,
        ),
{
    match pred {
        Some((v, comp)) => comp.test_int(datum_val, *v),
        None => true,
    }
}

/// An optional string predicate, tested on a datum field.
pub fn test_predicate_with_contains(pred: &Option<(String, Comparator)>, datum_val: &str) -> (r:
    bool)
    ensures
        r == str_pred_holds(
            match *pred {
                Some((s, c)) => Some((s@, c)),
                None => None,
            },
            datum_val@,
        ),
{
    match pred {
        Some((v, comp)) => comp.test_str(datum_val, v.as_str()),
        None => true,
    }
}

/// The entity test of a join: membership in the cached id list, if an
/// entity predicate is present at all.
pub fn test_join_predicate(pred: &Option<(usize, Comparator)>, eids: &Vec<usize>, datum_val: usize) -> (r:
    bool)
    ensures
        r == join_entity_matches(
            match *pred {
                Some((v, c)) => Some((v as int, c)),
                None => None,
            },
            set_of_usizes(eids@),
            datum_val as int,
        ),
{
    match pred {
        Some(_) => contains_usize(eids, datum_val),
        None => true,
    }
}

/// The integer set a vector of entity ids stands for.
pub open spec fn set_of_usizes(s: Seq<usize>) -> Set<int> {
    Set::new(|x: int| exists|i: int| 0 <= i < s.len() && (#[trigger] s[i]) as int == x)
}

/// Linear membership test.
pub fn contains_usize(v: &Vec<usize>, x: usize) -> (r: bool)
    ensures
        r == set_of_usizes(v@).contains(x as int),
{
    let mut i: usize = 0;
    loop
        invariant
            i <= v.len(),
            forall|j: int| 0 <= j < i ==> (#[trigger] v@[j]) != x,
        ensures
            if i < v.len() {
                v@[i as int] == x
            } else {
                forall|j: int| 0 <= j < v.len() ==> (#[trigger] v@[j]) != x
            },
        decreases v.len() - i,
    {
        if i >= v.len() {
            break;
        }
        if v[i] == x {
            break;
        }
        i = i + 1;
    }
    i < v.len()
}

/// Strictly increasing: sorted with no duplicates.
pub open spec fn sorted_nodup(s: Seq<usize>) -> bool {
    forall|i: int, j: int| 0 <= i < j < s.len() ==> #[trigger] s[i] < #[trigger] s[j]
}

/// Insert an entity id into a sorted, duplicate-free vector, keeping it so.
pub fn insert_sorted(v: &mut Vec<usize>, x: usize)
    requires
        sorted_nodup(old(v)@),
    ensures
        sorted_nodup(final(v)@),
        set_of_usizes(final(v)@) == set_of_usizes(old(v)@).insert(x as int),
{
    let mut i: usize = 0;
    while i < v.len() && v[i] < x
        invariant
            i <= v.len(),
            v == old(v),
            forall|j: int| 0 <= j < i ==> (#[trigger] v@[j]) < x,
            sorted_nodup(v@),
        decreases v.len() - i,
    {
        i = i + 1;
    }
    if i < v.len() && v[i] == x {
        proof {
            assert(set_of_usizes(v@).contains(x as int));
            assert(set_of_usizes(v@) =~= set_of_usizes(old(v)@).insert(x as int));
        }
        return ;
    }
    v.insert(i, x);
    proof {
        let olds = old(v)@;
        let news = v@;
        assert forall|p: int, q: int| 0 <= p < q < news.len() implies #[trigger] news[p]
            < #[trigger] news[q] by {
            if q < i {
                assert(news[p] == olds[p] && news[q] == olds[q]);
            } else if p > i {
                assert(news[p] == olds[p - 1] && news[q] == olds[q - 1]);
            } else if q == i {
                assert(news[p] == olds[p] && news[q] == x);
            } else if p == i {
                assert(news[q] == olds[q - 1] && news[p] == x);
                assert(olds[q - 1] >= olds[i as int]);
            } else {
                // p < i < q
                assert(news[p] == olds[p] && news[q] == olds[q - 1]);
                if q - 1 > i {
                    assert(olds[q - 1] > olds[i as int] >= x);
                }
            }
        };
        assert forall|y: int| set_of_usizes(news).contains(y) implies set_of_usizes(
            olds,
        ).insert(x as int).contains(y) by {
            let k = choose|k: int| 0 <= k < news.len() && (#[trigger] news[k]) as int == y;
            if k < i {
                assert(olds[k] as int == y);
            } else if k > i {
                assert(olds[k - 1] as int == y);
            }
        };
        assert forall|y: int| set_of_usizes(olds).insert(x as int).contains(y) implies set_of_usizes(
            news,
        ).contains(y) by {
            if y == x as int {
                assert(news[i as int] as int == y);
            } else {
                let k = choose|k: int| 0 <= k < olds.len() && (#[trigger] olds[k]) as int == y;
                if k < i {
                    assert(news[k] as int == y);
                } else {
                    assert(news[k + 1] as int == y);
                }
            }
        };
        assert(set_of_usizes(news) =~= set_of_usizes(olds).insert(x as int));
    }
}

/// The ids translated by the first `n` references.
pub open spec fn translate_upto(refs: Seq<RefView>, eids: Set<int>, n: int) -> Set<int> {
    Set::new(
        |x: int|
            exists|i: int|
                0 <= i < n && i < refs.len() && ((eids.contains((#[trigger] refs[i]).e)
                    && refs[i].v == x) || (eids.contains(refs[i].v) && refs[i].e == x)),
    )
}

/// Run a collected entity-id set through the reference table: for each id,
/// every id on the far side of a reference touching it is included.  The
/// result is sorted and duplicate-free.
pub fn translate_eids(refs: &Vec<Ref>, eids: &Vec<usize>) -> (r: Vec<usize>)
    ensures
        sorted_nodup(r@),
        set_of_usizes(r@) == translate_set(
            refs@.map_values(|rf: Ref| rf@),
            set_of_usizes(eids@),
        ),
{
    let ghost rviews = refs@.map_values(|rf: Ref| rf@);
    let ghost eset = set_of_usizes(eids@);
    let mut out: Vec<usize> = Vec::new();
    proof {
        assert(set_of_usizes(out@) =~= translate_upto(rviews, eset, 0));
    }
    let mut j: usize = 0;
    while j < refs.len()
        invariant
            j <= refs.len(),
            rviews == refs@.map_values(|rf: Ref| rf@),
            eset == set_of_usizes(eids@),
            sorted_nodup(out@),
            set_of_usizes(out@) == translate_upto(rviews, eset, j as int),
        decreases refs.len() - j,
    {
        let ghost prev = set_of_usizes(out@);
        let rf = &refs[j];
        proof {
            assert(rviews[j as int] == refs@[j as int]@);
        }
        if contains_usize(eids, rf.e) {
            insert_sorted(&mut out, rf.v);
        }
        if contains_usize(eids, rf.v) {
            insert_sorted(&mut out, rf.e);
        }
        proof {
            assert forall|y: int| set_of_usizes(out@).contains(y) implies translate_upto(
                rviews,
                eset,
                j + 1,
            ).contains(y) by {
                if prev.contains(y) {
                    let i = choose|i: int|
                        0 <= i < j && i < rviews.len() && ((eset.contains(
                            (#[trigger] rviews[i]).e,
                        ) && rviews[i].v == y) || (eset.contains(rviews[i].v) && rviews[i].e == y));
                    assert(0 <= i < j + 1 && i < rviews.len() && ((eset.contains(rviews[i].e)
                        && rviews[i].v == y) || (eset.contains(rviews[i].v) && rviews[i].e == y)));
                } else {
                    assert(0 <= j < j + 1 && j < rviews.len() && ((eset.contains(
                        rviews[j as int].e,
                    ) && rviews[j as int].v == y) || (eset.contains(rviews[j as int].v)
                        && rviews[j as int].e == y)));
                }
            };
            assert forall|y: int| translate_upto(rviews, eset, j + 1).contains(y)
                implies set_of_usizes(out@).contains(y) by {
                let i = choose|i: int|
                    0 <= i < j + 1 && i < rviews.len() && ((eset.contains(
                        (#[trigger] rviews[i]).e,
                    ) && rviews[i].v == y) || (eset.contains(rviews[i].v) && rviews[i].e == y));
                if i < j {
                    assert(translate_upto(rviews, eset, j as int).contains(y));
                }
            };
            assert(set_of_usizes(out@) =~= translate_upto(rviews, eset, j + 1));
        }
        j = j + 1;
    }
    proof {
        assert(set_of_usizes(out@) =~= translate_set(rviews, eset));
    }
    out
}

/// The entity ids occurring in a datum sequence.
pub open spec fn eids_of(s: Seq<DatumView>) -> Set<int> {
    Set::new(|e: int| exists|i: int| 0 <= i < s.len() && (#[trigger] s[i]).e == e)
}

/// Collect the distinct entity ids of a selection, sorted ascending.
pub fn extract_eids(datums: Vec<&Datum>) -> (r: Vec<usize>)
    ensures
        sorted_nodup(r@),
        set_of_usizes(r@) == eids_of(views_of_datums(datums@)),
{
    let ghost dviews = views_of_datums(datums@);
    let mut out: Vec<usize> = Vec::new();
    proof {
        assert(set_of_usizes(out@) =~= eids_of(dviews.take(0)));
    }
    let mut i: usize = 0;
    while i < datums.len()
        invariant
            i <= datums.len(),
            dviews == views_of_datums(datums@),
            sorted_nodup(out@),
            set_of_usizes(out@) == eids_of(dviews.take(i as int)),
        decreases datums.len() - i,
    {
        let e = datums[i].e;
        proof {
            assert(dviews[i as int] == datums@[i as int]@);
        }
        insert_sorted(&mut out, e);
        proof {
            let p0 = dviews.take(i as int);
            let p1 = dviews.take(i + 1);
            assert forall|y: int| set_of_usizes(out@).contains(y) implies eids_of(p1).contains(
                y,
            ) by {
                if eids_of(p0).contains(y) {
                    let k = choose|k: int| 0 <= k < p0.len() && (#[trigger] p0[k]).e == y;
                    assert(p1[k].e == y);
                } else {
                    assert(p1[i as int].e == y);
                }
            };
            assert forall|y: int| eids_of(p1).contains(y) implies set_of_usizes(out@).contains(
                y,
            ) by {
                let k = choose|k: int| 0 <= k < p1.len() && (#[trigger] p1[k]).e == y;
                if k < i {
                    assert(p0[k].e == y);
                    assert(eids_of(p0).contains(y));
                }
            };
            assert(set_of_usizes(out@) =~= eids_of(p1));
        }
        i = i + 1;
    }
    proof {
        assert(dviews.take(datums@.len() as int) =~= dviews);
    }
    out
}

/// The entity ids contributed by the first `n` datums a query selects.
pub open spec fn eids_upto(ast: AstView, db: DbModel, n: int) -> Set<int> {
    Set::new(
        |e: int|
            exists|i: int|
                0 <= i < n && i < db.datums.len() && datum_matches(
                    ast,
                    db,
                    #[trigger] db.datums[i],
                ) && db.datums[i].e == e,
    )
}

proof fn lemma_prefix_eids(ast: AstView, db: DbModel, n: int)
    requires
        0 <= n <= db.datums.len(),
    ensures
        eids_of(matching_prefix(ast, db, n)) == eids_upto(ast, db, n),
    decreases n,
{
    if n == 0 {
        assert(eids_of(matching_prefix(ast, db, 0)) =~= eids_upto(ast, db, 0));
    } else {
        lemma_prefix_eids(ast, db, n - 1);
        let p0 = matching_prefix(ast, db, n - 1);
        let p1 = matching_prefix(ast, db, n);
        assert forall|y: int| eids_of(p1).contains(y) implies eids_upto(ast, db, n).contains(
            y,
        ) by {
            let k = choose|k: int| 0 <= k < p1.len() && (#[trigger] p1[k]).e == y;
            if k < p0.len() {
                assert(p0[k].e == y);
                assert(eids_upto(ast, db, n - 1).contains(y));
                let i = choose|i: int|
                    0 <= i < n - 1 && i < db.datums.len() && datum_matches(
                        ast,
                        db,
                        #[trigger] db.datums[i],
                    ) && db.datums[i].e == y;
                assert(0 <= i < n && i < db.datums.len() && datum_matches(ast, db, db.datums[i])
                    && db.datums[i].e == y);
            } else {
                assert(p1[k] == db.datums[n - 1]);
            }
        };
        assert forall|y: int| eids_upto(ast, db, n).contains(y) implies eids_of(p1).contains(
            y,
        ) by {
            let i = choose|i: int|
                0 <= i < n && i < db.datums.len() && datum_matches(
                    ast,
                    db,
                    #[trigger] db.datums[i],
                ) && db.datums[i].e == y;
            if i < n - 1 {
                assert(eids_upto(ast, db, n - 1).contains(y));
                let k = choose|k: int| 0 <= k < p0.len() && (#[trigger] p0[k]).e == y;
                assert(p1[k].e == y);
            } else {
                assert(datum_matches(ast, db, db.datums[n - 1]));
                assert(p1.last().e == y);
            }
        };
        assert(eids_of(p1) =~= eids_upto(ast, db, n));
    }
}

/// The ids a selection's datums carry are exactly the query's matching ids.
pub proof fn lemma_matching_eids(ast: AstView, db: DbModel)
    ensures
        eids_of(matching_datums(ast, db)) == matching_eids(ast, db),
{
    lemma_prefix_eids(ast, db, db.datums.len() as int);
    assert(eids_upto(ast, db, db.datums.len() as int) =~= matching_eids(ast, db));
}

/// One evaluation pass: every datum of the store the query selects, in
/// store order.
pub fn run_step<'a>(db: &'a Db, ast: &AstNode) -> (r: Vec<&'a Datum>)
    requires
        wf_query(ast@),
    ensures
        views_of_datums(r@) == matching_datums(ast@, db@),
    decreases ast, 1int,
{
    let mut out: Vec<&'a Datum> = Vec::new();
    proof {
        assert(views_of_datums(out@) =~= matching_prefix(ast@, db@, 0));
    }
    let mut i: usize = 0;
    while i < db.datums.len()
        invariant
            i <= db.datums.len(),
            wf_query(ast@),
            views_of_datums(out@) == matching_prefix(ast@, db@, i as int),
        decreases db.datums.len() - i,
    {
        let d = &db.datums[i];
        proof {
            assert(db@.datums[i as int] == db.datums@[i as int]@);
        }
        if eval(ast, db, d) {
            out.push(d);
        }
        proof {
            assert(views_of_datums(out@) =~= matching_prefix(ast@, db@, i + 1));
        }
        i = i + 1;
    }
    out
}

/// The recursive evaluator: does the query select this datum?
pub fn eval(ast: &AstNode, db: &Db, datum: &Datum) -> (r: bool)
    requires
        wf_query(ast@),
    ensures
        r == datum_matches(ast@, db@, datum@),
    decreases ast, 0int,
{
    match ast {
        AstNode::True => true,
        AstNode::Expression(preds) => {
            test_predicate(&preds.e, datum.e) && test_predicate_with_contains(
                &preds.a,
                datum.a.as_str(),
            ) && test_predicate_with_contains(&preds.v, datum.v.as_str()) && test_predicate(
                &preds.t,
                datum.t,
            )
        }
        AstNode::Or(l, r) => {
            let lr = eval(l, db, datum);
            lr || eval(r, db, datum)
        }
        AstNode::Join(preds, c) => {
            let sub = run_step(db, c);
            let from_eids = extract_eids(sub);
            let translated = translate_eids(&db.refs, &from_eids);
            proof {
                lemma_matching_eids((**c)@, db@);
            }
            let er = test_join_predicate(&preds.e, &translated, datum.e);
            er && test_predicate_with_contains(&preds.a, datum.a.as_str())
                && test_predicate_with_contains(&preds.v, datum.v.as_str()) && test_predicate(
                &preds.t,
                datum.t,
            )
        }
        AstNode::CachedJoin(_, _) => vstd::pervasive::unreached(),
    }
}

/// The recursive query runner over one store.
pub struct Filter<'a> {
    pub db: &'a Db,
}

impl<'a> Filter<'a> {
    pub fn new(db: &'a Db) -> (f: Filter<'a>)
        ensures
            f.db == db,
    {
        Filter { db }
    }

    /// Evaluate a query over the store: the selected datums, in store
    /// order.
    pub fn execute(self, ast: &AstNode) -> (res: DbView<'a>)
        requires
            wf_query(ast@),
        ensures
            views_of_datums(res.datums@) == matching_datums(ast@, self.db@),
    {
        DbView { datums: run_step(self.db, ast) }
    }
}

} // verus!
