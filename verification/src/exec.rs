//! The staged executor: evaluate a compiled plan over the store.
//!
//! Stage by stage, every task of the stage is tested against every datum,
//! tagging the datums it matches; after a stage, each `Collect` task's
//! entity ids are materialized into the cache, translated through the
//! reference table when the task feeds a join.  The result is every datum
//! tagged by the root task, in store order — proved equal to what the
//! recursive evaluator in [`crate::filter`] selects.

use vstd::prelude::*;

verus! {

use crate::ast::{AstNode, AstView};
use crate::data::{views_of_datums, Datum, DatumView, Db, DbModel};
use crate::filter::{
    base_matches,
    datum_matches,
    insert_sorted,
    join_entity_matches,
    join_rest_matches,
    matching_datums,
    matching_eids,
    matching_prefix,
    set_of_usizes,
    sorted_nodup,
    test_join_predicate,
    test_predicate,
    test_predicate_with_contains,
    translate_eids,
    translate_set,
    wf_query,
};
use crate::plan::{
    lemma_plan_shape,
    lemma_stage_ids_contains,
    represents,
    shape_ok,
    spec_action,
    spec_is_join_child,
    spec_nodes,
    spec_stage_seq,
    stage_ids_upto,
    Action,
    IndexedNode,
    IndexedNodeView,
    Plan,
    Task,
};

/// Whether task `i` of a task list holds on a datum: the meaning of a
/// compiled task, by recursion over the (downward-pointing) task ids.
pub open spec fn task_matches(ns: Seq<IndexedNodeView>, i: int, db: DbModel, d: DatumView) -> bool
    decreases i, 1int,
{
    if i < 0 || i >= ns.len() {
        false
    } else {
        match ns[i] {
            IndexedNodeView::Base(p) => base_matches(p, d),
            IndexedNodeView::Or(l, r) => (0 <= l < i && task_matches(ns, l, db, d)) || (0 <= r < i
                && task_matches(ns, r, db, d)),
            IndexedNodeView::Join(p, c) => 0 <= c < i && join_entity_matches(
                p.e,
                translate_set(db.refs, task_eids(ns, c, db)),
                d.e,
            ) && join_rest_matches(p, d),
        }
    }
}

/// The entity ids of the datums task `i` holds on.
pub open spec fn task_eids(ns: Seq<IndexedNodeView>, i: int, db: DbModel) -> Set<int>
    decreases i, 2int,
{
    Set::new(
        |e: int|
            exists|k: int|
                0 <= k < db.datums.len() && task_matches(ns, i, db, #[trigger] db.datums[k])
                    && db.datums[k].e == e,
    )
}

/// A task that stands for a query subtree holds on exactly the datums the
/// subtree's query selects.
pub proof fn lemma_represents_matches(
    ns: Seq<IndexedNodeView>,
    i: int,
    ast: AstView,
    db: DbModel,
    d: DatumView,
)
    requires
        represents(ns, i, ast),
    ensures
        task_matches(ns, i, db, d) == datum_matches(ast, db, d),
    decreases ast,
{
    match ast {
        AstView::True => {}
        AstView::Expression(_) => {}
        AstView::Or(l, r) => {
            match ns[i] {
                IndexedNodeView::Or(li, ri) => {
                    lemma_represents_matches(ns, li, *l, db, d);
                    lemma_represents_matches(ns, ri, *r, db, d);
                }
                _ => {}
            }
        }
        AstView::Join(_, c) => {
            match ns[i] {
                IndexedNodeView::Join(_, ci) => {
                    assert forall|k: int| 0 <= k < db.datums.len() implies task_matches(
                        ns,
                        ci,
                        db,
                        #[trigger] db.datums[k],
                    ) == datum_matches(*c, db, db.datums[k]) by {
                        lemma_represents_matches(ns, ci, *c, db, db.datums[k]);
                    }
                    assert forall|e: int| task_eids(ns, ci, db).contains(e) implies matching_eids(
                        *c,
                        db,
                    ).contains(e) by {
                        let k = choose|k: int|
                            0 <= k < db.datums.len() && task_matches(
                                ns,
                                ci,
                                db,
                                #[trigger] db.datums[k],
                            ) && db.datums[k].e == e;
                        assert(datum_matches(*c, db, db.datums[k]) && db.datums[k].e == e);
                    }
                    assert forall|e: int| matching_eids(*c, db).contains(e) implies task_eids(
                        ns,
                        ci,
                        db,
                    ).contains(e) by {
                        let k = choose|k: int|
                            0 <= k < db.datums.len() && datum_matches(
                                *c,
                                db,
                                #[trigger] db.datums[k],
                            ) && db.datums[k].e == e;
                        assert(task_matches(ns, ci, db, db.datums[k]) && db.datums[k].e == e);
                    }
                    assert(task_eids(ns, ci, db) =~= matching_eids(*c, db));
                }
                _ => {}
            }
        }
        AstView::CachedJoin(_, _) => {}
    }
}

/// What a materialized cache entry holds.
pub open spec fn cache_entry(o: Option<Vec<usize>>) -> Seq<usize> {
    match o {
        Some(v) => v@,
        None => Seq::empty(),
    }
}

/// Test one task against one datum, reading earlier tags and the cache.
fn test_node(
    node: &IndexedNode,
    datum: &Datum,
    tags_row: &Vec<bool>,
    cache: &Vec<Option<Vec<usize>>>,
) -> (r: bool)
    requires
        match node@ {
            IndexedNodeView::Or(l, r) => 0 <= l < tags_row@.len() && 0 <= r < tags_row@.len(),
            IndexedNodeView::Join(_, c) => 0 <= c < cache@.len() && cache@[c] is Some,
            IndexedNodeView::Base(_) => true,
        },
    ensures
        r == match node@ {
            IndexedNodeView::Base(p) => base_matches(p, datum@),
            IndexedNodeView::Or(l, r) => tags_row@[l] || tags_row@[r],
            IndexedNodeView::Join(p, c) => join_entity_matches(
                p.e,
                set_of_usizes(cache_entry(cache@[c])),
                datum@.e,
            ) && join_rest_matches(p, datum@),
        },
{
    match node {
        IndexedNode::Base(preds) => {
            test_predicate(&preds.e, datum.e) && test_predicate_with_contains(
                &preds.a,
                datum.a.as_str(),
            ) && test_predicate_with_contains(&preds.v, datum.v.as_str()) && test_predicate(
                &preds.t,
                datum.t,
            )
        }
        IndexedNode::Or(l, r) => tags_row[*l] || tags_row[*r],
        IndexedNode::Join(preds, c) => {
            let cv: &Vec<usize> = match &cache[*c] {
                Some(v) => v,
                None => vstd::pervasive::unreached(),
            };
            let er = test_join_predicate(&preds.e, cv, datum.e);
            er && test_predicate_with_contains(&preds.a, datum.a.as_str())
                && test_predicate_with_contains(&preds.v, datum.v.as_str()) && test_predicate(
                &preds.t,
                datum.t,
            )
        }
    }
}

/// The node views of a task vector.
pub open spec fn task_node_views(s: Seq<Task>) -> Seq<IndexedNodeView> {
    s.map_values(|t: Task| t@.node)
}

/// Whether some task of the vector is a join depending on task `i`.
fn task_is_join_child(tasks: &Vec<Task>, i: usize) -> (r: bool)
    ensures
        r == spec_is_join_child(task_node_views(tasks@), i as int),
{
    let ghost ns = task_node_views(tasks@);
    let mut j: usize = 0;
    loop
        invariant
            j <= tasks.len(),
            ns == task_node_views(tasks@),
            forall|j2: int|
                0 <= j2 < j ==> !((#[trigger] ns[j2]) matches IndexedNodeView::Join(_, c) && c == i
                    as int),
        ensures
            if j < tasks@.len() {
                ns[j as int] matches IndexedNodeView::Join(_, c) && c == i as int
            } else {
                !spec_is_join_child(ns, i as int)
            },
        decreases tasks.len() - j,
    {
        if j >= tasks.len() {
            break;
        }
        proof {
            assert(ns[j as int] == tasks@[j as int]@.node);
        }
        let t = &tasks[j];
        let found = match &t.0 {
            IndexedNode::Join(_, c) => *c == i,
            _ => false,
        };
        if found {
            break;
        }
        j = j + 1;
    }
    j < tasks.len()
}

proof fn lemma_push_contains(s: Seq<usize>, v: usize, x: usize)
    ensures
        s.push(v).contains(x) <==> (s.contains(x) || x == v),
{
    if s.push(v).contains(x) {
        let idx = choose|idx: int| 0 <= idx < s.push(v).len() && s.push(v)[idx] == x;
        if idx < s.len() {
            assert(s[idx] == x);
        }
    }
    if s.contains(x) {
        let idx = choose|idx: int| 0 <= idx < s.len() && s[idx] == x;
        assert(s.push(v)[idx] == x);
    }
    if x == v {
        assert(s.push(v)[s.len() as int] == x);
    }
}

/// Every structural fact the executor needs about a compiled plan.
pub open spec fn plan_matches(plan: Plan, ast: AstView) -> bool {
    let ns = spec_nodes(ast);
    let st = spec_stage_seq(ast);
    &&& plan.tasks@.len() == ns.len()
    &&& st.len() == ns.len()
    &&& ns.len() >= 1
    &&& forall|i: int|
        0 <= i < ns.len() ==> (#[trigger] plan.tasks@[i])@.node == ns[i] && plan.tasks@[i]@.action
            == spec_action(ns, i)
    &&& plan.stages@.len() == st.last() + 1
    &&& forall|s2: int|
        0 <= s2 < plan.stages@.len() ==> (#[trigger] plan.stages@[s2])@ == stage_ids_upto(
            st,
            s2,
            st.len() as int,
        )
    &&& forall|i: int| 0 <= i < ns.len() ==> #[trigger] shape_ok(ns, st, i)
    &&& forall|i: int| 0 <= i < ns.len() ==> #[trigger] st[i] <= st.last()
    &&& represents(ns, ns.len() - 1, ast)
}

/// Tags are settled for every task of a stage before `s` and for every
/// task of stage `s` on the first `a` datums, and clear elsewhere.
pub open spec fn tags_mid_stage(
    tags: Seq<Vec<bool>>,
    ns: Seq<IndexedNodeView>,
    st: Seq<int>,
    db: DbModel,
    s: int,
    a: int,
) -> bool {
    forall|x: int, j: int|
        0 <= x < tags.len() && 0 <= j < ns.len() ==> (#[trigger] tags[x]@[j]) == ((st[j] < s || (x
            < a && st[j] == s)) && task_matches(ns, j, db, db.datums[x]))
}

/// One row of tags is settled for earlier stages and for the `done` tasks
/// of the current stage, and clear elsewhere.
pub open spec fn row_mid(
    row: Seq<bool>,
    ns: Seq<IndexedNodeView>,
    st: Seq<int>,
    db: DbModel,
    s: int,
    done: Seq<usize>,
    d: DatumView,
) -> bool {
    forall|j: int|
        0 <= j < ns.len() ==> (#[trigger] row[j]) == ((st[j] < s || done.contains(j as usize))
            && task_matches(ns, j, db, d))
}

/// Cache entries are materialized (and translated) for every join
/// dependency of a stage before `s`, or listed in `done` for stage `s`.
pub open spec fn cache_mid(
    cache: Seq<Option<Vec<usize>>>,
    ns: Seq<IndexedNodeView>,
    st: Seq<int>,
    db: DbModel,
    s: int,
    done: Seq<usize>,
) -> bool {
    forall|j: int|
        0 <= j < ns.len() && spec_is_join_child(ns, j) && (st[j] < s || done.contains(j as usize))
            ==> (#[trigger] cache[j]) is Some && set_of_usizes(cache_entry(cache[j]))
            == translate_set(db.refs, task_eids(ns, j, db))
}

/// The entity ids of the first `m` datums that task `i` holds on.
pub open spec fn task_eids_upto(
    ns: Seq<IndexedNodeView>,
    i: int,
    db: DbModel,
    m: int,
) -> Set<int> {
    Set::new(
        |e: int|
            exists|k: int|
                0 <= k < m && k < db.datums.len() && task_matches(
                    ns,
                    i,
                    db,
                    #[trigger] db.datums[k],
                ) && db.datums[k].e == e,
    )
}

/// Evaluate a query over the store with the staged plan: the selected
/// datums, in store order — the same selection the recursive evaluator
/// makes.
pub fn exec<'a>(ast: &AstNode, db: &'a Db) -> (r: Vec<&'a Datum>)
    requires
        wf_query(ast@),
    ensures
        views_of_datums(r@) == matching_datums(ast@, db@),
{
    let ghost ns = spec_nodes(ast@);
    let ghost st = spec_stage_seq(ast@);
    let plan = Plan::new(ast);
    proof {
        lemma_plan_shape(ast@);
        assert(plan_matches(plan, ast@));
    }
    let n = plan.tasks.len();
    let dlen = db.datums.len();

    // All-clear tag rows, one per datum.
    let mut tags: Vec<Vec<bool>> = Vec::new();
    let mut x0: usize = 0;
    while x0 < dlen
        invariant
            x0 <= dlen,
            tags@.len() == x0,
            forall|x: int| 0 <= x < x0 ==> (#[trigger] tags@[x])@.len() == n,
            forall|x: int, j: int|
                0 <= x < x0 && 0 <= j < n ==> !(#[trigger] tags@[x]@[j]),
        decreases dlen - x0,
    {
        let mut row: Vec<bool> = Vec::new();
        let mut j0: usize = 0;
        while j0 < n
            invariant
                j0 <= n,
                row@.len() == j0,
                forall|j: int| 0 <= j < j0 ==> !(#[trigger] row@[j]),
            decreases n - j0,
        {
            row.push(false);
            j0 = j0 + 1;
        }
        tags.push(row);
        x0 = x0 + 1;
    }

    // An unfilled cache slot per task.
    let mut cache: Vec<Option<Vec<usize>>> = Vec::new();
    let mut j1: usize = 0;
    while j1 < n
        invariant
            j1 <= n,
            cache@.len() == j1,
        decreases n - j1,
    {
        cache.push(None);
        j1 = j1 + 1;
    }

    proof {
        assert forall|x: int, j: int|
            0 <= x < tags@.len() && 0 <= j < ns.len() implies (#[trigger] tags@[x]@[j]) == ((st[j]
            < 0 || (x < 0 && st[j] == 0)) && task_matches(ns, j, db@, db@.datums[x])) by {
            assert(shape_ok(ns, st, j));
        }
        assert forall|j: int| 0 <= j < ns.len() implies !(st[j] < 0
            || Seq::<usize>::empty().contains(j as usize)) by {
            assert(shape_ok(ns, st, j));
        }
    }

    // Stage loop: tag, then collect.
    let mut s: usize = 0;
    while s < plan.stages.len()
        invariant
            plan_matches(plan, ast@),
            ns == spec_nodes(ast@),
            st == spec_stage_seq(ast@),
            wf_query(ast@),
            n == plan.tasks@.len(),
            dlen == db.datums@.len(),
            s <= plan.stages@.len(),
            tags@.len() == dlen,
            forall|x: int| 0 <= x < dlen ==> (#[trigger] tags@[x])@.len() == n,
            cache@.len() == n,
            tags_mid_stage(tags@, ns, st, db@, s as int, 0),
            cache_mid(cache@, ns, st, db@, s as int, Seq::empty()),
        decreases plan.stages@.len() - s,
    {
        let stage_list = &plan.stages[s];
        proof {
            assert(stage_list@ == stage_ids_upto(st, s as int, st.len() as int));
        }

        // Tag phase: settle this stage's tasks on every datum.
        let mut x: usize = 0;
        while x < dlen
            invariant
                plan_matches(plan, ast@),
                ns == spec_nodes(ast@),
                st == spec_stage_seq(ast@),
                wf_query(ast@),
                n == plan.tasks@.len(),
                dlen == db.datums@.len(),
                s < plan.stages@.len(),
                stage_list@ == stage_ids_upto(st, s as int, st.len() as int),
                x <= dlen,
                tags@.len() == dlen,
                forall|x2: int| 0 <= x2 < dlen ==> (#[trigger] tags@[x2])@.len() == n,
                cache@.len() == n,
                tags_mid_stage(tags@, ns, st, db@, s as int, x as int),
                cache_mid(cache@, ns, st, db@, s as int, Seq::empty()),
            decreases dlen - x,
        {
            let ghost tags_pre = tags@;
            let mut row = tags.remove(x);
            let datum = &db.datums[x];
            proof {
                assert(db@.datums[x as int] == db.datums@[x as int]@);
                assert(row_mid(row@, ns, st, db@, s as int, stage_list@.take(0), datum@));
            }
            let mut k: usize = 0;
            while k < stage_list.len()
                invariant
                    plan_matches(plan, ast@),
                    ns == spec_nodes(ast@),
                    st == spec_stage_seq(ast@),
                    n == plan.tasks@.len(),
                    dlen == db.datums@.len(),
                    s < plan.stages@.len(),
                    stage_list@ == stage_ids_upto(st, s as int, st.len() as int),
                    x < dlen,
                    k <= stage_list@.len(),
                    datum@ == db@.datums[x as int],
                    row@.len() == n,
                    cache@.len() == n,
                    cache_mid(cache@, ns, st, db@, s as int, Seq::empty()),
                    row_mid(row@, ns, st, db@, s as int, stage_list@.take(k as int), datum@),
                decreases stage_list@.len() - k,
            {
                let id = stage_list[k];
                proof {
                    assert(stage_list@.contains(id)) by {
                        assert(stage_list@[k as int] == id);
                    }
                    lemma_stage_ids_contains(st, s as int, st.len() as int, id);
                    assert(shape_ok(ns, st, id as int));
                    assert(ns[id as int] == plan.tasks@[id as int]@.node);
                    match ns[id as int] {
                        IndexedNodeView::Base(_) => {}
                        IndexedNodeView::Or(l, r) => {
                            assert(shape_ok(ns, st, l));
                            assert(shape_ok(ns, st, r));
                        }
                        IndexedNodeView::Join(_, c) => {
                            assert(shape_ok(ns, st, c));
                            assert(spec_is_join_child(ns, c)) by {
                                assert(ns[id as int] matches IndexedNodeView::Join(_, c2) && c2
                                    == c);
                            }
                            assert((#[trigger] cache@[c]) is Some && set_of_usizes(
                                cache_entry(cache@[c]),
                            ) == translate_set(db@.refs, task_eids(ns, c, db@)));
                        }
                    }
                }
                let t = &plan.tasks[id];
                let val = test_node(&t.0, datum, &row, &cache);
                proof {
                    assert(val == task_matches(ns, id as int, db@, datum@));
                }
                if val {
                    row.set(id, true);
                }
                proof {
                    let done0 = stage_list@.take(k as int);
                    let done1 = stage_list@.take(k as int + 1);
                    assert(done1 =~= done0.push(id));
                    assert forall|j: int| 0 <= j < ns.len() implies (#[trigger] row@[j]) == ((st[j]
                        < s as int || done1.contains(j as usize)) && task_matches(
                        ns,
                        j,
                        db@,
                        datum@,
                    )) by {
                        lemma_push_contains(done0, id, j as usize);
                    }
                }
                k = k + 1;
            }
            proof {
                assert forall|j: int| 0 <= j < ns.len() implies (#[trigger] row@[j]) == ((st[j]
                    <= s as int) && task_matches(ns, j, db@, datum@)) by {
                    lemma_stage_ids_contains(st, s as int, st.len() as int, j as usize);
                    assert(stage_list@.take(stage_list@.len() as int) =~= stage_list@);
                }
            }
            tags.insert(x, row);
            proof {
                assert forall|x2: int, j: int|
                    0 <= x2 < tags@.len() && 0 <= j < ns.len() implies (#[trigger] tags@[x2]@[j])
                    == ((st[j] < s as int || (x2 < x as int + 1 && st[j] == s as int))
                    && task_matches(ns, j, db@, db@.datums[x2])) by {
                    if x2 < x as int {
                        assert(tags@[x2] == tags_pre[x2]);
                    } else if x2 == x as int {
                    } else {
                        assert(tags@[x2] == tags_pre[x2]);
                    }
                }
            }
            x = x + 1;
        }

        // Collect phase: materialize this stage's collect tasks.
        let mut k2: usize = 0;
        while k2 < stage_list.len()
            invariant
                plan_matches(plan, ast@),
                ns == spec_nodes(ast@),
                st == spec_stage_seq(ast@),
                n == plan.tasks@.len(),
                dlen == db.datums@.len(),
                s < plan.stages@.len(),
                stage_list@ == stage_ids_upto(st, s as int, st.len() as int),
                k2 <= stage_list@.len(),
                tags@.len() == dlen,
                forall|x2: int| 0 <= x2 < dlen ==> (#[trigger] tags@[x2])@.len() == n,
                cache@.len() == n,
                tags_mid_stage(tags@, ns, st, db@, s as int, dlen as int),
                cache_mid(cache@, ns, st, db@, s as int, stage_list@.take(k2 as int)),
            decreases stage_list@.len() - k2,
        {
            let id = stage_list[k2];
            proof {
                assert(stage_list@.contains(id)) by {
                    assert(stage_list@[k2 as int] == id);
                }
                lemma_stage_ids_contains(st, s as int, st.len() as int, id);
                assert(ns[id as int] == plan.tasks@[id as int]@.node);
            }
            let t = &plan.tasks[id];
            let is_collect = match t.1 {
                Action::Collect => true,
                Action::Tag => false,
            };
            if is_collect {
                let mut eids: Vec<usize> = Vec::new();
                proof {
                    assert(set_of_usizes(eids@) =~= task_eids_upto(ns, id as int, db@, 0));
                }
                let mut a2: usize = 0;
                while a2 < dlen
                    invariant
                        ns == spec_nodes(ast@),
                        st == spec_stage_seq(ast@),
                        dlen == db.datums@.len(),
                        a2 <= dlen,
                        (id as int) < ns.len(),
                        st[id as int] == s as int,
                        tags@.len() == dlen,
                        forall|x2: int| 0 <= x2 < dlen ==> (#[trigger] tags@[x2])@.len() == n,
                        n == plan.tasks@.len(),
                        ns.len() == n,
                        tags_mid_stage(tags@, ns, st, db@, s as int, dlen as int),
                        sorted_nodup(eids@),
                        set_of_usizes(eids@) == task_eids_upto(ns, id as int, db@, a2 as int),
                    decreases dlen - a2,
                {
                    let rowr = &tags[a2];
                    let tagged = rowr[id];
                    proof {
                        assert(db@.datums[a2 as int] == db.datums@[a2 as int]@);
                        assert(tagged == task_matches(ns, id as int, db@, db@.datums[a2 as int]));
                    }
                    let ghost prev = set_of_usizes(eids@);
                    if tagged {
                        insert_sorted(&mut eids, db.datums[a2].e);
                    }
                    proof {
                        assert forall|e: int| set_of_usizes(eids@).contains(e)
                            implies task_eids_upto(ns, id as int, db@, a2 as int + 1).contains(
                            e,
                        ) by {
                            if prev.contains(e) {
                                let kk = choose|kk: int|
                                    0 <= kk < a2 as int && kk < db@.datums.len() && task_matches(
                                        ns,
                                        id as int,
                                        db@,
                                        #[trigger] db@.datums[kk],
                                    ) && db@.datums[kk].e == e;
                                assert(0 <= kk < a2 as int + 1 && kk < db@.datums.len()
                                    && task_matches(ns, id as int, db@, db@.datums[kk])
                                    && db@.datums[kk].e == e);
                            } else {
                                assert(tagged && e == db@.datums[a2 as int].e);
                                assert((a2 as int) < a2 as int + 1 && (a2 as int)
                                    < db@.datums.len() && task_matches(
                                    ns,
                                    id as int,
                                    db@,
                                    db@.datums[a2 as int],
                                ) && db@.datums[a2 as int].e == e);
                            }
                        }
                        assert forall|e: int|
                            task_eids_upto(ns, id as int, db@, a2 as int + 1).contains(e)
                            implies set_of_usizes(eids@).contains(e) by {
                            let kk = choose|kk: int|
                                0 <= kk < a2 as int + 1 && kk < db@.datums.len() && task_matches(
                                    ns,
                                    id as int,
                                    db@,
                                    #[trigger] db@.datums[kk],
                                ) && db@.datums[kk].e == e;
                            if kk < a2 as int {
                                assert(task_eids_upto(ns, id as int, db@, a2 as int).contains(e));
                            }
                        }
                        assert(set_of_usizes(eids@) =~= task_eids_upto(
                            ns,
                            id as int,
                            db@,
                            a2 as int + 1,
                        ));
                    }
                    a2 = a2 + 1;
                }
                proof {
                    assert(task_eids_upto(ns, id as int, db@, dlen as int) =~= task_eids(
                        ns,
                        id as int,
                        db@,
                    ));
                }
                let jc = task_is_join_child(&plan.tasks, id);
                proof {
                    assert(task_node_views(plan.tasks@) =~= ns);
                }
                let entry: Vec<usize> = if jc {
                    translate_eids(&db.refs, &eids)
                } else {
                    eids
                };
                let ghost cache_pre = cache@;
                cache.set(id, Some(entry));
                proof {
                    let done0 = stage_list@.take(k2 as int);
                    let done1 = stage_list@.take(k2 as int + 1);
                    assert(done1 =~= done0.push(id));
                    assert forall|j: int|
                        0 <= j < ns.len() && spec_is_join_child(ns, j) && (st[j] < s as int
                            || done1.contains(j as usize)) implies (#[trigger] cache@[j]) is Some
                        && set_of_usizes(cache_entry(cache@[j])) == translate_set(
                        db@.refs,
                        task_eids(ns, j, db@),
                    ) by {
                        lemma_push_contains(done0, id, j as usize);
                        if j == id as int {
                            assert(jc);
                        } else {
                            assert(cache@[j] == cache_pre[j]);
                        }
                    }
                }
            } else {
                proof {
                    let done0 = stage_list@.take(k2 as int);
                    let done1 = stage_list@.take(k2 as int + 1);
                    assert(done1 =~= done0.push(id));
                    assert(plan.tasks@[id as int]@.action == spec_action(ns, id as int));
                    assert forall|j: int|
                        0 <= j < ns.len() && spec_is_join_child(ns, j) && (st[j] < s as int
                            || done1.contains(j as usize)) implies (#[trigger] cache@[j]) is Some
                        && set_of_usizes(cache_entry(cache@[j])) == translate_set(
                        db@.refs,
                        task_eids(ns, j, db@),
                    ) by {
                        lemma_push_contains(done0, id, j as usize);
                    }
                }
            }
            k2 = k2 + 1;
        }
        proof {
            assert forall|x2: int, j: int|
                0 <= x2 < tags@.len() && 0 <= j < ns.len() implies (#[trigger] tags@[x2]@[j]) == ((
            st[j] < s as int + 1 || (x2 < 0 && st[j] == s as int + 1)) && task_matches(
                ns,
                j,
                db@,
                db@.datums[x2],
            )) by {}
            assert forall|j: int|
                0 <= j < ns.len() && spec_is_join_child(ns, j) && (st[j] < s as int + 1
                    || Seq::<usize>::empty().contains(j as usize)) implies (#[trigger] cache@[j]) is Some
                && set_of_usizes(cache_entry(cache@[j])) == translate_set(
                db@.refs,
                task_eids(ns, j, db@),
            ) by {
                if st[j] == s as int {
                    lemma_stage_ids_contains(st, s as int, st.len() as int, j as usize);
                    assert(stage_list@.take(stage_list@.len() as int) =~= stage_list@);
                }
            }
        }
        s = s + 1;
    }

    // Extraction: every datum the root task tagged, in store order.
    let root = n - 1;
    let mut out: Vec<&'a Datum> = Vec::new();
    proof {
        assert(views_of_datums(out@) =~= matching_prefix(ast@, db@, 0));
    }
    let mut x3: usize = 0;
    while x3 < dlen
        invariant
            plan_matches(plan, ast@),
            ns == spec_nodes(ast@),
            st == spec_stage_seq(ast@),
            wf_query(ast@),
            n == plan.tasks@.len(),
            dlen == db.datums@.len(),
            root == n - 1,
            n >= 1,
            x3 <= dlen,
            tags@.len() == dlen,
            forall|x2: int| 0 <= x2 < dlen ==> (#[trigger] tags@[x2])@.len() == n,
            tags_mid_stage(tags@, ns, st, db@, plan.stages@.len() as int, 0),
            views_of_datums(out@) == matching_prefix(ast@, db@, x3 as int),
        decreases dlen - x3,
    {
        let rowr = &tags[x3];
        let tagged = rowr[root];
        proof {
            assert(db@.datums[x3 as int] == db.datums@[x3 as int]@);
            assert(st[root as int] <= st.last());
            assert(tagged == task_matches(ns, root as int, db@, db@.datums[x3 as int]));
            lemma_represents_matches(ns, root as int, ast@, db@, db@.datums[x3 as int]);
        }
        if tagged {
            out.push(&db.datums[x3]);
        }
        proof {
            assert(views_of_datums(out@) =~= matching_prefix(ast@, db@, x3 as int + 1));
        }
        x3 = x3 + 1;
    }
    out
}

} // verus!
