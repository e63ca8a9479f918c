//! The query planner: flatten an AST into dense-id tasks and arrange them
//! into stages so that every task's dependencies lie in strictly earlier
//! stages.
//!
//! Ids follow the reversed pre-order walk of the tree, so children are
//! numbered before parents and the root carries the highest id.  Base
//! tasks sit in stage zero; a dependent task sits one stage above its
//! deepest dependency.  Every task that feeds a join, and the root, is
//! marked `Collect`; all others only tag datums.

use vstd::prelude::*;

verus! {

use crate::ast::{AstNode, AstView, Predicates, PredicatesView};
use crate::filter::wf_query;

/// A flattened AST node: its children are task ids instead of subtrees.
#[derive(Debug, PartialEq)]
pub enum IndexedNode {
    Base(Predicates),
    Or(usize, usize),
    Join(Predicates, usize),
}

/// The mathematical image of an [`IndexedNode`].
pub enum IndexedNodeView {
    Base(PredicatesView),
    Or(int, int),
    Join(PredicatesView, int),
}

impl View for IndexedNode {
    type V = IndexedNodeView;

    open spec fn view(&self) -> IndexedNodeView {
        match self {
            IndexedNode::Base(p) => IndexedNodeView::Base(p@),
            IndexedNode::Or(l, r) => IndexedNodeView::Or(*l as int, *r as int),
            IndexedNode::Join(p, c) => IndexedNodeView::Join(p@, *c as int),
        }
    }
}

/// What the executor does with a task's matches: materialize the entity
/// ids into the cache, or only tag the datums.
#[derive(Debug, Clone, Copy, PartialEq, Eq, Structural)]
pub enum Action {
    Collect,
    Tag,
}

/// An indexed node paired with its action.
#[derive(Debug)]
pub struct Task(pub IndexedNode, pub Action);

/// The mathematical image of a [`Task`].
pub struct TaskView {
    pub node: IndexedNodeView,
    pub action: Action,
}

impl View for Task {
    type V = TaskView;

    open spec fn view(&self) -> TaskView {
        TaskView { node: self.0@, action: self.1 }
    }
}

/// The views of an indexed-node vector.
pub open spec fn node_views(s: Seq<IndexedNode>) -> Seq<IndexedNodeView> {
    s.map_values(|nd: IndexedNode| nd@)
}

/// No predicates: the indexed form of `True`.
pub open spec fn no_preds() -> PredicatesView {
    PredicatesView { e: None, a: None, v: None, t: None }
}

/// Displace a node's task-id references by `k`.
pub open spec fn shift_node(n: IndexedNodeView, k: int) -> IndexedNodeView {
    match n {
        IndexedNodeView::Base(p) => IndexedNodeView::Base(p),
        IndexedNodeView::Or(l, r) => IndexedNodeView::Or(l + k, r + k),
        IndexedNodeView::Join(p, c) => IndexedNodeView::Join(p, c + k),
    }
}

/// Displace every node of a list by `k`.
pub open spec fn shift_nodes(s: Seq<IndexedNodeView>, k: int) -> Seq<IndexedNodeView> {
    s.map_values(|n: IndexedNodeView| shift_node(n, k))
}

/// The task list of a query, in id order: reversed pre-order, children
/// before parents, the root last.
pub open spec fn spec_nodes(ast: AstView) -> Seq<IndexedNodeView>
    decreases ast,
{
    match ast {
        AstView::True => seq![IndexedNodeView::Base(no_preds())],
        AstView::Expression(p) => seq![IndexedNodeView::Base(p)],
        AstView::Join(p, c) => {
            let cn = spec_nodes(*c);
            cn + seq![IndexedNodeView::Join(p, cn.len() - 1)]
        }
        AstView::Or(l, r) => {
            let rn = spec_nodes(*r);
            let ln = spec_nodes(*l);
            rn + shift_nodes(ln, rn.len() as int) + seq![
                IndexedNodeView::Or(rn.len() + ln.len() - 1, rn.len() - 1),
            ]
        }
        AstView::CachedJoin(_, _) => seq![IndexedNodeView::Base(no_preds())],
    }
}

/// The stage of each task, in id order.
pub open spec fn spec_stage_seq(ast: AstView) -> Seq<int>
    decreases ast,
{
    match ast {
        AstView::True => seq![0],
        AstView::Expression(_) => seq![0],
        AstView::Join(_, c) => {
            let cs = spec_stage_seq(*c);
            cs + seq![cs.last() + 1]
        }
        AstView::Or(l, r) => {
            let rs = spec_stage_seq(*r);
            let ls = spec_stage_seq(*l);
            rs + ls + seq![
                1 + if ls.last() > rs.last() {
                    ls.last()
                } else {
                    rs.last()
                },
            ]
        }
        AstView::CachedJoin(_, _) => seq![0],
    }
}

/// Task `i` of the list stands for the tree `ast`: the node kinds agree
/// and every reference points at a lower id standing for the subtree.
pub open spec fn represents(ns: Seq<IndexedNodeView>, i: int, ast: AstView) -> bool
    decreases ast,
{
    &&& 0 <= i < ns.len()
    &&& match ast {
        AstView::True => ns[i] == IndexedNodeView::Base(no_preds()),
        AstView::Expression(p) => ns[i] == IndexedNodeView::Base(p),
        AstView::Join(p, c) => ns[i] matches IndexedNodeView::Join(p2, ci) && p2 == p && 0 <= ci
            < i && represents(ns, ci, *c),
        AstView::Or(l, r) => ns[i] matches IndexedNodeView::Or(li, ri) && 0 <= li < i && 0 <= ri
            < i && represents(ns, li, *l) && represents(ns, ri, *r),
        AstView::CachedJoin(_, _) => false,
    }
}

/// Some task is a join that depends on task `i`.
pub open spec fn spec_is_join_child(ns: Seq<IndexedNodeView>, i: int) -> bool {
    exists|j: int|
        0 <= j < ns.len() && ((#[trigger] ns[j]) matches IndexedNodeView::Join(_, c) && c == i)
}

/// The planner's action for task `i`: collect for the root and for every
/// join dependency, tag otherwise.
pub open spec fn spec_action(ns: Seq<IndexedNodeView>, i: int) -> Action {
    if i == ns.len() - 1 || spec_is_join_child(ns, i) {
        Action::Collect
    } else {
        Action::Tag
    }
}

/// Per-task shape facts the stage assignment rests on.
pub open spec fn shape_ok(ns: Seq<IndexedNodeView>, st: Seq<int>, i: int) -> bool {
    &&& 0 <= st[i] <= i
    &&& match ns[i] {
        IndexedNodeView::Base(_) => st[i] == 0,
        IndexedNodeView::Join(_, c) => 0 <= c < i && st[i] == st[c] + 1,
        IndexedNodeView::Or(l, r) => 0 <= l < i && 0 <= r < i && st[i] == 1 + if st[l] > st[r] {
            st[l]
        } else {
            st[r]
        },
    }
}

/// The task list and stage assignment of a well-formed query line up:
/// one stage per task, references point down, a task sits one stage
/// above its deepest dependency, and the root's stage is the highest.
pub proof fn lemma_plan_shape(ast: AstView)
    requires
        wf_query(ast),
    ensures
        spec_nodes(ast).len() == spec_stage_seq(ast).len(),
        spec_nodes(ast).len() >= 1,
        forall|i: int|
            0 <= i < spec_nodes(ast).len() ==> #[trigger] shape_ok(
                spec_nodes(ast),
                spec_stage_seq(ast),
                i,
            ),
        forall|i: int|
            0 <= i < spec_nodes(ast).len() ==> #[trigger] spec_stage_seq(ast)[i] <= spec_stage_seq(
                ast,
            ).last(),
    decreases ast,
{
    let ns = spec_nodes(ast);
    let st = spec_stage_seq(ast);
    match ast {
        AstView::True => {
            assert(shape_ok(ns, st, 0));
        }
        AstView::Expression(_) => {
            assert(shape_ok(ns, st, 0));
        }
        AstView::Join(p, c) => {
            lemma_plan_shape(*c);
            let cn = spec_nodes(*c);
            let cs = spec_stage_seq(*c);
            let m = cn.len() as int;
            assert forall|i: int| 0 <= i < ns.len() implies #[trigger] shape_ok(ns, st, i) by {
                if i < m {
                    assert(shape_ok(cn, cs, i));
                    assert(ns[i] == cn[i] && st[i] == cs[i]);
                    match cn[i] {
                        IndexedNodeView::Base(_) => {}
                        IndexedNodeView::Join(_, ci) => {
                            assert(st[ci] == cs[ci]);
                        }
                        IndexedNodeView::Or(li, ri) => {
                            assert(st[li] == cs[li] && st[ri] == cs[ri]);
                        }
                    }
                } else {
                    assert(i == m);
                    assert(ns[i] == IndexedNodeView::Join(p, m - 1));
                    assert(st[m - 1] == cs[m - 1] && st[i] == cs.last() + 1);
                    assert(shape_ok(cn, cs, m - 1));
                }
            }
            assert forall|i: int| 0 <= i < ns.len() implies #[trigger] st[i] <= st.last() by {
                if i < m {
                    assert(st[i] == cs[i] && cs[i] <= cs.last());
                }
            }
        }
        AstView::Or(l, r) => {
            lemma_plan_shape(*l);
            lemma_plan_shape(*r);
            let rn = spec_nodes(*r);
            let ln = spec_nodes(*l);
            let rs = spec_stage_seq(*r);
            let ls = spec_stage_seq(*l);
            let rl = rn.len() as int;
            let ll = ln.len() as int;
            assert forall|i: int| 0 <= i < ns.len() implies #[trigger] shape_ok(ns, st, i) by {
                if i < rl {
                    assert(shape_ok(rn, rs, i));
                    assert(ns[i] == rn[i] && st[i] == rs[i]);
                    match rn[i] {
                        IndexedNodeView::Base(_) => {}
                        IndexedNodeView::Join(_, ci) => {
                            assert(st[ci] == rs[ci]);
                        }
                        IndexedNodeView::Or(li, ri) => {
                            assert(st[li] == rs[li] && st[ri] == rs[ri]);
                        }
                    }
                } else if i < rl + ll {
                    let i0 = i - rl;
                    assert(shape_ok(ln, ls, i0));
                    assert(ns[i] == shift_nodes(ln, rl)[i0]);
                    assert(ns[i] == shift_node(ln[i0], rl));
                    assert(st[i] == ls[i0]);
                    match ln[i0] {
                        IndexedNodeView::Base(_) => {}
                        IndexedNodeView::Join(_, ci) => {
                            assert(st[ci + rl] == ls[ci]);
                        }
                        IndexedNodeView::Or(li, ri) => {
                            assert(st[li + rl] == ls[li] && st[ri + rl] == ls[ri]);
                        }
                    }
                } else {
                    assert(i == rl + ll);
                    assert(ns[i] == IndexedNodeView::Or(rl + ll - 1, rl - 1));
                    assert(st[rl + ll - 1] == ls.last() && st[rl - 1] == rs.last());
                    assert(shape_ok(ln, ls, ll - 1));
                    assert(shape_ok(rn, rs, rl - 1));
                }
            }
            assert forall|i: int| 0 <= i < ns.len() implies #[trigger] st[i] <= st.last() by {
                if i < rl {
                    assert(st[i] == rs[i] && rs[i] <= rs.last());
                } else if i < rl + ll {
                    assert(st[i] == ls[i - rl] && ls[i - rl] <= ls.last());
                }
            }
        }
        AstView::CachedJoin(_, _) => {}
    }
}

/// A represented task keeps representing under any extension of the list.
pub proof fn lemma_represents_prefix(
    ns1: Seq<IndexedNodeView>,
    ns2: Seq<IndexedNodeView>,
    i: int,
    ast: AstView,
)
    requires
        represents(ns1, i, ast),
        ns1.len() <= ns2.len(),
        forall|j: int| 0 <= j < ns1.len() ==> ns2[j] == ns1[j],
    ensures
        represents(ns2, i, ast),
    decreases ast,
{
    match ast {
        AstView::True => {}
        AstView::Expression(_) => {}
        AstView::Join(_, c) => {
            match ns1[i] {
                IndexedNodeView::Join(_, ci) => {
                    lemma_represents_prefix(ns1, ns2, ci, *c);
                }
                _ => {}
            }
        }
        AstView::Or(l, r) => {
            match ns1[i] {
                IndexedNodeView::Or(li, ri) => {
                    lemma_represents_prefix(ns1, ns2, li, *l);
                    lemma_represents_prefix(ns1, ns2, ri, *r);
                }
                _ => {}
            }
        }
        AstView::CachedJoin(_, _) => {}
    }
}

proof fn lemma_shift_zero(s: Seq<IndexedNodeView>)
    ensures
        shift_nodes(s, 0) == s,
{
    assert forall|i: int| 0 <= i < s.len() implies shift_nodes(s, 0)[i] == s[i] by {
        assert(shift_nodes(s, 0)[i] == shift_node(s[i], 0));
    }
    assert(shift_nodes(s, 0) =~= s);
}

proof fn lemma_shift_concat(a: Seq<IndexedNodeView>, b: Seq<IndexedNodeView>, k: int)
    ensures
        shift_nodes(a + b, k) == shift_nodes(a, k) + shift_nodes(b, k),
{
    assert forall|i: int| 0 <= i < a.len() + b.len() implies shift_nodes(a + b, k)[i] == (
    shift_nodes(a, k) + shift_nodes(b, k))[i] by {
        assert(shift_nodes(a + b, k)[i] == shift_node((a + b)[i], k));
        if i < a.len() {
            assert(shift_nodes(a, k)[i] == shift_node(a[i], k));
        } else {
            assert(shift_nodes(b, k)[i - a.len()] == shift_node(b[i - a.len()], k));
        }
    }
    assert(shift_nodes(a + b, k) =~= shift_nodes(a, k) + shift_nodes(b, k));
}

proof fn lemma_shift_compose(s: Seq<IndexedNodeView>, a: int, b: int)
    ensures
        shift_nodes(shift_nodes(s, a), b) == shift_nodes(s, a + b),
{
    assert forall|i: int| 0 <= i < s.len() implies shift_nodes(shift_nodes(s, a), b)[i]
        == shift_nodes(s, a + b)[i] by {
        assert(shift_nodes(s, a)[i] == shift_node(s[i], a));
        assert(shift_nodes(shift_nodes(s, a), b)[i] == shift_node(shift_node(s[i], a), b));
        assert(shift_nodes(s, a + b)[i] == shift_node(s[i], a + b));
    }
    assert(shift_nodes(shift_nodes(s, a), b) =~= shift_nodes(s, a + b));
}

/// Emit the task list of a subtree after the nodes already in `out`.
fn build_nodes(ast: &AstNode, out: &mut Vec<IndexedNode>)
    requires
        wf_query(ast@),
    ensures
        node_views(final(out)@) == node_views(old(out)@) + shift_nodes(
            spec_nodes(ast@),
            old(out)@.len() as int,
        ),
        represents(node_views(final(out)@), final(out)@.len() - 1, ast@),
    decreases ast,
{
    let ghost k = out@.len() as int;
    match ast {
        AstNode::True => {
            out.push(IndexedNode::Base(Predicates { e: None, a: None, v: None, t: None }));
            proof {
                assert(node_views(out@) =~= node_views(old(out)@) + shift_nodes(
                    spec_nodes(ast@),
                    k,
                ));
            }
        }
        AstNode::Expression(p) => {
            out.push(IndexedNode::Base(p.duplicate()));
            proof {
                assert(node_views(out@) =~= node_views(old(out)@) + shift_nodes(
                    spec_nodes(ast@),
                    k,
                ));
            }
        }
        AstNode::Join(p, c) => {
            build_nodes(c, out);
            let ghost midv = node_views(out@);
            proof {
                lemma_plan_shape((**c)@);
            }
            let cid = out.len() - 1;
            out.push(IndexedNode::Join(p.duplicate(), cid));
            proof {
                let cn = spec_nodes((**c)@);
                lemma_shift_concat(cn, seq![IndexedNodeView::Join(p@, cn.len() - 1)], k);
                assert(node_views(out@) =~= midv + seq![
                    IndexedNodeView::Join(p@, cid as int),
                ]);
                assert(shift_nodes(seq![IndexedNodeView::Join(p@, cn.len() - 1)], k) =~= seq![
                    IndexedNodeView::Join(p@, cn.len() - 1 + k),
                ]);
                assert(node_views(out@) =~= node_views(old(out)@) + shift_nodes(
                    spec_nodes(ast@),
                    k,
                ));
                lemma_represents_prefix(midv, node_views(out@), cid as int, (**c)@);
            }
        }
        AstNode::Or(l, r) => {
            build_nodes(r, out);
            let ghost midr = node_views(out@);
            proof {
                lemma_plan_shape((**r)@);
            }
            let rid = out.len() - 1;
            build_nodes(l, out);
            let ghost midl = node_views(out@);
            proof {
                lemma_plan_shape((**l)@);
            }
            let lid = out.len() - 1;
            out.push(IndexedNode::Or(lid, rid));
            proof {
                let rn = spec_nodes((**r)@);
                let ln = spec_nodes((**l)@);
                let orn = seq![IndexedNodeView::Or(rn.len() + ln.len() - 1, rn.len() - 1)];
                lemma_shift_concat(rn + shift_nodes(ln, rn.len() as int), orn, k);
                lemma_shift_concat(rn, shift_nodes(ln, rn.len() as int), k);
                lemma_shift_compose(ln, rn.len() as int, k);
                assert(node_views(out@) =~= midl + seq![
                    IndexedNodeView::Or(lid as int, rid as int),
                ]);
                assert(shift_nodes(orn, k) =~= seq![
                    IndexedNodeView::Or(rn.len() + ln.len() - 1 + k, rn.len() - 1 + k),
                ]);
                assert(node_views(out@) =~= node_views(old(out)@) + shift_nodes(
                    spec_nodes(ast@),
                    k,
                ));
                lemma_represents_prefix(midr, node_views(out@), rid as int, (**r)@);
                lemma_represents_prefix(midl, node_views(out@), lid as int, (**l)@);
            }
        }
        AstNode::CachedJoin(_, _) => {
            proof {
                assert(false);
            }
        }
    }
}

/// Whether some task of the list is a join depending on task `i`.
fn is_join_child(nodes: &Vec<IndexedNode>, i: usize) -> (r: bool)
    ensures
        r == spec_is_join_child(node_views(nodes@), i as int),
{
    let ghost ns = node_views(nodes@);
    let mut j: usize = 0;
    loop
        invariant
            j <= nodes.len(),
            ns == node_views(nodes@),
            forall|j2: int|
                0 <= j2 < j ==> !((#[trigger] ns[j2]) matches IndexedNodeView::Join(_, c) && c == i
                    as int),
        ensures
            if j < nodes@.len() {
                ns[j as int] matches IndexedNodeView::Join(_, c) && c == i as int
            } else {
                !spec_is_join_child(ns, i as int)
            },
        decreases nodes.len() - j,
    {
        if j >= nodes.len() {
            break;
        }
        proof {
            assert(ns[j as int] == nodes@[j as int]@);
        }
        let found = match &nodes[j] {
            IndexedNode::Join(_, c) => *c == i,
            _ => false,
        };
        if found {
            break;
        }
        j = j + 1;
    }
    j < nodes.len()
}

/// Linear membership test for task ids.
fn seq_contains_usize(v: &Vec<usize>, x: usize) -> (r: bool)
    ensures
        r == v@.contains(x),
{
    let mut i: usize = 0;
    loop
        invariant
            i <= v.len(),
            forall|j: int| 0 <= j < i ==> (#[trigger] v@[j]) != x,
        ensures
            if i < v.len() {
                v@[i as int] == x
            } else {
                !v@.contains(x)
            },
        decreases v.len() - i,
    {
        if i >= v.len() {
            break;
        }
        if v[i] == x {
            break;
        }
        i = i + 1;
    }
    i < v.len()
}

/// The stage that holds a task id.
fn find_stage_idx(stages: &Vec<Vec<usize>>, id: usize) -> (s: usize)
    requires
        exists|s0: int| 0 <= s0 < stages@.len() && (#[trigger] stages@[s0])@.contains(id),
    ensures
        (s as int) < stages@.len(),
        stages@[s as int]@.contains(id),
{
    let mut s: usize = 0;
    loop
        invariant
            s <= stages@.len(),
            exists|s0: int| 0 <= s0 < stages@.len() && (#[trigger] stages@[s0])@.contains(id),
            forall|s2: int| 0 <= s2 < s ==> !(#[trigger] stages@[s2])@.contains(id),
        ensures
            (s as int) < stages@.len(),
            stages@[s as int]@.contains(id),
        decreases stages@.len() - s,
    {
        if s >= stages.len() {
            proof {
                let s0 = choose|s0: int|
                    0 <= s0 < stages@.len() && (#[trigger] stages@[s0])@.contains(id);
                assert(false);
            }
            break;
        }
        if seq_contains_usize(&stages[s], id) {
            break;
        }
        s = s + 1;
    }
    s
}

/// Append a task id to one stage, leaving the others alone.
fn push_stage(stages: &mut Vec<Vec<usize>>, s: usize, id: usize)
    requires
        (s as int) < old(stages)@.len(),
    ensures
        final(stages)@.len() == old(stages)@.len(),
        final(stages)@[s as int]@ == old(stages)@[s as int]@.push(id),
        forall|t: int|
            0 <= t < old(stages)@.len() && t != s ==> final(stages)@[t] == old(stages)@[t],
{
    let mut inner = stages.remove(s);
    inner.push(id);
    stages.insert(s, inner);
    proof {
        assert forall|t: int|
            0 <= t < old(stages)@.len() && t != s implies stages@[t] == old(stages)@[t] by {
            if t < s {
            } else {
                assert(stages@[t] == old(stages)@.remove(s as int)[t - 1]);
                assert(old(stages)@.remove(s as int)[t - 1] == old(stages)@[t]);
            }
        }
    }
}

/// Tasks with stage `s` among ids below `m`, ascending.
pub open spec fn stage_ids_upto(st: Seq<int>, s: int, m: int) -> Seq<usize>
    decreases m,
{
    if m <= 0 {
        Seq::empty()
    } else if st[m - 1] == s {
        stage_ids_upto(st, s, m - 1).push((m - 1) as usize)
    } else {
        stage_ids_upto(st, s, m - 1)
    }
}

pub proof fn lemma_stage_ids_contains(st: Seq<int>, s: int, m: int, x: usize)
    requires
        0 <= m <= usize::MAX,
    ensures
        stage_ids_upto(st, s, m).contains(x) <==> ((x as int) < m && st[x as int] == s),
    decreases m,
{
    if m > 0 {
        lemma_stage_ids_contains(st, s, m - 1, x);
        let prev = stage_ids_upto(st, s, m - 1);
        if st[m - 1] == s {
            let cur = prev.push((m - 1) as usize);
            assert forall|y: usize| cur.contains(y) implies prev.contains(y) || y == (m - 1)
                as usize by {
                let idx = choose|idx: int| 0 <= idx < cur.len() && cur[idx] == y;
                if idx < prev.len() {
                    assert(prev[idx] == y);
                }
            }
            if (x as int) < m && st[x as int] == s {
                if (x as int) < m - 1 {
                    assert(cur[choose|idx: int| 0 <= idx < prev.len() && prev[idx] == x] == x);
                } else {
                    assert(cur[cur.len() - 1] == x);
                }
            }
        }
    }
}

/// The largest stage among ids below `m` (zero when there are none).
pub open spec fn max_stage_upto(st: Seq<int>, m: int) -> int
    decreases m,
{
    if m <= 0 {
        0
    } else {
        let rest = max_stage_upto(st, m - 1);
        if st[m - 1] > rest {
            st[m - 1]
        } else {
            rest
        }
    }
}

proof fn lemma_stage_ids_empty(st: Seq<int>, s: int, m: int)
    requires
        forall|i: int| 0 <= i < m ==> #[trigger] st[i] != s,
    ensures
        stage_ids_upto(st, s, m) == Seq::<usize>::empty(),
    decreases m,
{
    if m > 0 {
        lemma_stage_ids_empty(st, s, m - 1);
    }
}

proof fn lemma_max_upto_ge(st: Seq<int>, m: int, i: int)
    requires
        0 <= i < m,
    ensures
        st[i] <= max_stage_upto(st, m),
    decreases m,
{
    if i < m - 1 {
        lemma_max_upto_ge(st, m - 1, i);
    }
}

proof fn lemma_max_upto_le(st: Seq<int>, m: int, b: int)
    requires
        forall|i: int| 0 <= i < m ==> #[trigger] st[i] <= b,
        b >= 0,
    ensures
        max_stage_upto(st, m) <= b,
    decreases m,
{
    if m > 0 {
        lemma_max_upto_le(st, m - 1, b);
    }
}

/// The staged execution plan of one query.
#[derive(Debug)]
pub struct Plan {
    pub tasks: Vec<Task>,
    pub stages: Vec<Vec<usize>>,
}

impl Plan {
    /// Compile a query into tasks and stages: ids in reversed pre-order,
    /// base tasks in stage zero, every other task one stage above its
    /// deepest dependency, and `Collect` marked on the root and on every
    /// join dependency.
    pub fn new(ast: &AstNode) -> (p: Plan)
        requires
            wf_query(ast@),
        ensures
            p.tasks@.len() == spec_nodes(ast@).len(),
            forall|i: int|
                0 <= i < p.tasks@.len() ==> (#[trigger] p.tasks@[i])@.node == spec_nodes(ast@)[i]
                    && p.tasks@[i]@.action == spec_action(spec_nodes(ast@), i),
            represents(spec_nodes(ast@), spec_nodes(ast@).len() - 1, ast@),
            p.stages@.len() == spec_stage_seq(ast@).last() + 1,
            forall|s: int|
                0 <= s < p.stages@.len() ==> (#[trigger] p.stages@[s])@ == stage_ids_upto(
                    spec_stage_seq(ast@),
                    s,
                    spec_stage_seq(ast@).len() as int,
                ),
    {
        let ghost ns = spec_nodes(ast@);
        let ghost st = spec_stage_seq(ast@);
        let mut nodes: Vec<IndexedNode> = Vec::new();
        build_nodes(ast, &mut nodes);
        proof {
            lemma_shift_zero(ns);
            assert(node_views(nodes@) =~= ns);
            lemma_plan_shape(ast@);
        }
        let n = nodes.len();

        // Actions: the root and every join dependency collect, the rest tag.
        let mut actions: Vec<Action> = Vec::new();
        let mut i: usize = 0;
        while i < n
            invariant
                i <= n,
                n == nodes@.len(),
                ns == node_views(nodes@),
                actions@.len() == i,
                forall|t: int| 0 <= t < i ==> #[trigger] actions@[t] == spec_action(ns, t),
            decreases n - i,
        {
            let a: Action = if i + 1 == n {
                Action::Collect
            } else if is_join_child(&nodes, i) {
                Action::Collect
            } else {
                Action::Tag
            };
            actions.push(a);
            i = i + 1;
        }

        // Stages: walk tasks in id order, placing each one stage above
        // its deepest dependency.
        let mut stages: Vec<Vec<usize>> = Vec::new();
        stages.push(Vec::new());
        proof {
            assert forall|s2: int| 0 <= s2 < stages@.len() implies (#[trigger] stages@[s2])@
                =~= stage_ids_upto(st, s2, 0) by {}
        }
        let mut id: usize = 0;
        while id < n
            invariant
                id <= n,
                n == nodes@.len(),
                ns == node_views(nodes@),
                st == spec_stage_seq(ast@),
                st.len() == n,
                forall|t: int| 0 <= t < n ==> #[trigger] shape_ok(ns, st, t),
                stages@.len() == 1 + max_stage_upto(st, id as int),
                stages@.len() <= n + 1,
                forall|s2: int|
                    0 <= s2 < stages@.len() ==> (#[trigger] stages@[s2])@ == stage_ids_upto(
                        st,
                        s2,
                        id as int,
                    ),
            decreases n - id,
        {
            proof {
                assert(ns[id as int] == nodes@[id as int]@);
                assert(shape_ok(ns, st, id as int));
            }
            let target: usize = match &nodes[id] {
                IndexedNode::Base(_) => 0,
                IndexedNode::Join(_, c) => {
                    proof {
                        assert(shape_ok(ns, st, *c as int));
                        lemma_max_upto_ge(st, id as int, *c as int);
                        lemma_stage_ids_contains(st, st[*c as int], id as int, *c);
                        assert(stages@[st[*c as int]]@.contains(*c));
                    }
                    let s0 = find_stage_idx(&stages, *c);
                    proof {
                        lemma_stage_ids_contains(st, s0 as int, id as int, *c);
                    }
                    s0 + 1
                }
                IndexedNode::Or(l, r) => {
                    proof {
                        assert(shape_ok(ns, st, *l as int));
                        assert(shape_ok(ns, st, *r as int));
                        lemma_max_upto_ge(st, id as int, *l as int);
                        lemma_stage_ids_contains(st, st[*l as int], id as int, *l);
                        assert(stages@[st[*l as int]]@.contains(*l));
                        lemma_max_upto_ge(st, id as int, *r as int);
                        lemma_stage_ids_contains(st, st[*r as int], id as int, *r);
                        assert(stages@[st[*r as int]]@.contains(*r));
                    }
                    let sl = find_stage_idx(&stages, *l);
                    let sr = find_stage_idx(&stages, *r);
                    proof {
                        lemma_stage_ids_contains(st, sl as int, id as int, *l);
                        lemma_stage_ids_contains(st, sr as int, id as int, *r);
                    }
                    if sl > sr {
                        sl + 1
                    } else {
                        sr + 1
                    }
                }
            };
            proof {
                assert(target as int == st[id as int]);
            }
            if stages.len() < target + 1 {
                stages.push(Vec::new());
                proof {
                    assert forall|i2: int| 0 <= i2 < id as int implies #[trigger] st[i2] != target
                        as int by {
                        lemma_max_upto_ge(st, id as int, i2);
                    }
                    lemma_stage_ids_empty(st, target as int, id as int);
                    assert(stages@[target as int]@ == stage_ids_upto(st, target as int, id as int));
                }
            }
            push_stage(&mut stages, target, id);
            proof {
                let m = id as int + 1;
                assert forall|s2: int| 0 <= s2 < stages@.len() implies (#[trigger] stages@[s2])@
                    == stage_ids_upto(st, s2, m) by {
                    if s2 == target as int {
                        assert(stage_ids_upto(st, s2, m) == stage_ids_upto(st, s2, id as int).push(
                            id,
                        ));
                    } else {
                        assert(stage_ids_upto(st, s2, m) == stage_ids_upto(st, s2, id as int));
                    }
                }
            }
            id = id + 1;
        }
        proof {
            assert(shape_ok(ns, st, n as int - 1));
            lemma_max_upto_le(st, n as int, st[n - 1]);
            lemma_max_upto_ge(st, n as int, n as int - 1);
        }

        // Pair nodes with their actions.
        let mut tasks: Vec<Task> = Vec::new();
        let mut nodes = nodes;
        let mut actions = actions;
        loop
            invariant
                tasks@.len() + nodes@.len() == n,
                actions@.len() == nodes@.len(),
                forall|t: int|
                    0 <= t < tasks@.len() ==> (#[trigger] tasks@[t])@.node == ns[t]
                        && tasks@[t]@.action == spec_action(ns, t),
                forall|t: int|
                    0 <= t < nodes@.len() ==> #[trigger] nodes@[t]@ == ns[tasks@.len() + t],
                forall|t: int|
                    0 <= t < actions@.len() ==> #[trigger] actions@[t] == spec_action(
                        ns,
                        tasks@.len() + t,
                    ),
            ensures
                tasks@.len() == n,
                forall|t: int|
                    0 <= t < tasks@.len() ==> (#[trigger] tasks@[t])@.node == ns[t]
                        && tasks@[t]@.action == spec_action(ns, t),
            decreases nodes@.len(),
        {
            if nodes.len() == 0 {
                break;
            }
            let nd = nodes.remove(0);
            let ac = actions.remove(0);
            tasks.push(Task(nd, ac));
        }
        Plan { tasks, stages }
    }
}

} // verus!
