//! What the list promises across its operations.

use vstd::prelude::*;
use crate::crdts::id::ElementId;
use crate::crdts::walker;
use super::{List, Node, Insert, Parent, Side, PrepareState, PrepareOp, PrepareError, prepare_op_ids, run_ids, run_progress, Delete, step_spec, run_moves, visible, docs, cnt, ids_shown, run_id, run_nodes, run_parent, not_uninserted, left_of, right_of, children_of, deletes_ids};
use super::apply::placed_run;
use super::graft::run_grafted;
use super::converge::{lemma_still_fresh, lemma_swap_docs, two_orders};
use super::siblings::lemma_children_in_range;
use super::walk::anchor_ok;
use super::tree::{lemma_order_nodup, lemma_tree_at, lemma_tree_ids, lemma_order_contains, lemma_span_block, lemma_span_contains};
use super::seqs::{flat, lemma_flat_contains};
use super::counts::{lemma_cnt_concat, lemma_cnt_bounds, lemma_cnt_frame};

verus! {

/// The contents of a run of nodes added in turn, all visible, are the run's
/// contents.
proof fn lemma_docs_run<T>(l: List<T>, n0: nat, id: ElementId, parent: Parent, content: Seq<T>, len: nat)
    requires
        len <= content.len(),
        forall|k: int| 0 <= k < len ==> #[trigger] l.node_is(n0 + k, run_id(id, k), run_parent(parent, id, k), content[k], false),
    ensures
        docs(l.nodes@, run_nodes(n0, len), walker::View::Effect) == content.take(len as int),
    decreases len,
{
    if len > 0 {
        assert(l.nodes@.len() <= usize::MAX) by {
            assert(l.nodes@.len() == l.nodes.len());
        }
        lemma_docs_run(l, n0, id, parent, content, (len - 1) as nat);
        assert(run_nodes(n0, len).drop_last() == run_nodes(n0, (len - 1) as nat));
        let k = len - 1;
        assert(l.node_is(n0 + k, run_id(id, k), run_parent(parent, id, k), content[k], false));
        let r = run_nodes(n0, len);
        assert(r.last() == (n0 + k) as usize);
        assert(visible(l.nodes@[r.last() as int], walker::View::Effect));
        assert(l.nodes@[r.last() as int].content == content[k]);
        assert(docs(l.nodes@, r, walker::View::Effect) == docs(l.nodes@, r.drop_last(), walker::View::Effect) + seq![content[k]]);
        assert(content.take(len as int) == content.take(k) + seq![content[k]]);
    } else {
        assert(content.take(0) == Seq::<T>::empty());
    }
}

/// Where a local insert lands: the run goes right after the node before
/// the position, which is the `offset`-th element.
#[verifier::spinoff_prover]
#[verifier::rlimit(50)]
proof fn lemma_insert_place<T>(l0: List<T>, l1: List<T>, offset: int, ins: Insert<T>, id: ElementId) -> (q: int)
    requires
        l0.wf(),
        l0.insert_position(walker::View::Effect, offset, ins.parent, ins.right_origin),
        l0.places(ins.parent) ==> exists|q: int| #[trigger] placed_run(l1.order(), l0.order(), l0.node_count(), ins.content@.len(), q)
            && l0.anchored(ins.parent, q),
    ensures
        l0.places(ins.parent),
        placed_run(l1.order(), l0.order(), l0.node_count(), ins.content@.len(), q),
        cnt(l0.nodes@, l0.order().take(q), walker::View::Effect) == offset,
{
    let v = walker::View::Effect;
    let n0 = l0.nodes@;
    let s0 = l0.spans@;
    let rc0 = l0.root.right_children@;
    let o0 = l0.order();
    let len = ins.content@.len();
    lemma_order_nodup(n0, s0, rc0);
    let (left, lpos) = choose|left: Option<int>, lpos: int| #[trigger] l0.left_place(left, lpos)
        && (match left { None => offset == 0, Some(i) => l0.at_rank(i, v, offset) })
        && l0.insert_choice(v, left, lpos, ins.parent, ins.right_origin);
    let sibs = l0.sibs_of(left);
    let reach = exists|k: int| 0 <= k < sibs.len() && #[trigger] not_uninserted(n0[sibs[k] as int], v);
    if let Some(i) = left {
        assert(o0[lpos] < n0.len());
    }
    if !reach {
        if sibs.len() > 0 {
            assert(not_uninserted(n0[sibs[0] as int], v));
        }
        match left {
            None => {
                assert(sibs.len() == 0);
                assert(o0 == Seq::<usize>::empty());
            }
            Some(i) => {
                l0.lemma_index_of(n0[i].id, i);
                assert(o0.contains(i as usize));
            }
        }
    } else {
        assert(sibs.len() > 0);
        assert(exists|k: int| 0 <= k < l0.sibs_of(left).len() && #[trigger] not_uninserted(l0.nodes@[l0.sibs_of(left)[k] as int], v));
        l0.lemma_next_exists(v, left, lpos);
        let x = o0[lpos + 1] as int;
        l0.lemma_index_of(n0[x].id, x);
        assert(o0.contains(x as usize));
    }
    l0.lemma_places(ins.parent);
    assert(l0.places(ins.parent));
    let q = choose|q: int| #[trigger] placed_run(l1.order(), l0.order(), l0.node_count(), len, q) && l0.anchored(ins.parent, q);
    if !reach {
        match left {
            None => {}
            Some(i) => {
                assert(anchor_ok(o0, q, Some((true, i as usize))));
                assert(o0[q - 1] == i);
            }
        }
    } else {
        let x = o0[lpos + 1] as int;
        assert(anchor_ok(o0, q, Some((false, x as usize))));
        assert(o0[q] == x);
    }
    assert(q == lpos + 1);
    match left {
        None => {
            assert(o0.take(q) == Seq::<usize>::empty());
        }
        Some(i) => {
            assert(l0.at_rank(i, v, offset));
            let pos = choose|pos: int| #[trigger] l0.holds_rank(i, pos, v, offset);
            assert(o0[pos] == i);
            assert(pos == lpos);
        }
    }
    q
}

/// Inserting at position `offset` of the effect view: an insert made by
/// `create_insert` for that position, applied with ids new to the list,
/// puts its contents at that position of the effect view and moves nothing
/// else.
#[verifier::spinoff_prover]
pub proof fn law_local_insert<T>(l0: List<T>, l1: List<T>, offset: int, ins: Insert<T>, id: ElementId)
    requires
        l0.wf(),
        l1.wf(),
        l0.insert_position(walker::View::Effect, offset, ins.parent, ins.right_origin),
        l0.fresh_run(id, ins.content@.len()),
        ins.content@.len() > 0,
        l0.keeps(&l1),
        forall|k: int| 0 <= k < ins.content@.len() ==> #[trigger] l1.node_is(l0.node_count() + k, run_id(id, k),
            run_parent(ins.parent, id, k), ins.content@[k], false),
        l0.places(ins.parent) ==> exists|q: int| #[trigger] placed_run(l1.order(), l0.order(), l0.node_count(), ins.content@.len(), q)
            && l0.anchored(ins.parent, q),
    ensures
        l0.places(ins.parent),
        0 <= offset <= l0.doc(walker::View::Effect).len(),
        l1.doc(walker::View::Effect) == l0.doc(walker::View::Effect).take(offset) + ins.content@ + l0.doc(walker::View::Effect).skip(offset),
{
    let v = walker::View::Effect;
    let n0 = l0.nodes@;
    let n1 = l1.nodes@;
    let o0 = l0.order();
    let o1 = l1.order();
    let len = ins.content@.len();
    let q = lemma_insert_place(l0, l1, offset, ins, id);
    lemma_order_nodup(n0, l0.spans@, l0.root.right_children@);
    let a = o0.take(q);
    let b = o0.skip(q);
    assert(o0 == a + b);
    lemma_cnt_concat(n0, a, b, v);
    lemma_cnt_bounds(n0, a, v);
    lemma_cnt_bounds(n0, o0, v);
    let d0 = docs(n0, o0, v);
    assert(d0 == docs(n0, a, v) + docs(n0, b, v));
    assert(d0.take(offset) == docs(n0, a, v));
    assert(d0.skip(offset) == docs(n0, b, v));
    let run = run_nodes(l0.node_count(), len);
    assert(o1 == a + run + b);
    lemma_cnt_concat(n1, a, run, v);
    lemma_cnt_concat(n1, a + run, b, v);
    assert forall|k: int| 0 <= k < a.len() implies visible(n0[a[k] as int], v) == visible(n1[a[k] as int], v)
        && n0[a[k] as int].content == n1[a[k] as int].content by {
        assert(a[k] == o0[k]);
    }
    assert forall|k: int| 0 <= k < b.len() implies visible(n0[b[k] as int], v) == visible(n1[b[k] as int], v)
        && n0[b[k] as int].content == n1[b[k] as int].content by {
        assert(b[k] == o0[k + q]);
    }
    lemma_cnt_frame(n0, n1, a, v);
    lemma_cnt_frame(n0, n1, b, v);
    lemma_docs_run(l1, l0.node_count(), id, ins.parent, ins.content@, len);
    assert(ins.content@.take(len as int) == ins.content@);
}

/// The ids of deletes of one element each are the deletes' ids.
proof fn lemma_single_deletes_ids(ds: Seq<Delete>)
    requires
        forall|k: int| 0 <= k < ds.len() ==> (#[trigger] ds[k]).count == 1,
    ensures
        deletes_ids(ds).len() == ds.len(),
        forall|k: int| 0 <= k < ds.len() ==> #[trigger] deletes_ids(ds)[k] == ds[k].id,
    decreases ds.len(),
{
    if ds.len() > 0 {
        lemma_single_deletes_ids(ds.drop_last());
        let last = ds.last();
        assert(run_id(last.id, 0) == last.id);
        assert(deletes_ids(ds) == deletes_ids(ds.drop_last()) + seq![last.id]);
        assert forall|k: int| 0 <= k < ds.len() implies #[trigger] deletes_ids(ds)[k] == ds[k].id by {
            if k < ds.len() - 1 {
                assert(ds.drop_last()[k] == ds[k]);
            }
        }
    }
}

/// Counting the visible nodes of a longer prefix gives no less, and more when
/// the longer prefix ends with a visible node.
proof fn lemma_cnt_prefix<T>(nodes: Seq<Node<T>>, o: Seq<usize>, a: int, b: int, v: walker::View)
    requires
        0 <= a <= b <= o.len(),
    ensures
        cnt(nodes, o.take(a), v) <= cnt(nodes, o.take(b), v),
        a < b && visible(nodes[o[b - 1] as int], v) ==> cnt(nodes, o.take(a), v) < cnt(nodes, o.take(b), v),
    decreases b - a,
{
    if a < b {
        lemma_cnt_prefix(nodes, o, a, b - 1, v);
        assert(o.take(b).drop_last() == o.take(b - 1));
        assert(o.take(b).last() == o[b - 1]);
    }
}

/// The effect view of a prefix of the order after the visible nodes of ranks
/// `lo + 1` to `hi` were deleted: the prefix's view before, without them.
proof fn lemma_docs_without_ranks<T>(n0: Seq<Node<T>>, n1: Seq<Node<T>>, o: Seq<usize>, lo: int, hi: int, p: int)
    requires
        0 <= lo <= hi,
        0 <= p <= o.len(),
        forall|q: int| 0 <= q < o.len() ==> n1[#[trigger] o[q] as int].content == n0[o[q] as int].content,
        forall|q: int| 0 <= q < o.len() ==> (visible(n1[#[trigger] o[q] as int], walker::View::Effect) <==> (
            visible(n0[o[q] as int], walker::View::Effect) && !(lo < cnt(n0, o.take(q + 1), walker::View::Effect) <= hi))),
    ensures
        ({
            let d = docs(n0, o.take(p), walker::View::Effect);
            let d1 = docs(n1, o.take(p), walker::View::Effect);
            &&& d.len() == cnt(n0, o.take(p), walker::View::Effect)
            &&& d.len() <= lo ==> d1 == d
            &&& lo < d.len() <= hi ==> d1 == d.take(lo)
            &&& hi < d.len() ==> d1 == d.take(lo) + d.skip(hi)
        }),
    decreases p,
{
    let v = walker::View::Effect;
    lemma_cnt_bounds(n0, o.take(p), v);
    if p > 0 {
        lemma_docs_without_ranks(n0, n1, o, lo, hi, p - 1);
        let t = o.take(p);
        assert(t.drop_last() == o.take(p - 1));
        assert(t.last() == o[p - 1]);
        let x = o[p - 1] as int;
        let d = docs(n0, o.take(p - 1), v);
        let d1 = docs(n1, o.take(p - 1), v);
        lemma_cnt_bounds(n0, o.take(p - 1), v);
        let c = d.len();
        if visible(n0[x], v) {
            let e = d.push(n0[x].content);
            assert(docs(n0, t, v) == e);
            if lo < c + 1 <= hi {
                assert(docs(n1, t, v) == d1);
                if c <= lo {
                    assert(e.take(lo) =~= d);
                } else {
                    assert(e.take(lo) =~= d.take(lo));
                }
            } else if c + 1 <= lo {
                assert(docs(n1, t, v) == d1.push(n1[x].content));
                assert(docs(n1, t, v) =~= e);
            } else {
                assert(docs(n1, t, v) == d1.push(n1[x].content));
                if c <= lo {
                    assert(e.take(lo) + e.skip(hi) =~= e);
                } else if c <= hi {
                    assert(c == hi);
                    assert(e.take(lo) + e.skip(hi) =~= d.take(lo).push(n0[x].content));
                } else {
                    assert(e.take(lo) + e.skip(hi) =~= (d.take(lo) + d.skip(hi)).push(n0[x].content));
                }
            }
        } else {
            assert(docs(n0, t, v) =~= d);
            assert(docs(n1, t, v) =~= d1);
        }
    } else {
        assert(o.take(0) == Seq::<usize>::empty());
    }
}

/// Deleting `count` elements from position `offset` of the effect view: the
/// deletes `create_delete` made for that range, applied to the list, leave
/// the effect view without exactly those elements.
#[verifier::spinoff_prover]
#[verifier::rlimit(50)]
pub proof fn law_local_delete<T>(l0: List<T>, l1: List<T>, offset: int, count: int, ds: Seq<Delete>)
    requires
        l0.wf(),
        0 <= offset,
        ds.len() == count,
        forall|k: int| 0 <= k < count ==> (#[trigger] ds[k]).count == 1
            && l0.id_at_rank(ds[k].id, walker::View::Effect, offset + k + 1),
        l0.with_deleted(&l1, deletes_ids(ds)),
    ensures
        count == 0 ==> l1.doc(walker::View::Effect) == l0.doc(walker::View::Effect),
        count > 0 ==> offset + count <= l0.doc(walker::View::Effect).len(),
        count > 0 ==> l1.doc(walker::View::Effect) == l0.doc(walker::View::Effect).take(offset)
            + l0.doc(walker::View::Effect).skip(offset + count),
        l1.len_in(walker::View::Effect) == l0.len_in(walker::View::Effect) - count,
{
    let v = walker::View::Effect;
    let n0 = l0.nodes@;
    let n1 = l1.nodes@;
    let o = l0.order();
    let ids = deletes_ids(ds);
    let lo = offset;
    let hi = offset + count;
    lemma_order_nodup(n0, l0.spans@, l0.root.right_children@);
    lemma_single_deletes_ids(ds);
    // The element of rank r (counting from 1) sits at one place of the order.
    assert forall|q: int| 0 <= q < o.len() implies (visible(n1[#[trigger] o[q] as int], v) <==> (
        visible(n0[o[q] as int], v) && !(lo < cnt(n0, o.take(q + 1), v) <= hi))) by {
        let x = o[q] as int;
        let r = cnt(n0, o.take(q + 1), v) as int;
        assert(n1[x].effect_deleted == (n0[x].effect_deleted || ids.contains(n0[x].id)));
        if visible(n0[x], v) && lo < r <= hi {
            let k = r - offset - 1;
            assert(l0.id_at_rank(ds[k].id, v, offset + k + 1));
            let i = choose|i: int| #[trigger] l0.at_rank(i, v, offset + k + 1) && n0[i].id == ds[k].id;
            let pos = choose|pos: int| #[trigger] l0.holds_rank(i, pos, v, offset + k + 1);
            if pos < q {
                lemma_cnt_prefix(n0, o, pos + 1, q + 1, v);
            } else if pos > q {
                lemma_cnt_prefix(n0, o, q + 1, pos + 1, v);
            }
            assert(pos == q);
            assert(ids[k] == n0[x].id);
            assert(ids.contains(n0[x].id));
        }
        if ids.contains(n0[x].id) {
            let k = choose|k: int| 0 <= k < ids.len() && ids[k] == n0[x].id;
            assert(ds[k].id == n0[x].id);
            assert(l0.id_at_rank(ds[k].id, v, offset + k + 1));
            let i = choose|i: int| #[trigger] l0.at_rank(i, v, offset + k + 1) && n0[i].id == ds[k].id;
            let pos = choose|pos: int| #[trigger] l0.holds_rank(i, pos, v, offset + k + 1);
            assert(o[pos] == i);
            if i != x {
                lemma_tree_ids(n0, l0.spans@, i, x);
            }
            assert(o[pos] == o[q]);
            assert(pos == q);
        }
    }
    assert forall|q: int| 0 <= q < o.len() implies n1[#[trigger] o[q] as int].content == n0[o[q] as int].content by {}
    assert(l1.order() == o);
    lemma_docs_without_ranks(n0, n1, o, lo, hi, o.len() as int);
    assert(o.take(o.len() as int) == o);
    let d = docs(n0, o, v);
    if count > 0 {
        let k = count - 1;
        assert(l0.id_at_rank(ds[k].id, v, offset + k + 1));
        let i = choose|i: int| #[trigger] l0.at_rank(i, v, offset + k + 1) && n0[i].id == ds[k].id;
        let pos = choose|pos: int| #[trigger] l0.holds_rank(i, pos, v, offset + k + 1);
        lemma_cnt_prefix(n0, o, pos + 1, o.len() as int, v);
        assert(d.len() >= hi);
        if d.len() == hi {
            assert(d.skip(hi) =~= Seq::<T>::empty());
            assert(d.take(lo) + d.skip(hi) =~= d.take(lo));
        }
    } else {
        if lo < d.len() {
            assert(d.take(lo) + d.skip(lo) =~= d);
        }
    }
    lemma_cnt_bounds(n0, o, v);
    lemma_cnt_bounds(n1, l1.order(), v);
}

/// Deletes commute: applying two lists of deletes to the same list, in
/// either order, gives the same document in both views.
pub proof fn law_deletes_commute<T>(l0: List<T>, a1: List<T>, a2: List<T>, b1: List<T>, b2: List<T>, d1: Seq<Delete>, d2: Seq<Delete>)
    requires
        l0.wf(),
        l0.with_deleted(&a1, deletes_ids(d1)),
        a1.with_deleted(&a2, deletes_ids(d2)),
        l0.with_deleted(&b1, deletes_ids(d2)),
        b1.with_deleted(&b2, deletes_ids(d1)),
    ensures
        a2.order() == b2.order(),
        a2.doc(walker::View::Effect) == b2.doc(walker::View::Effect),
        a2.doc(walker::View::Prepare) == b2.doc(walker::View::Prepare),
{
    let o = l0.order();
    let na = a2.nodes@;
    let nb = b2.nodes@;
    lemma_order_nodup(l0.nodes@, l0.spans@, l0.root.right_children@);
    assert forall|k: int| 0 <= k < o.len() && 0 <= o[k] < na.len() implies (visible(na[o[k] as int], walker::View::Effect)
        == visible(nb[o[k] as int], walker::View::Effect) && visible(na[o[k] as int], walker::View::Prepare)
        == visible(nb[o[k] as int], walker::View::Prepare) && na[o[k] as int].content == nb[o[k] as int].content) by {
        let x = o[k] as int;
        assert(a1.nodes@[x].id == l0.nodes@[x].id);
        assert(b1.nodes@[x].id == l0.nodes@[x].id);
    }
    lemma_docs_frame_in(na, nb, o, walker::View::Effect);
    lemma_docs_frame_in(na, nb, o, walker::View::Prepare);
}

/// Two node sequences that agree, on the nodes of `s` they hold, on what view
/// `v` shows, give the same document of `s` in that view.
proof fn lemma_docs_frame_in<T>(n1: Seq<Node<T>>, n2: Seq<Node<T>>, s: Seq<usize>, v: walker::View)
    requires
        n1.len() == n2.len(),
        forall|k: int| 0 <= k < s.len() && 0 <= s[k] < n1.len() ==> visible(n1[s[k] as int], v) == visible(n2[s[k] as int], v)
            && n1[s[k] as int].content == n2[s[k] as int].content,
        forall|k: int| 0 <= k < s.len() ==> s[k] < n1.len(),
    ensures
        docs(n1, s, v) == docs(n2, s, v),
{
    assert forall|k: int| 0 <= k < s.len() implies visible(n1[s[k] as int], v) == visible(n2[s[k] as int], v)
        && n1[s[k] as int].content == n2[s[k] as int].content by {}
    lemma_cnt_frame(n1, n2, s, v);
}

/// One prepare step on a state that may be missing.
pub open spec fn step_opt(advance: bool, insert: bool, o: Option<PrepareState>) -> Option<PrepareState> {
    match o {
        None => None,
        Some(s) => step_spec(advance, insert, s),
    }
}

/// `c` prepare steps, the last applied last.
pub open spec fn steps_last(advance: bool, insert: bool, o: Option<PrepareState>, c: nat) -> Option<PrepareState>
    decreases c,
{
    if c == 0 {
        o
    } else {
        step_opt(advance, insert, steps_last(advance, insert, o, (c - 1) as nat))
    }
}

/// `c` prepare steps, the first applied first.
pub open spec fn steps_first(advance: bool, insert: bool, o: Option<PrepareState>, c: nat) -> Option<PrepareState>
    decreases c,
{
    if c == 0 {
        o
    } else {
        steps_first(advance, insert, step_opt(advance, insert, o), (c - 1) as nat)
    }
}

/// How often `e` occurs in `ids`.
pub open spec fn occurrences(ids: Seq<ElementId>, e: ElementId) -> nat
    decreases ids.len(),
{
    if ids.len() == 0 {
        0
    } else {
        occurrences(ids.drop_last(), e) + if ids.last() == e { 1nat } else { 0nat }
    }
}

proof fn lemma_steps_first_last(advance: bool, insert: bool, o: Option<PrepareState>, c: nat)
    ensures
        steps_first(advance, insert, o, c) == steps_last(advance, insert, o, c),
    decreases c,
{
    if c > 0 {
        lemma_steps_first_snoc(advance, insert, o, c);
        lemma_steps_first_last(advance, insert, o, (c - 1) as nat);
    }
}

proof fn lemma_steps_first_snoc(advance: bool, insert: bool, o: Option<PrepareState>, c: nat)
    requires
        c > 0,
    ensures
        steps_first(advance, insert, o, c) == step_opt(advance, insert, steps_first(advance, insert, o, (c - 1) as nat)),
    decreases c,
{
    let o1 = step_opt(advance, insert, o);
    assert(steps_first(advance, insert, o, c) == steps_first(advance, insert, o1, (c - 1) as nat));
    if c > 1 {
        lemma_steps_first_snoc(advance, insert, o1, (c - 1) as nat);
        assert(steps_first(advance, insert, o, (c - 1) as nat) == steps_first(advance, insert, o1, (c - 2) as nat));
    } else {
        assert(steps_first(advance, insert, o1, 0) == o1);
        assert(steps_first(advance, insert, o, 0) == o);
    }
}

/// A missing state stays missing.
proof fn lemma_steps_none(advance: bool, insert: bool, c: nat)
    ensures
        steps_last(advance, insert, None, c) is None,
    decreases c,
{
    if c > 0 {
        lemma_steps_none(advance, insert, (c - 1) as nat);
    }
}

/// If `c` steps go through, so do fewer.
proof fn lemma_steps_prefix(advance: bool, insert: bool, o: Option<PrepareState>, c: nat, d: nat)
    requires
        d <= c,
        steps_last(advance, insert, o, c) is Some,
    ensures
        steps_last(advance, insert, o, d) is Some,
    decreases c - d,
{
    if d < c {
        lemma_steps_prefix(advance, insert, o, (c - 1) as nat, d);
    }
}

/// A run of moves without error leaves each id's state moved once per
/// occurrence of the id.
proof fn lemma_run_moves_steps(st: spec_fn(ElementId) -> Option<PrepareState>, ids: Seq<ElementId>, advance: bool, insert: bool)
    requires
        run_moves(st, ids, advance, insert).0 is None,
    ensures
        forall|e: ElementId| #[trigger] (run_moves(st, ids, advance, insert).1)(e) == steps_last(advance, insert, st(e), occurrences(ids, e)),
        forall|e: ElementId| occurrences(ids, e) > 0 ==> #[trigger] steps_last(advance, insert, st(e), occurrences(ids, e)) is Some,
    decreases ids.len(),
{
    if ids.len() > 0 {
        let prev = run_moves(st, ids.drop_last(), advance, insert);
        lemma_run_moves_steps(st, ids.drop_last(), advance, insert);
        let e0 = ids.last();
        assert forall|e: ElementId| #[trigger] (run_moves(st, ids, advance, insert).1)(e) == steps_last(advance, insert, st(e), occurrences(ids, e)) by {
            assert((prev.1)(e) == steps_last(advance, insert, st(e), occurrences(ids.drop_last(), e)));
        }
        assert forall|e: ElementId| occurrences(ids, e) > 0 implies #[trigger] steps_last(advance, insert, st(e), occurrences(ids, e)) is Some by {
            assert((run_moves(st, ids, advance, insert).1)(e) == steps_last(advance, insert, st(e), occurrences(ids, e)));
            if e == e0 {
                assert((run_moves(st, ids, advance, insert).1)(e) is Some);
            } else {
                assert((prev.1)(e) == steps_last(advance, insert, st(e), occurrences(ids.drop_last(), e)));
            }
        }
    }
}

/// A run of moves goes through if each id's state can be moved once per
/// occurrence.
proof fn lemma_steps_run_moves(st: spec_fn(ElementId) -> Option<PrepareState>, ids: Seq<ElementId>, advance: bool, insert: bool)
    requires
        forall|e: ElementId| occurrences(ids, e) > 0 ==> #[trigger] steps_last(advance, insert, st(e), occurrences(ids, e)) is Some,
    ensures
        run_moves(st, ids, advance, insert).0 is None,
    decreases ids.len(),
{
    if ids.len() > 0 {
        let pre = ids.drop_last();
        let e0 = ids.last();
        assert forall|e: ElementId| occurrences(pre, e) > 0 implies #[trigger] steps_last(advance, insert, st(e), occurrences(pre, e)) is Some by {
            assert(occurrences(ids, e) > 0);
            assert(steps_last(advance, insert, st(e), occurrences(ids, e)) is Some);
            lemma_steps_prefix(advance, insert, st(e), occurrences(ids, e), occurrences(pre, e));
        }
        lemma_steps_run_moves(st, pre, advance, insert);
        lemma_run_moves_steps(st, pre, advance, insert);
        let c = occurrences(ids, e0);
        assert(c > 0);
        assert(steps_last(advance, insert, st(e0), c) is Some);
        if steps_last(advance, insert, st(e0), (c - 1) as nat) is None {
            assert(steps_last(advance, insert, st(e0), c) is None);
        }
        let prev = run_moves(st, pre, advance, insert);
        assert((prev.1)(e0) == steps_last(advance, insert, st(e0), (c - 1) as nat));
    }
}

/// A retracting step undoes an advancing step, from any state a valid list
/// holds.
proof fn lemma_step_back(insert: bool, s: PrepareState)
    requires
        s != PrepareState::Deleted(0),
        step_spec(true, insert, s) is Some,
    ensures
        step_spec(false, insert, step_spec(true, insert, s)->0) == Some(s),
        step_spec(true, insert, s)->0 != PrepareState::Deleted(0),
{
}

/// `c` retracting steps undo `c` advancing steps.
proof fn lemma_steps_back(insert: bool, o: Option<PrepareState>, c: nat)
    requires
        o != Some(PrepareState::Deleted(0)),
        steps_first(true, insert, o, c) is Some,
    ensures
        steps_first(false, insert, steps_first(true, insert, o, c), c) == o,
    decreases c,
{
    if c > 0 {
        if o is None {
            lemma_steps_first_last(true, insert, None, c);
            lemma_steps_none(true, insert, c);
        } else {
            let s = o->0;
            if step_spec(true, insert, s) is None {
                lemma_steps_first_last(true, insert, None, (c - 1) as nat);
                lemma_steps_none(true, insert, (c - 1) as nat);
            } else {
                lemma_step_back(insert, s);
                let o1 = step_opt(true, insert, o);
                lemma_steps_back(insert, o1, (c - 1) as nat);
                let x = steps_first(true, insert, o1, (c - 1) as nat);
                assert(steps_first(true, insert, o, c) == x);
                lemma_steps_first_last(true, insert, x, c);
                lemma_steps_first_last(false, insert, x, c);
                lemma_steps_first_snoc(false, insert, x, c);
                lemma_steps_first_last(false, insert, x, (c - 1) as nat);
                assert(steps_first(false, insert, x, (c - 1) as nat) == o1);
            }
        }
    }
}

/// Retracting an advanced op: once the prepare view has advanced by an op
/// without error, retracting the same op goes through without error and
/// gives every element back the prepare state it had.
pub proof fn law_retract_undoes_advance<T>(l: List<T>, ids: Seq<ElementId>, insert: bool)
    requires
        l.wf(),
        run_moves(l.prepare_states(), ids, true, insert).0 is None,
    ensures
        run_moves(run_moves(l.prepare_states(), ids, true, insert).1, ids, false, insert).0 is None,
        forall|e: ElementId| #[trigger] (run_moves(run_moves(l.prepare_states(), ids, true, insert).1, ids, false, insert).1)(e)
            == l.prepare_state_of(e),
{
    let st = l.prepare_states();
    let st1 = run_moves(st, ids, true, insert).1;
    lemma_run_moves_steps(st, ids, true, insert);
    l.lemma_no_deleted_zero();
    assert forall|e: ElementId| occurrences(ids, e) > 0 implies #[trigger] steps_last(false, insert, st1(e), occurrences(ids, e)) is Some by {
        let c = occurrences(ids, e);
        assert(st(e) == l.prepare_state_of(e));
        assert(steps_last(true, insert, st(e), c) is Some);
        if st(e) is None {
            lemma_steps_none(true, insert, c);
        }
        lemma_steps_first_last(true, insert, st(e), c);
        lemma_steps_back(insert, st(e), c);
        lemma_steps_first_last(false, insert, st1(e), c);
        assert(st1(e) == steps_last(true, insert, st(e), c));
    }
    lemma_steps_run_moves(st1, ids, false, insert);
    lemma_run_moves_steps(st1, ids, false, insert);
    assert forall|e: ElementId| #[trigger] (run_moves(st1, ids, false, insert).1)(e) == l.prepare_state_of(e) by {
        let c = occurrences(ids, e);
        assert(st(e) == l.prepare_state_of(e));
        assert((run_moves(st1, ids, false, insert).1)(e) == steps_last(false, insert, st1(e), c));
        assert(st1(e) == steps_last(true, insert, st(e), c));
        if c > 0 {
            assert(steps_last(true, insert, st(e), c) is Some);
            lemma_steps_first_last(true, insert, st(e), c);
            lemma_steps_back(insert, st(e), c);
            lemma_steps_first_last(false, insert, st1(e), c);
        }
    }
}

/// Retracting an advanced op restores the views: when the prepare view of
/// `l0` advanced by `op` without error, giving `l1`, and `l1` then retracted
/// `op`, giving `l2`, the retract succeeds and the prepare view of `l2` holds
/// the elements of that of `l0`, in the same order and number; the effect
/// view is that of `l0` all along.
pub proof fn law_retract_restores_views<T>(l0: List<T>, l1: List<T>, l2: List<T>, op: PrepareOp)
    requires
        l0.wf(),
        l0.same_but_prepare(&l1),
        run_moves(l0.prepare_states(), prepare_op_ids(op), true, op is Insert).0 is None,
        l1.states_are(run_moves(l0.prepare_states(), prepare_op_ids(op), true, op is Insert).1),
        l1.wf(),
        l1.same_but_prepare(&l2),
        l2.states_are(run_moves(l1.prepare_states(), prepare_op_ids(op), false, op is Insert).1),
        l2.wf(),
    ensures
        run_moves(l1.prepare_states(), prepare_op_ids(op), false, op is Insert).0 is None,
        l2.doc(walker::View::Prepare) == l0.doc(walker::View::Prepare),
        l2.len_in(walker::View::Prepare) == l0.len_in(walker::View::Prepare),
        l2.doc(walker::View::Effect) == l0.doc(walker::View::Effect),
        l2.len_in(walker::View::Effect) == l0.len_in(walker::View::Effect),
{
    let ids = prepare_op_ids(op);
    let ins = op is Insert;
    let st1 = run_moves(l0.prepare_states(), ids, true, ins).1;
    assert(l1.prepare_states() =~= st1) by {
        assert forall|e: ElementId| #[trigger] (l1.prepare_states())(e) == st1(e) by {
            assert(l1.prepare_state_of(e) == st1(e));
        }
    }
    law_retract_undoes_advance(l0, ids, ins);
    let n0 = l0.nodes@;
    let n2 = l2.nodes@;
    let o = l0.order();
    lemma_order_nodup(n0, l0.spans@, l0.root.right_children@);
    assert forall|k: int| 0 <= k < o.len() implies visible(n0[#[trigger] o[k] as int], walker::View::Prepare)
        == visible(n2[o[k] as int], walker::View::Prepare) && visible(n0[o[k] as int], walker::View::Effect)
        == visible(n2[o[k] as int], walker::View::Effect) && n0[o[k] as int].content == n2[o[k] as int].content by {
        let x = o[k] as int;
        let e = n0[x].id;
        assert(l1.nodes@[x].id == e);
        assert(n2[x].id == e);
        l0.lemma_index_of(e, x);
        l2.lemma_index_of(e, x);
        assert(l2.prepare_state_of(e) == (run_moves(st1, ids, false, ins).1)(e));
    }
    lemma_cnt_frame(n0, n2, o, walker::View::Prepare);
    lemma_cnt_frame(n0, n2, o, walker::View::Effect);
}

/// Whether an id is kept by deleting the ids `ids`: it is not among them.
pub open spec fn kept(ids: Seq<ElementId>) -> spec_fn(ElementId) -> bool {
    |e: ElementId| !ids.contains(e)
}

/// The ids that deleting `ids` leaves shown among those of `s`: the shown ids
/// of `n0` not in `ids`, in order.
proof fn lemma_ids_shown_deleted<T>(n0: Seq<Node<T>>, n1: Seq<Node<T>>, s: Seq<usize>, ids: Seq<ElementId>)
    requires
        forall|k: int| 0 <= k < s.len() ==> 0 <= #[trigger] s[k] < n0.len(),
        n1.len() == n0.len(),
        forall|x: int| 0 <= x < n0.len() ==> (#[trigger] n1[x]).id == n0[x].id
            && n1[x].effect_deleted == (n0[x].effect_deleted || ids.contains(n0[x].id)),
    ensures
        ids_shown(n1, s, walker::View::Effect) == ids_shown(n0, s, walker::View::Effect).filter(kept(ids)),
        ids_shown(n0, s, walker::View::Effect).len() == cnt(n0, s, walker::View::Effect),
        ids_shown(n1, s, walker::View::Effect).len() == cnt(n1, s, walker::View::Effect),
    decreases s.len(),
{
    if s.len() == 0 {
        reveal(Seq::filter);
    } else {
        let t = s.drop_last();
        assert forall|k: int| 0 <= k < t.len() implies 0 <= #[trigger] t[k] < n0.len() by {
            assert(t[k] == s[k]);
        }
        lemma_ids_shown_deleted(n0, n1, t, ids);
        let e = walker::View::Effect;
        assert(s[s.len() - 1] == s.last());
        assert(0 <= s[s.len() - 1] < n0.len());
        let x = s.last() as int;
        let a = ids_shown(n0, t, e);
        let b = ids_shown(n1, t, e);
        let id0 = n0[x].id;
        assert(n1[x].id == id0);
        if visible(n0[x], e) {
            let c = a.push(id0);
            assert(ids_shown(n0, s, e) == c);
            a.lemma_filter_push(id0, kept(ids));
            assert(c.filter(kept(ids)) == if kept(ids)(id0) {
                a.filter(kept(ids)).push(id0)
            } else {
                a.filter(kept(ids))
            });
            if ids.contains(id0) {
                assert(ids_shown(n1, s, e) == b);
            } else {
                assert(ids_shown(n1, s, e) == b.push(id0));
            }
        } else {
            assert(ids_shown(n0, s, e) == a);
            assert(ids_shown(n1, s, e) == b);
        }
    }
}

/// Deletes remove exactly the deleted elements from the effect view: after
/// deleting the ids `ids`, the effect view shows, in order, the elements it
/// showed whose ids are not among `ids`, so it shrinks by the number of those
/// it showed that are; an id it did not show changes nothing, and none of
/// `ids` is shown afterwards, so deleting them again changes nothing.
pub proof fn law_delete_effect<T>(l0: List<T>, l1: List<T>, ids: Seq<ElementId>)
    requires
        l0.wf(),
        l0.with_deleted(&l1, ids),
    ensures
        l1.ids_in(walker::View::Effect) == l0.ids_in(walker::View::Effect).filter(kept(ids)),
        l0.len_in(walker::View::Effect) == l0.ids_in(walker::View::Effect).len(),
        l1.len_in(walker::View::Effect) == l1.ids_in(walker::View::Effect).len(),
        forall|k: int| 0 <= k < l1.ids_in(walker::View::Effect).len() ==> !ids.contains(
            #[trigger] l1.ids_in(walker::View::Effect)[k],
        ),
{
    let o = l0.order();
    lemma_order_nodup(l0.nodes@, l0.spans@, l0.root.right_children@);
    assert forall|k: int| 0 <= k < o.len() implies 0 <= #[trigger] o[k] < l0.nodes@.len() by {}
    lemma_ids_shown_deleted(l0.nodes@, l1.nodes@, o, ids);
    let f = l0.ids_in(walker::View::Effect).filter(kept(ids));
    assert forall|k: int| 0 <= k < f.len() implies !ids.contains(#[trigger] f[k]) by {
        broadcast use vstd::seq_lib::group_filter_ensures;
        assert(kept(ids)(f[k]));
    }
}

/// An id that `s` shows in view `v` is that of a visible node of `s`.
proof fn lemma_ids_shown_member<T>(nodes: Seq<Node<T>>, s: Seq<usize>, v: walker::View, e: ElementId)
    requires
        ids_shown(nodes, s, v).contains(e),
    ensures
        exists|k: int| 0 <= k < s.len() && visible(nodes[#[trigger] s[k] as int], v) && nodes[s[k] as int].id == e,
    decreases s.len(),
{
    let t = s.drop_last();
    let a = ids_shown(nodes, t, v);
    if a.contains(e) {
        lemma_ids_shown_member(nodes, t, v, e);
        let k = choose|k: int| 0 <= k < t.len() && visible(nodes[#[trigger] t[k] as int], v) && nodes[t[k] as int].id == e;
        assert(s[k] == t[k]);
    } else {
        let x = s.last() as int;
        assert(visible(nodes[x], v));
        assert(a.push(nodes[x].id).contains(e));
        let m = choose|m: int| 0 <= m < a.push(nodes[x].id).len() && a.push(nodes[x].id)[m] == e;
        if m < a.len() {
            assert(a[m] == e);
        }
        assert(s[s.len() - 1] == s.last());
    }
}

/// A deleted element is not shown: an element the list holds deleted in the
/// effect view, such as one whose delete arrived before it, is absent from
/// the effect view.
pub proof fn law_deleted_not_shown<T>(l: List<T>, e: ElementId)
    requires
        l.wf(),
        l.effect_deleted_id(e),
    ensures
        !l.ids_in(walker::View::Effect).contains(e),
{
    let o = l.order();
    let n = l.nodes@;
    if ids_shown(n, o, walker::View::Effect).contains(e) {
        lemma_ids_shown_member(n, o, walker::View::Effect, e);
        let k = choose|k: int| 0 <= k < o.len() && visible(n[#[trigger] o[k] as int], walker::View::Effect) && n[o[k] as int].id == e;
        lemma_order_nodup(n, l.spans@, l.root.right_children@);
        let x = l.index_of(e)->0;
        assert(n[x].id == e);
        if o[k] as int != x {
            lemma_tree_ids(n, l.spans@, o[k] as int, x);
        }
    }
}

proof fn lemma_deletes_advance(c: nat)
    requires
        1 <= c <= usize::MAX,
    ensures
        steps_last(true, false, Some(PrepareState::Inserted), c) == Some(PrepareState::Deleted(c as usize)),
    decreases c,
{
    assert(steps_last(true, false, Some(PrepareState::Inserted), 0) == Some(PrepareState::Inserted));
    if c > 1 {
        lemma_deletes_advance((c - 1) as nat);
    }
}

proof fn lemma_deletes_retract(n: nat, r: nat)
    requires
        1 <= n <= usize::MAX,
        r <= n,
    ensures
        r < n ==> steps_last(false, false, Some(PrepareState::Deleted(n as usize)), r) == Some(
            PrepareState::Deleted((n - r) as usize),
        ),
        r == n ==> steps_last(false, false, Some(PrepareState::Deleted(n as usize)), r) == Some(
            PrepareState::Inserted,
        ),
    decreases r,
{
    if r > 0 {
        lemma_deletes_retract(n, (r - 1) as nat);
    }
}

/// Concurrent deletes of one element stack in the prepare view: after `c`
/// deletes of a shown element advanced and `r` of them retracted, the element
/// stays deleted, counting `c - r` deletes, until the last one is retracted,
/// which shows it again; one retract more is refused.
pub proof fn law_stacked_deletes(c: nat, r: nat)
    requires
        1 <= c <= usize::MAX,
        r <= c,
    ensures
        steps_last(true, false, Some(PrepareState::Inserted), c) == Some(PrepareState::Deleted(c as usize)),
        r < c ==> steps_last(false, false, steps_last(true, false, Some(PrepareState::Inserted), c), r)
            == Some(PrepareState::Deleted((c - r) as usize)),
        steps_last(false, false, steps_last(true, false, Some(PrepareState::Inserted), c), c) == Some(
            PrepareState::Inserted,
        ),
        step_opt(false, false, Some(PrepareState::Inserted)) is None,
{
    lemma_deletes_advance(c);
    lemma_deletes_retract(c, r);
    lemma_deletes_retract(c, c);
}

/// A child hangs under its parent once nothing waits for it: when no element
/// waits for `p`, an element `c` that names `p` as its parent is in the
/// document exactly when `p` is.
pub proof fn law_child_follows_parent<T>(l: List<T>, c: ElementId, p: ElementId)
    requires
        l.wf(),
        !l.is_awaited(p),
        l.parent_of(c) matches Some(Parent::Node { id, .. }) && id == p,
    ensures
        l.in_doc(c) <==> l.in_doc(p),
{
    let n = l.nodes@;
    let x = l.index_of(c)->0;
    assert(0 <= x < n.len() && n[x].id == c);
    assert(n.len() == l.nodes.len());
    l.lemma_index_of(c, x);
    if n[x].parent_index is None {
        assert(l.is_awaited(p));
    }
    let q = n[x].parent_index->0;
    lemma_tree_at(n, l.spans@, x);
    assert(q < n.len() && n[q as int].id == p);
    l.lemma_index_of(p, q as int);
    assert(l.in_doc(p) == l.order().contains(q));
    lemma_order_contains(n, l.spans@, l.root.right_children@, x as usize);
}

/// A child hangs on its side of its parent: when no element waits for `p`
/// and `p` is in the document, an element `c` that names `p` as its parent on
/// the right comes after `p` in the document, and on the left before it.
pub proof fn law_child_side<T>(l: List<T>, c: ElementId, p: ElementId, side: Side)
    requires
        l.wf(),
        !l.is_awaited(p),
        l.in_doc(p),
        l.parent_of(c) == Some(Parent::Node { id: p, side }),
    ensures
        side == Side::Right ==> l.before(p, c),
        side == Side::Left ==> l.before(c, p),
{
    let n = l.nodes@;
    let sp = l.spans@;
    let rc = l.root.right_children@;
    let x = l.index_of(c)->0;
    assert(0 <= x < n.len() && n[x].id == c);
    assert(n.len() == l.nodes.len());
    l.lemma_index_of(c, x);
    if n[x].parent_index is None {
        assert(l.is_awaited(p));
    }
    let q = n[x].parent_index->0;
    lemma_tree_at(n, sp, x);
    assert(q < n.len() && n[q as int].id == p);
    l.lemma_index_of(p, q as int);
    assert(l.order().contains(q));
    lemma_tree_at(n, sp, q as int);
    let (a, b) = lemma_span_block(n, sp, rc, q);
    let fl = flat(sp, left_of(n, q as int));
    let fr = flat(sp, right_of(n, q as int));
    let o = l.order();
    assert(o == a + (fl + seq![q] + fr) + b);
    let iq: int = a.len() as int + fl.len() as int;
    assert(o[iq] == q);
    lemma_span_contains(n, sp, x as usize, x as usize);
    let cs = children_of(n, q as int, side);
    assert(cs.contains(x as usize));
    let k = choose|k: int| 0 <= k < cs.len() && cs[k] == x as usize;
    lemma_flat_contains(sp, cs, x as usize);
    assert(sp[cs[k] as int].contains(x as usize));
    if side == Side::Right {
        assert(fr.contains(x as usize));
        let m = choose|m: int| 0 <= m < fr.len() && fr[m] == x as usize;
        assert(o[iq + 1 + m] == x as usize);
    } else {
        assert(fl.contains(x as usize));
        let m = choose|m: int| 0 <= m < fl.len() && fl[m] == x as usize;
        assert(o[a.len() as int + m] == x as usize);
    }
}

/// The id of a visible node of `s` is among the ids `s` shows.
proof fn lemma_ids_shown_has<T>(nodes: Seq<Node<T>>, s: Seq<usize>, v: walker::View, k: int)
    requires
        0 <= k < s.len(),
        visible(nodes[s[k] as int], v),
    ensures
        ids_shown(nodes, s, v).contains(nodes[s[k] as int].id),
    decreases s.len(),
{
    let t = s.drop_last();
    let a = ids_shown(nodes, t, v);
    let e = nodes[s[k] as int].id;
    if k < s.len() - 1 {
        assert(t[k] == s[k]);
        lemma_ids_shown_has(nodes, t, v, k);
        let m = choose|m: int| 0 <= m < a.len() && a[m] == e;
        let x = s.last() as int;
        if visible(nodes[x], v) {
            assert(a.push(nodes[x].id)[m] == e);
        }
    } else {
        assert(s[k] == s.last());
        assert(a.push(e)[a.len() as int] == e);
    }
}

/// What each view shows: an id is among those the effect view shows exactly
/// when its element is in the document and not deleted there, and among
/// those the prepare view shows exactly when its element is in the document
/// and inserted in that view.
pub proof fn law_shown<T>(l: List<T>, e: ElementId)
    requires
        l.wf(),
    ensures
        l.ids_in(walker::View::Effect).contains(e) <==> l.in_doc(e) && !l.effect_deleted_id(e),
        l.ids_in(walker::View::Prepare).contains(e) <==> l.in_doc(e) && l.prepare_state_of(e) == Some(
            PrepareState::Inserted,
        ),
        l.in_doc(e) ==> l.has_id(e),
{
    let n = l.nodes@;
    let o = l.order();
    lemma_order_nodup(n, l.spans@, l.root.right_children@);
    assert(n.len() == l.nodes.len());
    if l.has_id(e) {
        let x = l.index_of(e)->0;
        assert(0 <= x < n.len() && n[x].id == e);
        l.lemma_index_of(e, x);
        if o.contains(x as usize) {
            let k = choose|k: int| 0 <= k < o.len() && o[k] == x as usize;
            if visible(n[x], walker::View::Effect) {
                lemma_ids_shown_has(n, o, walker::View::Effect, k);
            }
            if visible(n[x], walker::View::Prepare) {
                lemma_ids_shown_has(n, o, walker::View::Prepare, k);
            }
        }
    }
    let vs = seq![walker::View::Effect, walker::View::Prepare];
    assert forall|i: int| 0 <= i < 2 implies (ids_shown(n, o, #[trigger] vs[i]).contains(e) ==> l.in_doc(e) && visible(
        n[l.index_of(e)->0], vs[i])) by {
        let v = vs[i];
        if ids_shown(n, o, v).contains(e) {
            lemma_ids_shown_member(n, o, v, e);
            let k = choose|k: int| 0 <= k < o.len() && visible(n[#[trigger] o[k] as int], v) && n[o[k] as int].id == e;
            l.lemma_index_of(e, o[k] as int);
        }
    }
    assert(vs[0] == walker::View::Effect && vs[1] == walker::View::Prepare);
}

/// Two visible nodes of `s`, at places `p < q`, show their ids in that order.
proof fn lemma_ids_shown_order<T>(nodes: Seq<Node<T>>, s: Seq<usize>, v: walker::View, p: int, q: int)
    requires
        0 <= p < q < s.len(),
        visible(nodes[s[p] as int], v),
        visible(nodes[s[q] as int], v),
    ensures
        exists|i: int, j: int| 0 <= i < j < ids_shown(nodes, s, v).len() && ids_shown(nodes, s, v)[i] == nodes[s[p] as int].id
            && ids_shown(nodes, s, v)[j] == nodes[s[q] as int].id,
    decreases s.len(),
{
    let t = s.drop_last();
    let a = ids_shown(nodes, t, v);
    let x = s.last() as int;
    assert(t[p] == s[p]);
    if q < s.len() - 1 {
        assert(t[q] == s[q]);
        lemma_ids_shown_order(nodes, t, v, p, q);
        let (i, j) = choose|i: int, j: int| 0 <= i < j < a.len() && a[i] == nodes[s[p] as int].id && a[j] == nodes[s[q] as int].id;
        let r = ids_shown(nodes, s, v);
        if visible(nodes[x], v) {
            assert(r == a.push(nodes[x].id));
            assert(r[i] == a[i] && r[j] == a[j]);
        } else {
            assert(r == a);
        }
        assert(0 <= i < j < r.len() && r[i] == nodes[s[p] as int].id && r[j] == nodes[s[q] as int].id);
    } else {
        assert(s[q] == s.last());
        lemma_ids_shown_has(nodes, t, v, p);
        let i = choose|i: int| 0 <= i < a.len() && a[i] == nodes[s[p] as int].id;
        let r = ids_shown(nodes, s, v);
        assert(r == a.push(nodes[x].id));
        assert(r[i] == a[i]);
        assert(r[a.len() as int] == nodes[x].id);
        assert(0 <= i < a.len() as int && a.len() < r.len());
    }
}

/// The shown ids keep the document's order: when `a` comes before `b` in
/// the document and view `v` shows both, it shows `a` first.
pub proof fn law_shown_order<T>(l: List<T>, a: ElementId, b: ElementId, v: walker::View)
    requires
        l.wf(),
        l.before(a, b),
        l.ids_in(v).contains(a),
        l.ids_in(v).contains(b),
    ensures
        exists|i: int, j: int| 0 <= i < j < l.ids_in(v).len() && l.ids_in(v)[i] == a && l.ids_in(v)[j] == b,
{
    let n = l.nodes@;
    let o = l.order();
    lemma_order_nodup(n, l.spans@, l.root.right_children@);
    let (p, q) = choose|i: int, j: int| 0 <= i < j < o.len() && #[trigger] l.index_of(a) == Some(o[i] as int)
        && #[trigger] l.index_of(b) == Some(o[j] as int);
    lemma_ids_shown_member(n, o, v, a);
    let ka = choose|k: int| 0 <= k < o.len() && visible(n[#[trigger] o[k] as int], v) && n[o[k] as int].id == a;
    l.lemma_index_of(a, o[ka] as int);
    lemma_ids_shown_member(n, o, v, b);
    let kb = choose|k: int| 0 <= k < o.len() && visible(n[#[trigger] o[k] as int], v) && n[o[k] as int].id == b;
    l.lemma_index_of(b, o[kb] as int);
    assert(o[ka] == o[p] && o[kb] == o[q]);
    assert(n[o[p] as int].id == a && n[o[q] as int].id == b);
    lemma_ids_shown_order(n, o, v, p, q);
}

/// With distinct places holding distinct ids, the ids `s` shows are distinct.
proof fn lemma_ids_shown_nodup<T>(nodes: Seq<Node<T>>, s: Seq<usize>, v: walker::View)
    requires
        s.no_duplicates(),
        forall|k: int| 0 <= k < s.len() ==> #[trigger] s[k] < nodes.len(),
        forall|i: int, j: int| 0 <= i < nodes.len() && 0 <= j < nodes.len() && i != j ==> nodes[i].id != nodes[j].id,
    ensures
        ids_shown(nodes, s, v).no_duplicates(),
    decreases s.len(),
{
    if s.len() > 0 {
        let t = s.drop_last();
        assert forall|k: int| 0 <= k < t.len() implies #[trigger] t[k] < nodes.len() by {
            assert(t[k] == s[k]);
        }
        assert(t.no_duplicates()) by {
            assert forall|i: int, j: int| 0 <= i < t.len() && 0 <= j < t.len() && i != j implies t[i] != t[j] by {
                assert(t[i] == s[i] && t[j] == s[j]);
            }
        }
        lemma_ids_shown_nodup(nodes, t, v);
        let a = ids_shown(nodes, t, v);
        let x = s.last() as int;
        assert(s[s.len() - 1] == s.last());
        if visible(nodes[x], v) {
            if a.contains(nodes[x].id) {
                lemma_ids_shown_member(nodes, t, v, nodes[x].id);
                let k = choose|k: int| 0 <= k < t.len() && visible(nodes[#[trigger] t[k] as int], v) && nodes[t[k] as int].id == nodes[x].id;
                assert(t[k] == s[k]);
                assert(s[k] != s[s.len() - 1]);
            }
            let r = a.push(nodes[x].id);
            assert forall|i: int, j: int| 0 <= i < r.len() && 0 <= j < r.len() && i != j implies r[i] != r[j] by {
                if i < a.len() && j < a.len() {
                } else if i < a.len() {
                    assert(a.contains(r[i]));
                } else {
                    assert(a.contains(r[j]));
                }
            }
        }
    }
}

/// Each view shows an element at most once.
pub proof fn law_shown_once<T>(l: List<T>, v: walker::View)
    requires
        l.wf(),
    ensures
        l.ids_in(v).no_duplicates(),
{
    lemma_order_nodup(l.nodes@, l.spans@, l.root.right_children@);
    assert forall|i: int, j: int| 0 <= i < l.nodes@.len() && 0 <= j < l.nodes@.len() && i != j implies l.nodes@[i].id
        != l.nodes@[j].id by {
        lemma_tree_ids(l.nodes@, l.spans@, i, j);
    }
    lemma_ids_shown_nodup(l.nodes@, l.order(), v);
}

/// The root is always there: an element under it is placed in the document.
pub proof fn law_root_places<T>(l: List<T>)
    ensures
        l.places(Parent::Root),
{
}

/// What an element is in a list: whether the list holds it, and then its
/// parent, its effect deletion and its prepare state; and whether a delete
/// waits for it.
pub open spec fn same_element<T>(l1: List<T>, l2: List<T>, e: ElementId) -> bool {
    &&& l1.has_id(e) == l2.has_id(e)
    &&& l1.has_id(e) ==> l1.parent_of(e) == l2.parent_of(e) && l1.effect_deleted_id(e) == l2.effect_deleted_id(e)
        && l1.prepare_state_of(e) == l2.prepare_state_of(e)
    &&& l1.pending_deletes().contains(e) == l2.pending_deletes().contains(e)
}

/// The run of `x` as an insert that `l` makes of `l0` (as `apply_op` ensures),
/// with ids new to `l0`.
pub open spec fn run_applied<T>(l0: List<T>, l: List<T>, x: ElementId, parent: Parent, len: nat) -> bool {
    &&& run_progress(l0, l, x, parent, len as int, len as int)
    &&& forall|j: int| 0 <= j < len ==> !l0.has_id(#[trigger] run_id(x, j))
}

/// The run of `x` with the contents `cs` under `parent` as an insert that `l`
/// makes of `l0`, as `apply_op` ensures it.
pub open spec fn run_inserted<T>(l0: List<T>, l: List<T>, x: ElementId, parent: Parent, cs: Seq<T>) -> bool {
    let len = cs.len();
    let n0 = l0.node_count();
    &&& l.wf()
    &&& l0.sorted() ==> l.sorted()
    &&& run_progress(l0, l, x, parent, len as int, len as int)
    &&& l0.fresh_run(x, len) ==> l0.keeps(&l)
    &&& l0.fresh_run(x, len) ==> forall|k: int| 0 <= k < len ==> #[trigger] l.node_is(n0 + k, run_id(x, k),
            run_parent(parent, x, k), cs[k], false)
    &&& l0.fresh_run(x, len) && l0.places(parent) && len > 0 ==> exists|q: int| #[trigger] placed_run(l.order(), l0.order(), n0, len, q)
    &&& len == 0 ==> l.order() == l0.order()
    &&& l0.fresh_run(x, len) && l0.places(parent) ==> run_grafted(l0, l, parent, len)
}

/// Inserts converge: two runs of ids new to the list and to each other,
/// each under the root or an element of the document, inserted one after
/// the other in either order, leave the same document in every view.
#[verifier::spinoff_prover]
pub proof fn law_inserts_converge<T>(
    l0: List<T>,
    a1: List<T>,
    a2: List<T>,
    b1: List<T>,
    b2: List<T>,
    x: ElementId,
    px: Parent,
    cx: Seq<T>,
    y: ElementId,
    py: Parent,
    cy: Seq<T>,
)
    requires
        l0.wf(),
        l0.sorted(),
        l0.fresh_run(x, cx.len()),
        l0.fresh_run(y, cy.len()),
        l0.places(px),
        l0.places(py),
        forall|d: ElementId| !(run_ids(x, cx.len()).contains(d) && run_ids(y, cy.len()).contains(d)),
        run_inserted(l0, a1, x, px, cx),
        run_inserted(a1, a2, y, py, cy),
        run_inserted(l0, b1, y, py, cy),
        run_inserted(b1, b2, x, px, cx),
    ensures
        forall|v: walker::View| #[trigger] a2.doc(v) == b2.doc(v),
{
    lemma_still_fresh(l0, a1, x, px, cx, y, py, cy.len());
    assert forall|d: ElementId| !(run_ids(y, cy.len()).contains(d) && run_ids(x, cx.len()).contains(d)) by {
        assert(!(run_ids(x, cx.len()).contains(d) && run_ids(y, cy.len()).contains(d)));
    }
    lemma_still_fresh(l0, b1, y, py, cy, x, px, cx.len());
    l0.lemma_places(px);
    l0.lemma_places(py);
    lemma_children_in_range(l0.nodes@, l0.spans@, l0.root.right_children@);
    reveal(List::sorted);
    assert(two_orders(l0, a1, a2, b1, b2, x, px, cx, y, py, cy));
    lemma_swap_docs(l0, a1, a2, b1, b2, x, px, cx, y, py, cy);
}

proof fn lemma_run_member(x: ElementId, len: nat, e: ElementId) -> (j: int)
    requires
        run_ids(x, len).contains(e),
    ensures
        0 <= j < len && run_id(x, j) == e,
{
    let j = choose|j: int| 0 <= j < run_ids(x, len).len() && #[trigger] run_ids(x, len)[j] == e;
    j
}

/// Inserts commute element by element: two inserts of disjoint runs new to
/// the list, applied in either order, leave every element the same: held or
/// not, and when held with the same parent and states, with the same deletes
/// waiting. (What the document then is, [`law_inserts_converge`] states for
/// runs under elements of the document.)
pub proof fn law_inserts_commute_elements<T>(
    l0: List<T>,
    a1: List<T>,
    a2: List<T>,
    b1: List<T>,
    b2: List<T>,
    x: ElementId,
    px: Parent,
    lx: nat,
    y: ElementId,
    py: Parent,
    ly: nat,
    e: ElementId,
)
    requires
        run_applied(l0, a1, x, px, lx),
        run_applied(a1, a2, y, py, ly),
        run_applied(l0, b1, y, py, ly),
        run_applied(b1, b2, x, px, lx),
        forall|d: ElementId| !(run_ids(x, lx).contains(d) && run_ids(y, ly).contains(d)),
    ensures
        same_element(a2, b2, e),
{
    reveal(run_progress);
    let rx = run_ids(x, lx);
    let ry = run_ids(y, ly);
    if rx.contains(e) {
        let j = lemma_run_member(x, lx, e);
        assert(!ry.contains(e));
        assert(!l0.has_id(e));
        assert(a1.has_id(e));
        assert(!b1.has_id(e));
        assert(!b1.has_id(run_id(x, j)));
        assert(b1.pending_deletes().contains(e) == l0.pending_deletes().contains(e));
    } else if ry.contains(e) {
        let j = lemma_run_member(y, ly, e);
        assert(!l0.has_id(e));
        assert(b1.has_id(e));
        assert(!a1.has_id(e));
        assert(!a1.has_id(run_id(y, j)));
        assert(a1.pending_deletes().contains(e) == l0.pending_deletes().contains(e));
    } else if l0.has_id(e) {
        assert(a1.has_id(e) && b1.has_id(e));
    } else {
        assert(!a1.has_id(e) && !b1.has_id(e));
    }
}

/// Moving the prepare state of a single id by one step.
proof fn lemma_single_move(st: spec_fn(ElementId) -> Option<PrepareState>, x: ElementId, advance: bool, insert: bool)
    ensures
        run_moves(st, seq![x], advance, insert).0 is None <==> (st(x) matches Some(s) && step_spec(advance, insert, s) is Some),
        run_moves(st, seq![x], advance, insert).0 is None ==> (run_moves(st, seq![x], advance, insert).1)(x) == step_spec(
            advance,
            insert,
            st(x)->0,
        ) && forall|e: ElementId| e != x ==> #[trigger] (run_moves(st, seq![x], advance, insert).1)(e) == st(e),
{
    reveal_with_fuel(run_moves, 2);
    assert(seq![x].drop_last() =~= Seq::<ElementId>::empty());
    assert(seq![x].last() == x);
    assert(run_moves(st, Seq::<ElementId>::empty(), advance, insert) == (None::<PrepareError>, st));
}

/// Making one node of `s` visible, and nothing else, shows one element more.
proof fn lemma_cnt_one_more<T>(n1: Seq<Node<T>>, n2: Seq<Node<T>>, s: Seq<usize>, v: walker::View, x: usize)
    requires
        s.no_duplicates(),
        s.contains(x),
        !visible(n1[x as int], v),
        visible(n2[x as int], v),
        forall|k: int| 0 <= k < s.len() && s[k] != x ==> visible(n1[#[trigger] s[k] as int], v) == visible(n2[s[k] as int], v),
    ensures
        cnt(n2, s, v) == cnt(n1, s, v) + 1,
    decreases s.len(),
{
    let t = s.drop_last();
    assert(t.no_duplicates()) by {
        assert forall|i: int, j: int| 0 <= i < t.len() && 0 <= j < t.len() && i != j implies t[i] != t[j] by {
            assert(t[i] == s[i] && t[j] == s[j]);
        }
    }
    assert(s[s.len() - 1] == s.last());
    if s.last() == x {
        assert forall|k: int| 0 <= k < t.len() implies visible(n1[#[trigger] t[k] as int], v) == visible(n2[t[k] as int], v)
            && n1[t[k] as int].content == n1[t[k] as int].content by {
            assert(t[k] == s[k]);
            assert(s[k] != s[s.len() - 1]);
        }
        lemma_cnt_visible_frame(n1, n2, t, v);
    } else {
        let k = choose|k: int| 0 <= k < s.len() && s[k] == x;
        assert(t[k] == x);
        assert forall|k2: int| 0 <= k2 < t.len() && t[k2] != x implies visible(n1[#[trigger] t[k2] as int], v) == visible(n2[t[k2] as int], v) by {
            assert(t[k2] == s[k2]);
        }
        lemma_cnt_one_more(n1, n2, t, v, x);
    }
}

/// Counting depends only on what the view shows of each node.
proof fn lemma_cnt_visible_frame<T>(n1: Seq<Node<T>>, n2: Seq<Node<T>>, s: Seq<usize>, v: walker::View)
    requires
        forall|k: int| 0 <= k < s.len() ==> visible(n1[#[trigger] s[k] as int], v) == visible(n2[s[k] as int], v),
    ensures
        cnt(n1, s, v) == cnt(n2, s, v),
    decreases s.len(),
{
    if s.len() > 0 {
        let t = s.drop_last();
        assert forall|k: int| 0 <= k < t.len() implies visible(n1[#[trigger] t[k] as int], v) == visible(n2[t[k] as int], v) by {
            assert(t[k] == s[k]);
        }
        lemma_cnt_visible_frame(n1, n2, t, v);
        assert(s[s.len() - 1] == s.last());
    }
}

/// Two lists that differ only in prepare states, where only the element `x`
/// may differ: the same order and ids, `x` in the same place.
proof fn lemma_one_state_changed<T>(la: List<T>, lb: List<T>, x: ElementId)
    requires
        la.wf(),
        lb.wf(),
        la.same_but_prepare(&lb),
        forall|e: ElementId| e != x ==> #[trigger] lb.prepare_state_of(e) == la.prepare_state_of(e),
    ensures
        lb.in_doc(x) == la.in_doc(x),
        forall|k: int| 0 <= k < la.order().len() && la.nodes@[#[trigger] la.order()[k] as int].id != x ==> visible(
            la.nodes@[la.order()[k] as int],
            walker::View::Prepare,
        ) == visible(lb.nodes@[la.order()[k] as int], walker::View::Prepare),
{
    lemma_order_nodup(la.nodes@, la.spans@, la.root.right_children@);
    assert forall|k: int| 0 <= k < la.order().len() && la.nodes@[#[trigger] la.order()[k] as int].id != x implies visible(
        la.nodes@[la.order()[k] as int],
        walker::View::Prepare,
    ) == visible(lb.nodes@[la.order()[k] as int], walker::View::Prepare) by {
        let y = la.order()[k] as int;
        let e = la.nodes@[y].id;
        la.lemma_index_of(e, y);
        lb.lemma_index_of(e, y);
        assert(lb.prepare_state_of(e) == la.prepare_state_of(e));
    }
    if la.has_id(x) {
        let y = la.index_of(x)->0;
        assert(la.nodes@[y].id == x);
        lb.lemma_index_of(x, y);
    }
    if lb.has_id(x) {
        let y = lb.index_of(x)->0;
        assert(lb.nodes@[y].id == x);
        la.lemma_index_of(x, y);
    }
}

/// One prepare move of the single id `x`, from `la` to `lb`.
proof fn lemma_stack_step<T>(la: List<T>, lb: List<T>, x: ElementId, advance: bool)
    requires
        la.wf(),
        lb.wf(),
        la.same_but_prepare(&lb),
        run_moves(la.prepare_states(), seq![x], advance, false).0 is None,
        lb.states_are(run_moves(la.prepare_states(), seq![x], advance, false).1),
    ensures
        la.prepare_state_of(x) is Some,
        lb.prepare_state_of(x) == step_spec(advance, false, la.prepare_state_of(x)->0),
        forall|e: ElementId| e != x ==> #[trigger] lb.prepare_state_of(e) == la.prepare_state_of(e),
        lb.in_doc(x) == la.in_doc(x),
        lb.order() == la.order(),
{
    lemma_single_move(la.prepare_states(), x, advance, false);
    assert forall|e: ElementId| e != x implies #[trigger] lb.prepare_state_of(e) == la.prepare_state_of(e) by {}
    lemma_one_state_changed(la, lb, x);
}

/// The sizes of the prepare view along two retracts of the one delete of
/// `x` that hid it: the first keeps `x` hidden, the second shows it.
#[verifier::spinoff_prover]
#[verifier::rlimit(100)]
proof fn lemma_stack_sizes<T>(l2: List<T>, l3: List<T>, l4: List<T>, x: ElementId)
    requires
        super::tree_ok(l2.nodes@, l2.spans@),
        super::root_core(l2.nodes@, l2.root.right_children@),
        super::tree_ok(l3.nodes@, l3.spans@),
        super::tree_ok(l4.nodes@, l4.spans@),
        l2.same_but_prepare(&l3),
        l3.same_but_prepare(&l4),
        l2.in_doc(x),
        l2.prepare_state_of(x) == Some(PrepareState::Deleted(2)),
        l3.prepare_state_of(x) == Some(PrepareState::Deleted(1)),
        l4.prepare_state_of(x) == Some(PrepareState::Inserted),
        forall|e: ElementId| e != x ==> #[trigger] l3.prepare_state_of(e) == l2.prepare_state_of(e),
        forall|e: ElementId| e != x ==> #[trigger] l4.prepare_state_of(e) == l3.prepare_state_of(e),
    ensures
        cnt(l3.nodes@, l2.order(), walker::View::Prepare) == cnt(l2.nodes@, l2.order(), walker::View::Prepare),
        cnt(l4.nodes@, l2.order(), walker::View::Prepare) == cnt(l3.nodes@, l2.order(), walker::View::Prepare) + 1,
{
    let p = walker::View::Prepare;
    let o = l2.order();
    lemma_order_nodup(l2.nodes@, l2.spans@, l2.root.right_children@);
    let y = l2.index_of(x)->0;
    assert(0 <= y < l2.nodes@.len() && l2.nodes@[y].id == x);
    assert(l2.nodes@.len() == l2.nodes.len());
    assert(l3.nodes@[y].id == x && l4.nodes@[y].id == x);
    l2.lemma_index_of(x, y);
    l3.lemma_index_of(x, y);
    l4.lemma_index_of(x, y);
    assert(o.contains(y as usize));
    assert forall|k: int| 0 <= k < o.len() implies visible(l2.nodes@[#[trigger] o[k] as int], p) == visible(l3.nodes@[o[k] as int], p) by {
        let z = o[k] as int;
        if z != y {
            lemma_tree_ids(l2.nodes@, l2.spans@, z, y);
            let e = l2.nodes@[z].id;
            assert(l3.nodes@[z].id == e);
            l2.lemma_index_of(e, z);
            l3.lemma_index_of(e, z);
            assert(l3.prepare_state_of(e) == l2.prepare_state_of(e));
        }
    }
    lemma_cnt_visible_frame(l2.nodes@, l3.nodes@, o, p);
    assert forall|k: int| 0 <= k < o.len() && o[k] != y as usize implies visible(l3.nodes@[#[trigger] o[k] as int], p) == visible(l4.nodes@[o[k] as int], p) by {
        let z = o[k] as int;
        lemma_tree_ids(l2.nodes@, l2.spans@, z, y);
        let e = l2.nodes@[z].id;
        assert(l3.nodes@[z].id == e && l4.nodes@[z].id == e);
        l3.lemma_index_of(e, z);
        l4.lemma_index_of(e, z);
        assert(l4.prepare_state_of(e) == l3.prepare_state_of(e));
    }
    lemma_cnt_one_more(l3.nodes@, l4.nodes@, o, p, y as usize);
}

/// Concurrent deletes of one shown element, in the prepare view: two
/// advanced deletes of it (`l0` to `l1` to `l2`) hide it; retracting one
/// (`l3`) keeps it hidden and the view's size unchanged; retracting the
/// other (`l4`) shows it again, one element more; one retract more is refused.
#[verifier::spinoff_prover]
#[verifier::rlimit(100)]
pub proof fn law_stacked_deletes_shown<T>(l0: List<T>, l1: List<T>, l2: List<T>, l3: List<T>, l4: List<T>, x: ElementId)
    requires
        l0.wf(),
        l1.wf(),
        l2.wf(),
        l3.wf(),
        l4.wf(),
        l0.ids_in(walker::View::Prepare).contains(x),
        l0.same_but_prepare(&l1),
        run_moves(l0.prepare_states(), seq![x], true, false).0 is None,
        l1.states_are(run_moves(l0.prepare_states(), seq![x], true, false).1),
        l1.same_but_prepare(&l2),
        run_moves(l1.prepare_states(), seq![x], true, false).0 is None,
        l2.states_are(run_moves(l1.prepare_states(), seq![x], true, false).1),
        l2.same_but_prepare(&l3),
        run_moves(l2.prepare_states(), seq![x], false, false).0 is None,
        l3.states_are(run_moves(l2.prepare_states(), seq![x], false, false).1),
        l3.same_but_prepare(&l4),
        run_moves(l3.prepare_states(), seq![x], false, false).0 is None,
        l4.states_are(run_moves(l3.prepare_states(), seq![x], false, false).1),
    ensures
        !l1.ids_in(walker::View::Prepare).contains(x),
        !l2.ids_in(walker::View::Prepare).contains(x),
        !l3.ids_in(walker::View::Prepare).contains(x),
        l3.len_in(walker::View::Prepare) == l2.len_in(walker::View::Prepare),
        l4.ids_in(walker::View::Prepare).contains(x),
        l4.len_in(walker::View::Prepare) == l3.len_in(walker::View::Prepare) + 1,
        run_moves(l4.prepare_states(), seq![x], false, false).0 is Some,
{
    law_shown(l0, x);
    lemma_stack_step(l0, l1, x, true);
    lemma_stack_step(l1, l2, x, true);
    lemma_stack_step(l2, l3, x, false);
    lemma_stack_step(l3, l4, x, false);
    law_shown(l1, x);
    law_shown(l2, x);
    law_shown(l3, x);
    law_shown(l4, x);
    lemma_single_move(l4.prepare_states(), x, false, false);
    lemma_stack_sizes(l2, l3, l4, x);
    assert(l3.order() == l2.order() && l4.order() == l2.order());
}

} // verus!
