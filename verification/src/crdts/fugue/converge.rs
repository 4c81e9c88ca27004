//! Two runs inserted in either order give the same tree, up to the places
//! of the nodes, and so the same document.

use vstd::prelude::*;
use crate::crdts::id::ElementId;
use crate::crdts::walker;
use super::{List, Parent, Side, run_id, run_ids, run_parent, run_progress, left_of, right_of, children_of};
use super::apply::placed_run;
use super::graft::{run_grafted, targets, lemma_run_members, lemma_run_root_members, lemma_run_chain, lemma_run_hangs, lemma_run_len};
use super::laws::run_inserted;
use super::siblings::{siblings_sorted, children_in_range, node_sorted};
use super::mirror::{lemma_list_mirror, lemma_mirror_docs, mirrors};
use super::seqs::flat;
use super::{tree_ok, root_core, docs};

verus! {

/// After a fresh run, another fresh run disjoint from it is still fresh.
#[verifier::spinoff_prover]
proof fn lemma_fresh_after<T>(l0: List<T>, l: List<T>, x: ElementId, px: Parent, cx: Seq<T>, y: ElementId, ly: nat)
    requires
        run_progress(l0, l, x, px, cx.len() as int, cx.len() as int),
        run_grafted(l0, l, px, cx.len()),
        l0.keeps(&l),
        forall|k: int| 0 <= k < cx.len() ==> #[trigger] l.node_is(l0.node_count() + k, run_id(x, k),
            run_parent(px, x, k), cx[k], false),
        l0.fresh_run(y, ly),
        forall|d: ElementId| !(run_ids(x, cx.len()).contains(d) && run_ids(y, ly).contains(d)),
    ensures
        l.fresh_run(y, ly),
{
    let lx = cx.len();
    let n0 = l0.nodes@.len();
    assert forall|k: int| 0 <= k < ly implies !l.has_id(#[trigger] run_id(y, k))
        && !l.pending_deletes().contains(run_id(y, k)) by {
        let e = run_id(y, k);
        assert(run_ids(y, ly)[k] == e);
        assert(run_ids(y, ly).contains(e));
        lemma_progress_fresh(l0, l, x, px, lx, e);
    }
    assert forall|k: int| 0 <= k < ly implies !l.is_awaited(#[trigger] run_id(y, k)) by {
        lemma_not_awaited_after(l0, l, x, px, cx, run_id(y, k));
    }
}

/// An id that neither the list nor a run holds stays out of the list, with
/// no delete waiting for it.
proof fn lemma_progress_fresh<T>(l0: List<T>, l: List<T>, x: ElementId, px: Parent, lx: nat, e: ElementId)
    requires
        run_progress(l0, l, x, px, lx as int, lx as int),
        !l0.has_id(e),
        !l0.pending_deletes().contains(e),
        !run_ids(x, lx).contains(e),
    ensures
        !l.has_id(e),
        !l.pending_deletes().contains(e),
{
    reveal(run_progress);
}

/// A run leaves waiting for `e` only what waited for it before.
#[verifier::spinoff_prover]
proof fn lemma_not_awaited_after<T>(l0: List<T>, l: List<T>, x: ElementId, px: Parent, cx: Seq<T>, e: ElementId)
    requires
        run_grafted(l0, l, px, cx.len()),
        l0.keeps(&l),
        forall|k: int| 0 <= k < cx.len() ==> #[trigger] l.node_is(l0.node_count() + k, run_id(x, k),
            run_parent(px, x, k), cx[k], false),
        !l0.is_awaited(e),
    ensures
        !l.is_awaited(e),
{
    let n0 = l0.nodes@.len();
    lemma_run_len(l0, l, px, cx.len());
    if l.is_awaited(e) {
        let i = choose|i: int| 0 <= i < l.nodes@.len() && #[trigger] l.nodes@[i].parent_index is None
            && (l.nodes@[i].parent matches Parent::Node { id: pid, .. } && pid == e);
        lemma_run_hangs(l0, l, px, cx.len(), i);
        if i < n0 {
            assert(l.nodes@[i].parent == l0.nodes@[i].parent);
            l0.lemma_awaited(e, i);
        } else {
            assert(l.node_is(l0.node_count() + (i - n0), run_id(x, i - n0), run_parent(px, x, i - n0), cx[i - n0], false));
            assert(i == n0);
            assert(l.nodes@[i].parent == px);
        }
    }
}

/// After a run, an element the list placed is still placed, where it was.
#[verifier::spinoff_prover]
proof fn lemma_placed_after<T>(l0: List<T>, l: List<T>, lx: nat, q: int, id: ElementId)
    requires
        super::tree_ok(l0.nodes@, l0.spans@),
        super::tree_ok(l.nodes@, l.spans@),
        l0.keeps(&l),
        lx > 0 ==> placed_run(l.order(), l0.order(), l0.nodes@.len(), lx, q),
        lx == 0 ==> l.order() == l0.order(),
        l0.index_of(id) matches Some(p) && l0.order().contains(p as usize),
    ensures
        l.index_of(id) == l0.index_of(id),
        l.order().contains(l0.index_of(id)->0 as usize),
{
    let p = l0.index_of(id)->0;
    assert(l0.nodes@[p].id == id);
    assert(l.nodes@[p].id == id);
    l.lemma_index_of(id, p);
    let o0 = l0.order();
    let m = choose|m: int| 0 <= m < o0.len() && o0[m] == p as usize;
    if lx > 0 {
        if m < q {
            assert(l.order()[m] == p as usize);
        } else {
            assert(l.order()[m + lx] == p as usize);
        }
    }
}

/// After a fresh run under a placed parent, another fresh run disjoint from
/// it is still fresh, and a parent the list placed is still placed, where
/// it was.
pub(crate) proof fn lemma_still_fresh<T>(l0: List<T>, l: List<T>, x: ElementId, px: Parent, cx: Seq<T>,
    y: ElementId, py: Parent, ly: nat)
    requires
        l0.wf(),
        run_inserted(l0, l, x, px, cx),
        l0.fresh_run(x, cx.len()),
        l0.places(px),
        l0.fresh_run(y, ly),
        l0.places(py),
        forall|d: ElementId| !(run_ids(x, cx.len()).contains(d) && run_ids(y, ly).contains(d)),
    ensures
        l.fresh_run(y, ly),
        l.places(py),
        run_grafted(l0, l, px, cx.len()),
        l0.keeps(&l),
        py matches Parent::Node { id, .. } ==> l.index_of(id) == l0.index_of(id),
{
    lemma_fresh_after(l0, l, x, px, cx, y, ly);
    l0.lemma_places(py);
    l.lemma_places(py);
    if let Parent::Node { id, .. } = py {
        let q = if cx.len() > 0 { choose|q: int| #[trigger] placed_run(l.order(), l0.order(), l0.node_count(), cx.len(), q) } else { 0 };
        lemma_placed_after(l0, l, cx.len(), q, id);
    }
}


/// The place, after runs of `lx` and then `ly` elements were added to `n0`
/// nodes, that node `i` has when they are added the other way round.
pub(crate) open spec fn swap_runs(n0: nat, lx: nat, ly: nat) -> spec_fn(usize) -> usize {
    |i: usize| if i < n0 { i } else if i < n0 + lx { (i + ly) as usize } else { (i - lx) as usize }
}

/// The facts the two orders of two runs share, for the lemmas below.
pub(crate) open spec fn two_orders<T>(l0: List<T>, a1: List<T>, a2: List<T>, b1: List<T>, b2: List<T>,
    x: ElementId, px: Parent, cx: Seq<T>, y: ElementId, py: Parent, cy: Seq<T>) -> bool {
    let n0 = l0.nodes@.len();
    &&& run_grafted(l0, a1, px, cx.len())
    &&& run_grafted(a1, a2, py, cy.len())
    &&& run_grafted(l0, b1, py, cy.len())
    &&& run_grafted(b1, b2, px, cx.len())
    &&& l0.keeps(&a1) && a1.keeps(&a2) && l0.keeps(&b1) && b1.keeps(&b2)
    &&& forall|k: int| 0 <= k < cx.len() ==> #[trigger] a1.node_is(l0.node_count() + k, run_id(x, k), run_parent(px, x, k), cx[k], false)
    &&& forall|k: int| 0 <= k < cy.len() ==> #[trigger] a2.node_is(a1.node_count() + k, run_id(y, k), run_parent(py, y, k), cy[k], false)
    &&& forall|k: int| 0 <= k < cy.len() ==> #[trigger] b1.node_is(l0.node_count() + k, run_id(y, k), run_parent(py, y, k), cy[k], false)
    &&& forall|k: int| 0 <= k < cx.len() ==> #[trigger] b2.node_is(b1.node_count() + k, run_id(x, k), run_parent(px, x, k), cx[k], false)
    &&& py matches Parent::Node { id, .. } ==> a1.index_of(id) == l0.index_of(id)
    &&& px matches Parent::Node { id, .. } ==> b1.index_of(id) == l0.index_of(id)
    &&& px matches Parent::Node { id, .. } ==> l0.index_of(id) is Some
    &&& py matches Parent::Node { id, .. } ==> l0.index_of(id) is Some
    &&& children_in_range(l0.nodes@, l0.root.right_children@)
    &&& siblings_sorted(a2.nodes@, a2.root.right_children@)
    &&& siblings_sorted(b2.nodes@, b2.root.right_children@)
}

/// Each node of one order has its id, content and states at its place in
/// the other order.
#[verifier::spinoff_prover]
pub(crate) proof fn lemma_swap_nodes<T>(l0: List<T>, a1: List<T>, a2: List<T>, b1: List<T>, b2: List<T>,
    x: ElementId, px: Parent, cx: Seq<T>, y: ElementId, py: Parent, cy: Seq<T>, z: int)
    requires
        two_orders(l0, a1, a2, b1, b2, x, px, cx, y, py, cy),
        0 <= z < l0.nodes@.len() + cx.len() + cy.len(),
    ensures
        ({
            let f = swap_runs(l0.nodes@.len(), cx.len(), cy.len());
            &&& a2.nodes@.len() == l0.nodes@.len() + cx.len() + cy.len()
            &&& b2.nodes@.len() == a2.nodes@.len()
            &&& 0 <= f(z as usize) < b2.nodes@.len()
            &&& b2.nodes@[f(z as usize) as int].id == a2.nodes@[z].id
            &&& b2.nodes@[f(z as usize) as int].content == a2.nodes@[z].content
            &&& b2.nodes@[f(z as usize) as int].effect_deleted == a2.nodes@[z].effect_deleted
            &&& b2.nodes@[f(z as usize) as int].prepare_state == a2.nodes@[z].prepare_state
        }),
{
    let n0 = l0.nodes@.len();
    let lx = cx.len();
    let ly = cy.len();
    lemma_run_len(l0, a1, px, lx);
    lemma_run_len(a1, a2, py, ly);
    lemma_run_len(l0, b1, py, ly);
    lemma_run_len(b1, b2, px, lx);
    let f = swap_runs(n0, lx, ly);
    if z < n0 {
        assert(a2.nodes@[z].id == a1.nodes@[z].id);
        assert(b2.nodes@[z].id == b1.nodes@[z].id);
    } else if z < n0 + lx {
        let k = z - n0;
        assert(a1.node_is(l0.node_count() + k, run_id(x, k), run_parent(px, x, k), cx[k], false));
        assert(b2.node_is(b1.node_count() + k, run_id(x, k), run_parent(px, x, k), cx[k], false));
        assert(a2.nodes@[z].id == a1.nodes@[z].id);
        assert(f(z as usize) == z + ly);
    } else {
        let k = z - n0 - lx;
        assert(a2.node_is(a1.node_count() + k, run_id(y, k), run_parent(py, y, k), cy[k], false));
        assert(b1.node_is(l0.node_count() + k, run_id(y, k), run_parent(py, y, k), cy[k], false));
        assert(b2.nodes@[n0 + k].id == b1.nodes@[n0 + k].id);
        assert(f(z as usize) == n0 + k);
    }
}

/// The children of a node of one order, renamed, are the children of its
/// place in the other order.
#[verifier::spinoff_prover]
#[verifier::rlimit(50)]
pub(crate) proof fn lemma_swap_children<T>(l0: List<T>, a1: List<T>, a2: List<T>, b1: List<T>, b2: List<T>,
    x: ElementId, px: Parent, cx: Seq<T>, y: ElementId, py: Parent, cy: Seq<T>, i: int, side: Side)
    requires
        two_orders(l0, a1, a2, b1, b2, x, px, cx, y, py, cy),
        0 <= i < l0.nodes@.len() + cx.len() + cy.len(),
    ensures
        children_of(b2.nodes@, swap_runs(l0.nodes@.len(), cx.len(), cy.len())(i as usize) as int, side)
            == children_of(a2.nodes@, i, side).map_values(swap_runs(l0.nodes@.len(), cx.len(), cy.len())),
{
    let n0 = l0.nodes@.len();
    let lx = cx.len();
    let ly = cy.len();
    let nn = n0 + lx + ly;
    let f = swap_runs(n0, lx, ly);
    lemma_run_len(l0, a1, px, lx);
    lemma_run_len(a1, a2, py, ly);
    lemma_run_len(l0, b1, py, ly);
    lemma_run_len(b1, b2, px, lx);
    let sa = children_of(a2.nodes@, i, side);
    if i < n0 {
        let s0 = children_of(l0.nodes@, i, side);
        let sb = children_of(b2.nodes@, i, side);
        let ca = lx > 0 && targets(l0, px, i, side);
        let cg = ly > 0 && targets(l0, py, i, side);
        assert(targets(a1, py, i, side) == targets(l0, py, i, side));
        assert(targets(b1, px, i, side) == targets(l0, px, i, side));
        assert forall|z: usize| sa.contains(z) <==> s0.contains(z) || (ca && z == n0) || (cg && z == n0 + lx) by {
            lemma_run_members(l0, a1, px, lx, i, side, z);
            lemma_run_members(a1, a2, py, ly, i, side, z);
        }
        assert forall|z: usize| sb.contains(z) <==> s0.contains(z) || (ca && z == n0 + ly) || (cg && z == n0) by {
            lemma_run_members(l0, b1, py, ly, i, side, z);
            lemma_run_members(b1, b2, px, lx, i, side, z);
        }
        assert forall|z: usize| #[trigger] s0.contains(z) implies f(z) == z by {
            let k = choose|k: int| 0 <= k < s0.len() && s0[k] == z;
            match side {
                Side::Left => assert(left_of(l0.nodes@, i)[k] < n0),
                Side::Right => assert(right_of(l0.nodes@, i)[k] < n0),
            }
        }
        assert forall|k: int| 0 <= k < sa.len() implies b2.nodes@[f(#[trigger] sa[k]) as int].id == a2.nodes@[sa[k] as int].id by {
            assert(sa.contains(sa[k]));
            if s0.contains(sa[k]) {
                let m = choose|m: int| 0 <= m < s0.len() && s0[m] == sa[k];
                match side {
                    Side::Left => assert(left_of(l0.nodes@, i)[m] < n0),
                    Side::Right => assert(right_of(l0.nodes@, i)[m] < n0),
                }
            }
            lemma_swap_nodes(l0, a1, a2, b1, b2, x, px, cx, y, py, cy, sa[k] as int);
        }
        assert(node_sorted(a2.nodes@, i));
        assert(node_sorted(b2.nodes@, i));
        assert(f(i as usize) == i);
        lemma_list_mirror(a2.nodes@, b2.nodes@, s0, sa, sb, f, ca, n0 as usize, (n0 + ly) as usize, cg, (n0 + lx) as usize, n0 as usize);
    } else if i < n0 + lx {
        lemma_run_members(a1, a2, py, ly, i, side, 0);
        lemma_run_chain(l0, a1, px, lx, i);
        lemma_run_chain(b1, b2, px, lx, i + ly);
        assert(f(i as usize) == i + ly);
        if i + 1 < n0 + lx {
            assert(f((i + 1) as usize) == i + 1 + ly);
            assert(seq![(i + 1) as usize].map_values(f) =~= seq![(i + 1 + ly) as usize]);
        }
        assert(Seq::<usize>::empty().map_values(f) =~= Seq::<usize>::empty());
    } else {
        lemma_run_members(b1, b2, px, lx, i - lx, side, 0);
        lemma_run_chain(a1, a2, py, ly, i);
        lemma_run_chain(l0, b1, py, ly, i - lx);
        assert(f(i as usize) == i - lx);
        if i + 1 < nn {
            assert(f((i + 1) as usize) == i + 1 - lx);
            assert(seq![(i + 1) as usize].map_values(f) =~= seq![(i + 1 - lx) as usize]);
        }
        assert(Seq::<usize>::empty().map_values(f) =~= Seq::<usize>::empty());
    }
}

/// The root's children of one order, renamed, are those of the other.
#[verifier::spinoff_prover]
pub(crate) proof fn lemma_swap_root<T>(l0: List<T>, a1: List<T>, a2: List<T>, b1: List<T>, b2: List<T>,
    x: ElementId, px: Parent, cx: Seq<T>, y: ElementId, py: Parent, cy: Seq<T>)
    requires
        two_orders(l0, a1, a2, b1, b2, x, px, cx, y, py, cy),
    ensures
        b2.root.right_children@ == a2.root.right_children@.map_values(swap_runs(l0.nodes@.len(), cx.len(), cy.len())),
{
    let n0 = l0.nodes@.len();
    let lx = cx.len();
    let ly = cy.len();
    let f = swap_runs(n0, lx, ly);
    lemma_run_len(l0, a1, px, lx);
    lemma_run_len(a1, a2, py, ly);
    lemma_run_len(l0, b1, py, ly);
    lemma_run_len(b1, b2, px, lx);
    let s0 = l0.root.right_children@;
    let sa = a2.root.right_children@;
    let sb = b2.root.right_children@;
    let ca = lx > 0 && px == Parent::Root;
    let cg = ly > 0 && py == Parent::Root;
    assert forall|z: usize| sa.contains(z) <==> s0.contains(z) || (ca && z == n0) || (cg && z == n0 + lx) by {
        lemma_run_root_members(l0, a1, px, lx, z);
        lemma_run_root_members(a1, a2, py, ly, z);
    }
    assert forall|z: usize| sb.contains(z) <==> s0.contains(z) || (ca && z == n0 + ly) || (cg && z == n0) by {
        lemma_run_root_members(l0, b1, py, ly, z);
        lemma_run_root_members(b1, b2, px, lx, z);
    }
    assert forall|z: usize| #[trigger] s0.contains(z) implies f(z) == z by {
        let k = choose|k: int| 0 <= k < s0.len() && s0[k] == z;
        assert(s0[k] < n0);
    }
    assert forall|k: int| 0 <= k < sa.len() implies b2.nodes@[f(#[trigger] sa[k]) as int].id == a2.nodes@[sa[k] as int].id by {
        assert(sa.contains(sa[k]));
        if s0.contains(sa[k]) {
            let m = choose|m: int| 0 <= m < s0.len() && s0[m] == sa[k];
            assert(s0[m] < n0);
        }
        lemma_swap_nodes(l0, a1, a2, b1, b2, x, px, cx, y, py, cy, sa[k] as int);
    }
    lemma_list_mirror(a2.nodes@, b2.nodes@, s0, sa, sb, f, ca, n0 as usize, (n0 + ly) as usize, cg, (n0 + lx) as usize, n0 as usize);
}

/// The two orders spell the same document in every view.
#[verifier::spinoff_prover]
pub(crate) proof fn lemma_swap_docs<T>(l0: List<T>, a1: List<T>, a2: List<T>, b1: List<T>, b2: List<T>,
    x: ElementId, px: Parent, cx: Seq<T>, y: ElementId, py: Parent, cy: Seq<T>)
    requires
        two_orders(l0, a1, a2, b1, b2, x, px, cx, y, py, cy),
        tree_ok(a2.nodes@, a2.spans@),
        tree_ok(b2.nodes@, b2.spans@),
        root_core(a2.nodes@, a2.root.right_children@),
    ensures
        forall|v: walker::View| docs(b2.nodes@, flat(b2.spans@, b2.root.right_children@), v)
            == docs(a2.nodes@, flat(a2.spans@, a2.root.right_children@), v),
{
    let n0 = l0.nodes@.len();
    let f = swap_runs(n0, cx.len(), cy.len());
    lemma_run_len(l0, a1, px, cx.len());
    lemma_run_len(a1, a2, py, cy.len());
    lemma_run_len(l0, b1, py, cy.len());
    lemma_run_len(b1, b2, px, cx.len());
    assert forall|z: int| 0 <= z < a2.nodes@.len() implies {
        &&& #[trigger] f(z as usize) < b2.nodes@.len()
        &&& b2.nodes@[f(z as usize) as int].content == a2.nodes@[z].content
        &&& b2.nodes@[f(z as usize) as int].effect_deleted == a2.nodes@[z].effect_deleted
        &&& b2.nodes@[f(z as usize) as int].prepare_state == a2.nodes@[z].prepare_state
        &&& left_of(b2.nodes@, f(z as usize) as int) == left_of(a2.nodes@, z).map_values(f)
        &&& right_of(b2.nodes@, f(z as usize) as int) == right_of(a2.nodes@, z).map_values(f)
    } by {
        lemma_swap_nodes(l0, a1, a2, b1, b2, x, px, cx, y, py, cy, z);
        lemma_swap_children(l0, a1, a2, b1, b2, x, px, cx, y, py, cy, z, Side::Left);
        lemma_swap_children(l0, a1, a2, b1, b2, x, px, cx, y, py, cy, z, Side::Right);
    }
    assert(mirrors(a2.nodes@, b2.nodes@, f));
    lemma_swap_root(l0, a1, a2, b1, b2, x, px, cx, y, py, cy);
    lemma_mirror_docs(a2.nodes@, a2.spans@, a2.root.right_children@, b2.nodes@, b2.spans@, b2.root.right_children@, f);
}

} // verus!
