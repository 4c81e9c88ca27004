//! Applying ops: inserting and deleting elements, and advancing or retracting
//! the prepare view.

use vstd::prelude::*;
use crate::crdts::id::ElementId;
use crate::crdts::walker;
use super::{List, Node, Parent, Side, PrepareState, PrepareError, step_spec, tree_ok, root_ok, span_def, left_of, right_of, children_of, waits_for};
use super::insert::inserted_at;
use super::walk::anchor_ok;
use super::tree::{lemma_tree_at, lemma_span_bounded, lemma_order_contains, lemma_order_nodup};
use super::seqs::{flat, lemma_flat_contains};
use super::siblings::{siblings_sorted, lemma_children_in_range, lemma_sorted_push};
use super::graft::grafted;

verus! {

impl<T> List<T> {
    /// Removes `id` from the ids deleted before their element arrived, and
    /// says whether it was there.
    fn take_pending_delete(&mut self, id: &ElementId) -> (found: bool)
        ensures
            found == old(self).pending_delete@.contains(*id),
            forall|e: ElementId| #[trigger] final(self).pending_delete@.contains(e) <==> old(self).pending_delete@.contains(e) && e != *id,
            final(self).nodes == old(self).nodes,
            final(self).root == old(self).root,
            final(self).pending_parent == old(self).pending_parent,
            final(self).spans == old(self).spans,
    {
        let mut kept: Vec<ElementId> = Vec::new();
        let mut found = false;
        let mut k: usize = 0;
        while k < self.pending_delete.len()
            invariant
                k <= self.pending_delete@.len(),
                self.pending_delete == old(self).pending_delete,
                found == self.pending_delete@.take(k as int).contains(*id),
                forall|e: ElementId| #[trigger] kept@.contains(e) <==> self.pending_delete@.take(k as int).contains(e) && e != *id,
            decreases self.pending_delete@.len() - k,
        {
            let e = self.pending_delete[k];
            let ghost before = self.pending_delete@.take(k as int);
            let ghost kept0 = kept@;
            let ghost after = self.pending_delete@.take(k as int + 1);
            proof {
                assert(after == before.push(e));
                assert forall|x: ElementId| after.contains(x) <==> before.contains(x) || x == e by {
                    if after.contains(x) {
                        let w = choose|w: int| 0 <= w < after.len() && after[w] == x;
                        if w < before.len() { assert(before[w] == x); }
                    }
                    if before.contains(x) {
                        let w = choose|w: int| 0 <= w < before.len() && before[w] == x;
                        assert(after[w] == x);
                    }
                    if x == e { assert(after[before.len() as int] == e); }
                }
            }
            if e == *id {
                found = true;
            } else {
                kept.push(e);
                proof {
                    assert forall|x: ElementId| kept@.contains(x) <==> kept0.contains(x) || x == e by {
                        if kept@.contains(x) {
                            let w = choose|w: int| 0 <= w < kept@.len() && kept@[w] == x;
                            if w < kept0.len() { assert(kept0[w] == x); }
                        }
                        if kept0.contains(x) {
                            let w = choose|w: int| 0 <= w < kept0.len() && kept0[w] == x;
                            assert(kept@[w] == x);
                        }
                        if x == e { assert(kept@[kept0.len() as int] == e); }
                    }
                }
            }
            proof {
                assert forall|x: ElementId| #[trigger] kept@.contains(x) <==> after.contains(x) && x != *id by {
                    assert(kept0.contains(x) <==> before.contains(x) && x != *id);
                }
            }
            k += 1;
        }
        proof {
            assert(self.pending_delete@.take(k as int) == self.pending_delete@);
        }
        self.pending_delete = kept;
        found
    }

    /// Inserts the element `id` under `parent`. An id the list already holds
    /// is ignored. Nodes that waited for `id` become its children; if the
    /// parent is missing, or lies below the new element, the new element
    /// waits for it.
    pub(crate) fn insert_one(&mut self, id: ElementId, parent: Parent, content: T)
        requires
            old(self).wf(),
            old(self).nodes@.len() < usize::MAX,
        ensures
            final(self).wf(),
            old(self).has_id(id) ==> *final(self) == *old(self),
            !old(self).has_id(id) ==> {
                let idx = old(self).nodes@.len();
                &&& final(self).nodes@.len() == idx + 1
                &&& final(self).nodes@[idx as int].id == id
                &&& final(self).nodes@[idx as int].parent == parent
                &&& final(self).nodes@[idx as int].content == content
                &&& final(self).nodes@[idx as int].effect_deleted == old(self).pending_delete@.contains(id)
                &&& final(self).nodes@[idx as int].prepare_state == PrepareState::UnInserted
                &&& forall|x: int| 0 <= x < idx ==> {
                    &&& (#[trigger] final(self).nodes@[x]).id == old(self).nodes@[x].id
                    &&& final(self).nodes@[x].parent == old(self).nodes@[x].parent
                    &&& final(self).nodes@[x].content == old(self).nodes@[x].content
                    &&& final(self).nodes@[x].effect_deleted == old(self).nodes@[x].effect_deleted
                    &&& final(self).nodes@[x].prepare_state == old(self).nodes@[x].prepare_state
                }
                &&& forall|e: ElementId| #[trigger] final(self).pending_delete@.contains(e) <==> old(self).pending_delete@.contains(e) && e != id
                &&& old(self).places(parent) ==> exists|q: int, ins: Seq<usize>| #[trigger] inserted_at(final(self).order(), old(self).order(), ins, q)
                    && ins.contains(idx as usize)
                    && (!old(self).is_awaited(id) ==> ins == seq![idx as usize])
                    && (parent matches Parent::Node { id: pid, side: Side::Right } ==> right_of(old(self).nodes@, old(self).index_of(pid)->0).len() == 0
                        ==> anchor_ok(old(self).order(), q, Some((true, old(self).index_of(pid)->0 as usize))))
                    && (parent matches Parent::Node { id: pid, side: Side::Left } ==> left_of(old(self).nodes@, old(self).index_of(pid)->0).len() == 0
                        ==> anchor_ok(old(self).order(), q, Some((false, old(self).index_of(pid)->0 as usize))))
                &&& !old(self).places(parent) ==> final(self).order() == old(self).order()
                &&& !old(self).is_awaited(id) ==> left_of(final(self).nodes@, idx as int).len() == 0 && right_of(final(self).nodes@, idx as int).len() == 0
                &&& forall|e: ElementId| #[trigger] final(self).is_awaited(e) ==> old(self).is_awaited(e) || (waits_for(parent, e)
                    && final(self).nodes@[idx as int].parent_index is None)
                &&& !waits_for(parent, id) ==> !final(self).is_awaited(id)
                &&& old(self).keeps(&*final(self))
            },
            old(self).sorted() ==> final(self).sorted(),
            !old(self).has_id(id) && !old(self).is_awaited(id) && old(self).places(parent) ==> grafted(*old(self), *final(self), parent),
    {
        match self.find(&id) {
            Some(i) => {
                proof { self.lemma_index_of(id, i as int); }
                return;
            }
            None => {
                proof { self.lemma_index_of_none(id); }
            }
        }
        let deleted = self.take_pending_delete(&id);
        let ghost pre = *self;
        let idx = self.push_floating(id, parent, content, deleted);
        proof {
            lemma_tree_at(self.nodes@, self.spans@, idx as int);
            reveal(List::sorted);
            if old(self).sorted() {
                lemma_children_in_range(pre.nodes@, pre.spans@, pre.root.right_children@);
                lemma_sorted_push(pre.nodes@, self.nodes@, self.root.right_children@);
            }
        }
        let ghost pushed = *self;
        let mut k: usize = 0;
        while k < self.pending_parent.len()
            invariant
                self.wf_but(idx as int),
                idx == old(self).nodes@.len(),
                self.nodes@.len() == idx + 1,
                k <= self.pending_parent@.len(),
                self.nodes@[idx as int].id == id,
                self.nodes@[idx as int].parent == parent,
                self.nodes@[idx as int].content == content,
                self.nodes@[idx as int].effect_deleted == old(self).pending_delete@.contains(id),
                self.nodes@[idx as int].prepare_state == PrepareState::UnInserted,
                forall|x: int| 0 <= x < idx ==> {
                    &&& (#[trigger] self.nodes@[x]).id == old(self).nodes@[x].id
                    &&& self.nodes@[x].parent == old(self).nodes@[x].parent
                    &&& self.nodes@[x].content == old(self).nodes@[x].content
                    &&& self.nodes@[x].effect_deleted == old(self).nodes@[x].effect_deleted
                    &&& self.nodes@[x].prepare_state == old(self).nodes@[x].prepare_state
                    &&& (old(self).nodes@[x].parent_index is Some ==> self.nodes@[x].parent_index == old(self).nodes@[x].parent_index)
                    &&& self.nodes@[x].left_children == old(self).nodes@[x].left_children
                    &&& self.nodes@[x].base.right_children == old(self).nodes@[x].base.right_children
                },
                forall|e: ElementId| #[trigger] self.pending_delete@.contains(e) <==> old(self).pending_delete@.contains(e) && e != id,
                self.order() == old(self).order(),
                self.root == old(self).root,
                !old(self).is_awaited(id) ==> self.spans@[idx as int] == seq![idx],
                !old(self).is_awaited(id) ==> self.nodes@[idx as int].left_children@.len() == 0 && self.nodes@[idx as int].base.right_children@.len() == 0,
                forall|v: usize| #[trigger] self.pending_parent@.contains(v) ==> old(self).pending_parent@.contains(v),
                forall|j: int| 0 <= j < k ==> !waits_for(self.nodes@[(#[trigger] self.pending_parent@[j]) as int].parent, id),
                old(self).sorted() ==> siblings_sorted(self.nodes@, self.root.right_children@),
                !old(self).is_awaited(id) ==> self.nodes@ == pushed.nodes@,
            decreases self.pending_parent@.len() - k,
        {
            let c = self.pending_parent[k];
            let waits = match self.nodes[c].parent {
                Parent::Node { id: pid, side } => if pid == id { Some(side) } else { None },
                Parent::Root => None,
            };
            match waits {
                Some(side) => {
                    proof {
                        assert(self.pending_parent@.contains(c));
                        assert(self.pending_parent@.contains((c as int) as usize));
                        assert(c < self.nodes@.len() && c != idx);
                        assert(self.nodes@[c as int].parent_index is None);
                        assert(old(self).nodes@[c as int].parent_index is None);
                        old(self).lemma_awaited(id, c as int);
                    }
                    let ghost pp0 = self.pending_parent@;
                    let ghost nn0 = self.nodes@;
                    self.adopt(idx, k, side);
                    proof {
                        assert forall|j: int| 0 <= j < k implies !waits_for(self.nodes@[(#[trigger] self.pending_parent@[j]) as int].parent, id) by {
                            assert(self.pending_parent@[j] == pp0[j]);
                            assert(!waits_for(nn0[pp0[j] as int].parent, id));
                        }
                        assert forall|v: usize| #[trigger] self.pending_parent@.contains(v) implies pp0.contains(v) by {
                            let w = choose|w: int| 0 <= w < self.pending_parent@.len() && self.pending_parent@[w] == v;
                            if w < k { assert(pp0[w] == v); } else { assert(pp0[w + 1] == v); }
                        }
                    }
                }
                None => {
                    k += 1;
                }
            }
        }
        proof {
            lemma_span_bounded(self.nodes@, self.spans@, idx);
        }
        let ghost mid = *self;
        match parent {
            Parent::Root => {
                self.attach_root(idx);
                proof {
                    if !old(self).is_awaited(id) {
                        assert forall|x: int| 0 <= x < idx implies #[trigger] left_of(self.nodes@, x) == left_of(old(self).nodes@, x)
                            && right_of(self.nodes@, x) == right_of(old(self).nodes@, x) by {
                            assert(mid.nodes@[x] == pre.nodes@[x]);
                        }
                    }
                }
            }
            Parent::Node { id: pid, side } => {
                match self.find(&pid) {
                    Some(p) => {
                        proof {
                            if p < idx {
                                old(self).lemma_index_of(pid, p as int);
                            } else {
                                old(self).lemma_index_of_none(pid);
                            }
                            if self.order().contains(p) {
                                lemma_not_below_floating(self.nodes@, self.spans@, self.root.right_children@, idx, p);
                            }
                        }
                        if self.reaches(p, idx) {
                            proof {
                                if !old(self).is_awaited(id) && p < idx {
                                    assert(self.spans@[idx as int] == seq![idx]);
                                    assert(self.spans@[idx as int].contains(p));
                                    assert(false);
                                }
                            }
                            self.attach_pending(idx);
                        } else {
                            self.attach_under(idx, p, side);
                            proof {
                                if !old(self).is_awaited(id) && p < idx {
                                    assert forall|x: int| 0 <= x < idx && x != p implies #[trigger] left_of(self.nodes@, x) == left_of(old(self).nodes@, x)
                                        && right_of(self.nodes@, x) == right_of(old(self).nodes@, x) by {
                                        assert(mid.nodes@[x] == pre.nodes@[x]);
                                    }
                                    assert(mid.nodes@[p as int] == pre.nodes@[p as int]);
                                    assert(children_of(mid.nodes@, p as int, side) == children_of(old(self).nodes@, p as int, side));
                                    assert(left_of(mid.nodes@, p as int) == left_of(old(self).nodes@, p as int));
                                    assert(right_of(mid.nodes@, p as int) == right_of(old(self).nodes@, p as int));
                                }
                            }
                        }
                    }
                    None => {
                        proof {
                            assert forall|i: int| 0 <= i < old(self).nodes@.len() implies old(self).nodes@[i].id != pid by {
                                assert(self.nodes@[i].id == old(self).nodes@[i].id);
                            }
                            old(self).lemma_index_of_none(pid);
                        }
                        self.attach_pending(idx);
                    }
                }
            }
        }
        proof {
            reveal(List::sorted);
            old(self).lemma_places(parent);
            if !old(self).has_id(id) && !old(self).is_awaited(id) && old(self).places(parent) {
                assert forall|x: int| 0 <= x < idx implies (#[trigger] self.nodes@[x]).parent_index == old(self).nodes@[x].parent_index by {
                    assert(mid.nodes@[x] == pre.nodes@[x]);
                }
                reveal(super::graft::hung);
                reveal(grafted);
                assert(super::graft::hung(*old(self), *self, idx, parent));
                assert(grafted(*old(self), *self, parent));
            }
            assert forall|e: ElementId| #[trigger] self.is_awaited(e) implies old(self).is_awaited(e) || (waits_for(parent, e)
                && self.nodes@[idx as int].parent_index is None) by {
                let i = choose|i: int| 0 <= i < self.nodes@.len() && #[trigger] self.nodes@[i].parent_index is None
                    && (self.nodes@[i].parent matches Parent::Node { id: pid, .. } && pid == e);
                if i != idx as int {
                    assert(self.pending_parent@.contains((i as int) as usize));
                    assert(mid.pending_parent@.contains(i as usize));
                    assert(old(self).pending_parent@.contains((i as int) as usize));
                    old(self).lemma_awaited(e, i);
                }
            }
            if !waits_for(parent, id) && self.is_awaited(id) {
                let i = choose|i: int| 0 <= i < self.nodes@.len() && #[trigger] self.nodes@[i].parent_index is None
                    && (self.nodes@[i].parent matches Parent::Node { id: pid, .. } && pid == id);
                assert(i != idx as int);
                assert(self.pending_parent@.contains((i as int) as usize));
                assert(mid.pending_parent@.contains(i as usize));
                let j = choose|j: int| 0 <= j < mid.pending_parent@.len() && mid.pending_parent@[j] == i as usize;
                assert(!waits_for(mid.nodes@[(mid.pending_parent@[j]) as int].parent, id));
                assert(self.nodes@[i].parent == mid.nodes@[i].parent);
            }
        }
    }
}

impl<T> List<T> {
    /// What inserting the element `id` under `parent` into `before`, giving
    /// `after`, does to the document: an element of it stays in it, the new
    /// element joins it when its parent is in it, and then no new element
    /// waits for anything.
    pub(crate) proof fn lemma_insert_keeps_doc(before: Self, after: Self, id: ElementId, parent: Parent)
        requires
            tree_ok(before.nodes@, before.spans@),
            tree_ok(after.nodes@, after.spans@),
            root_ok(after.nodes@, after.root.right_children@),
            !before.has_id(id),
            after.nodes@.len() == before.nodes@.len() + 1,
            after.nodes@.len() <= usize::MAX,
            after.nodes@[before.nodes@.len() as int].id == id,
            after.nodes@[before.nodes@.len() as int].parent == parent,
            forall|x: int| 0 <= x < before.nodes@.len() ==> (#[trigger] after.nodes@[x]).id == before.nodes@[x].id,
            before.places(parent) ==> exists|q: int, ins: Seq<usize>| #[trigger] inserted_at(after.order(), before.order(), ins, q)
                && ins.contains(before.nodes@.len() as usize),
            !before.places(parent) ==> after.order() == before.order(),
            forall|e: ElementId| #[trigger] after.is_awaited(e) ==> before.is_awaited(e) || (waits_for(parent, e)
                && after.nodes@[before.nodes@.len() as int].parent_index is None),
        ensures
            before.places(parent) ==> after.in_doc(id),
            forall|e: ElementId| before.in_doc(e) ==> #[trigger] after.in_doc(e),
            before.places(parent) ==> forall|e: ElementId| #[trigger] after.is_awaited(e) ==> before.is_awaited(e),
    {
        let idx = before.nodes@.len() as int;
        after.lemma_index_of(id, idx);
        if before.places(parent) {
            let (q, ins) = choose|q: int, ins: Seq<usize>| #[trigger] inserted_at(after.order(), before.order(), ins, q)
                && ins.contains(idx as usize);
            let m = choose|m: int| 0 <= m < ins.len() && ins[m] == idx as usize;
            assert(after.order()[q + m] == idx as usize);
            assert(after.in_doc(id));
            lemma_order_contains(after.nodes@, after.spans@, after.root.right_children@, idx as usize);
            assert forall|e: ElementId| #[trigger] after.is_awaited(e) implies before.is_awaited(e) by {
                if waits_for(parent, e) {
                    assert(parent !is Root);
                }
            }
        }
        assert forall|e: ElementId| before.in_doc(e) implies #[trigger] after.in_doc(e) by {
            let x = before.index_of(e)->0;
            assert(0 <= x < idx && before.nodes@[x].id == e);
            after.lemma_index_of(e, x);
            let r = choose|r: int| 0 <= r < before.order().len() && before.order()[r] == x as usize;
            if before.places(parent) {
                let (q, ins) = choose|q: int, ins: Seq<usize>| #[trigger] inserted_at(after.order(), before.order(), ins, q)
                    && ins.contains(idx as usize);
                if r < q {
                    assert(after.order()[r] == x as usize);
                } else {
                    assert(after.order()[r + ins.len()] == x as usize);
                }
            } else {
                assert(after.order()[r] == x as usize);
            }
        }
    }
}

/// Computes the state a prepare step moves `s` to, if it applies: the step
/// advances or retracts (`advance`) an insert or a delete (`insert`).
fn next_state(advance: bool, insert: bool, s: PrepareState) -> (r: Option<PrepareState>)
    ensures
        r == step_spec(advance, insert, s),
{
    if advance && insert {
        match s {
            PrepareState::UnInserted => Some(PrepareState::Inserted),
            _ => None,
        }
    } else if !advance && insert {
        match s {
            PrepareState::Inserted => Some(PrepareState::UnInserted),
            _ => None,
        }
    } else if advance {
        match s {
            PrepareState::Inserted => Some(PrepareState::Deleted(1)),
            PrepareState::Deleted(n) => if n < usize::MAX { Some(PrepareState::Deleted(n + 1)) } else { None },
            PrepareState::UnInserted => None,
        }
    } else {
        match s {
            PrepareState::Deleted(n) => if n == 1 {
                Some(PrepareState::Inserted)
            } else if n > 1 {
                Some(PrepareState::Deleted(n - 1))
            } else {
                None
            },
            _ => None,
        }
    }
}

impl<T> List<T> {
    /// Whether `id` is among the ids deleted before their element arrived.
    fn is_pending_delete(&self, id: &ElementId) -> (r: bool)
        ensures
            r == self.pending_delete@.contains(*id),
    {
        let mut k: usize = 0;
        while k < self.pending_delete.len()
            invariant
                k <= self.pending_delete@.len(),
                forall|j: int| 0 <= j < k ==> self.pending_delete@[j] != *id,
            decreases self.pending_delete@.len() - k,
        {
            if self.pending_delete[k] == *id {
                return true;
            }
            k += 1;
        }
        false
    }

    /// Deletes the element `id` in the effect view. An id the list does not
    /// hold yet is remembered, and its element will arrive deleted.
    pub(crate) fn delete_one(&mut self, id: ElementId)
        requires
            old(self).wf(),
        ensures
            final(self).wf(),
            final(self).nodes@.len() == old(self).nodes@.len(),
            final(self).order() == old(self).order(),
            forall|x: int| 0 <= x < old(self).nodes@.len() ==> {
                &&& (#[trigger] final(self).nodes@[x]).id == old(self).nodes@[x].id
                &&& final(self).nodes@[x].parent == old(self).nodes@[x].parent
                &&& final(self).nodes@[x].content == old(self).nodes@[x].content
                &&& final(self).nodes@[x].prepare_state == old(self).nodes@[x].prepare_state
                &&& final(self).nodes@[x].effect_deleted == (old(self).nodes@[x].effect_deleted || old(self).nodes@[x].id == id)
            },
            old(self).has_id(id) ==> final(self).pending_delete == old(self).pending_delete,
            !old(self).has_id(id) ==> forall|e: ElementId| #[trigger] final(self).pending_delete@.contains(e)
                <==> old(self).pending_delete@.contains(e) || e == id,
            old(self).sorted() ==> final(self).sorted(),
    {
        match self.find(&id) {
            Some(i) => {
                proof { self.lemma_index_of(id, i as int); }
                if !self.nodes[i].effect_deleted {
                    self.mark_effect_deleted(i);
                    proof {
                        old(self).lemma_sorted_frame(self);
                        assert forall|x: int| 0 <= x < old(self).nodes@.len() && x != i implies old(self).nodes@[x].id != id by {
                            lemma_tree_at(old(self).nodes@, old(self).spans@, x);
                            super::tree::lemma_tree_ids(old(self).nodes@, old(self).spans@, x, i as int);
                        }
                    }
                } else {
                    proof {
                        assert forall|x: int| 0 <= x < old(self).nodes@.len() && x != i implies old(self).nodes@[x].id != id by {
                            lemma_tree_at(old(self).nodes@, old(self).spans@, x);
                            super::tree::lemma_tree_ids(old(self).nodes@, old(self).spans@, x, i as int);
                        }
                    }
                }
            }
            None => {
                proof { self.lemma_index_of_none(id); }
                if !self.is_pending_delete(&id) {
                    self.pending_delete.push(id);
                    proof {
                        let o = old(self).pending_delete@;
                        let f = self.pending_delete@;
                        assert forall|e: ElementId| #[trigger] f.contains(e) <==> o.contains(e) || e == id by {
                            if f.contains(e) {
                                let w = choose|w: int| 0 <= w < f.len() && f[w] == e;
                                if w < o.len() { assert(o[w] == e); }
                            }
                            if o.contains(e) {
                                let w = choose|w: int| 0 <= w < o.len() && o[w] == e;
                                assert(f[w] == e);
                            }
                            if e == id { assert(f[o.len() as int] == id); }
                        }
                    }
                }
                proof { reveal(List::sorted); }
            }
        }
    }

    /// Moves the prepare state of the element `id` by one step: fails with
    /// `NodeNotFound` if the list does not hold it, and with `InvalidState`
    /// if the move does not apply to its state.
    pub(crate) fn prepare_move(&mut self, id: ElementId, advance: bool, insert: bool) -> (r: Result<(), PrepareError>)
        requires
            old(self).wf(),
        ensures
            final(self).wf(),
            match old(self).index_of(id) {
                None => r == Err::<(), PrepareError>(PrepareError::NodeNotFound) && *final(self) == *old(self),
                Some(i) => match step_spec(advance, insert, old(self).nodes@[i].prepare_state) {
                    None => r == Err::<(), PrepareError>(PrepareError::InvalidState) && *final(self) == *old(self),
                    Some(st) => {
                        &&& r is Ok
                        &&& final(self).order() == old(self).order()
                        &&& final(self).pending_delete == old(self).pending_delete
                        &&& final(self).nodes@.len() == old(self).nodes@.len()
                        &&& final(self).nodes@[i].prepare_state == st
                        &&& forall|x: int| 0 <= x < old(self).nodes@.len() ==> {
                            &&& (#[trigger] final(self).nodes@[x]).id == old(self).nodes@[x].id
                            &&& final(self).nodes@[x].parent == old(self).nodes@[x].parent
                            &&& final(self).nodes@[x].content == old(self).nodes@[x].content
                            &&& final(self).nodes@[x].effect_deleted == old(self).nodes@[x].effect_deleted
                            &&& (x != i ==> final(self).nodes@[x].prepare_state == old(self).nodes@[x].prepare_state)
                        }
                    },
                },
            },
            old(self).sorted() ==> final(self).sorted(),
    {
        match self.find(&id) {
            None => {
                proof { self.lemma_index_of_none(id); }
                Err(PrepareError::NodeNotFound)
            }
            Some(i) => {
                proof { self.lemma_index_of(id, i as int); }
                match next_state(advance, insert, self.nodes[i].prepare_state) {
                    None => Err(PrepareError::InvalidState),
                    Some(st) => {
                        self.set_prepare_state(i, st);
                        proof {
                            old(self).lemma_sorted_frame(self);
                        }
                        Ok(())
                    }
                }
            }
        }
    }
}

/// A node of the document order is not below a node that hangs nowhere and
/// is not among the root's children.
proof fn lemma_not_below_floating<T>(n: Seq<Node<T>>, s: Seq<Seq<usize>>, rc: Seq<usize>, idx: usize, p: usize)
    requires
        tree_ok(n, s),
        super::root_core(n, rc),
        idx < n.len(),
        n[idx as int].parent_index is None,
        !rc.contains(idx),
        flat(s, rc).contains(p),
    ensures
        !s[idx as int].contains(p),
{
    lemma_flat_contains(s, rc, p);
    let k = choose|k: int| 0 <= k < rc.len() && #[trigger] s[rc[k] as int].contains(p);
    let r = rc[k];
    if s[idx as int].contains(p) {
        super::tree::lemma_laminar(n, s, r, idx, p);
        if s[r as int].contains(idx) {
            assert(r != idx) by { assert(rc.contains(r)); }
            super::tree::lemma_parent_in_span(n, s, r, idx);
        } else {
            assert(r != idx) by { assert(rc.contains(r)); }
            super::tree::lemma_parent_in_span(n, s, idx, r);
        }
    }
}

} // verus!
