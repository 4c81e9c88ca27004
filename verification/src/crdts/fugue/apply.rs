//! Applying an op to the list, and advancing or retracting the prepare view
//! by an applied op.

use vstd::prelude::*;
use crate::crdts::id::ElementId;
use super::{List, Op, Insert, Parent, Side, EffectError, PrepareOp, PrepareError, PrepareState, Delete, run_moves, run_id, run_ids, run_nodes, run_parent,
    deletes_ids, prepare_op_ids, left_of, right_of, run_progress, run_placed, waiters_placed, waits_for};
use super::walk::anchor_ok;
use super::laws::kept;
use crate::crdts::walker;

use super::graft::{run_grafted, grafted, lemma_run_graft_start, lemma_run_graft_step};

verus! {

/// Once a run of moves has stopped on an error, further ids change nothing.
proof fn lemma_run_moves_stop(st: spec_fn(ElementId) -> Option<PrepareState>, ids: Seq<ElementId>, more: Seq<ElementId>,
    advance: bool, insert: bool)
    requires
        run_moves(st, ids, advance, insert).0 is Some,
    ensures
        run_moves(st, ids + more, advance, insert) == run_moves(st, ids, advance, insert),
    decreases more.len(),
{
    if more.len() == 0 {
        assert(ids + more == ids);
    } else {
        lemma_run_moves_stop(st, ids, more.drop_last(), advance, insert);
        assert((ids + more).drop_last() == ids + more.drop_last());
    }
}

/// The ids of a list of deletes split where the list does.
proof fn lemma_deletes_ids_concat(a: Seq<Delete>, b: Seq<Delete>)
    ensures
        deletes_ids(a + b) == deletes_ids(a) + deletes_ids(b),
    decreases b.len(),
{
    if b.len() == 0 {
        assert(a + b == a);
        assert(deletes_ids(a) + Seq::<ElementId>::empty() == deletes_ids(a));
    } else {
        lemma_deletes_ids_concat(a, b.drop_last());
        assert((a + b).drop_last() == a + b.drop_last());
    }
}

impl<T> List<T> {
    /// Moves the prepare states of the `count` elements of the run that starts
    /// at `id`, stopping at the first that fails; `pre` are the ids moved
    /// before, from the states `st0`.
    fn move_run(&mut self, id: ElementId, count: u64, advance: bool, insert: bool,
        Ghost(st0): Ghost<spec_fn(ElementId) -> Option<PrepareState>>, Ghost(pre): Ghost<Seq<ElementId>>) -> (r: Result<(), PrepareError>)
        requires
            old(self).wf(),
            id.index + count <= u64::MAX,
            run_moves(st0, pre, advance, insert).0 is None,
            old(self).states_are(run_moves(st0, pre, advance, insert).1),
        ensures
            final(self).wf(),
            old(self).same_but_prepare(&*final(self)),
            r == match run_moves(st0, pre + run_ids(id, count as nat), advance, insert).0 {
                None => Ok::<(), PrepareError>(()),
                Some(e) => Err(e),
            },
            final(self).states_are(run_moves(st0, pre + run_ids(id, count as nat), advance, insert).1),
            old(self).sorted() ==> final(self).sorted(),
    {
        let mut k: u64 = 0;
        proof {
            assert(pre + run_ids(id, 0) == pre);
        }
        while k < count
            invariant
                self.wf(),
                old(self).wf(),
                k <= count,
                id.index + count <= u64::MAX,
                old(self).same_but_prepare(&*self),
                old(self).sorted() ==> self.sorted(),
                run_moves(st0, pre + run_ids(id, k as nat), advance, insert).0 is None,
                self.states_are(run_moves(st0, pre + run_ids(id, k as nat), advance, insert).1),
            decreases count - k,
        {
            let e = ElementId { op_id: id.op_id, index: id.index + k };
            let ghost ids = pre + run_ids(id, k as nat);
            let ghost ids1 = pre + run_ids(id, (k + 1) as nat);
            let ghost before = *self;
            proof {
                assert(ids1.drop_last() == ids);
                assert(ids1.last() == e);
            }
            let r = self.prepare_move(e, advance, insert);
            proof {
                let prev = run_moves(st0, ids, advance, insert);
                assert((prev.1)(e) == before.prepare_state_of(e));
                assert(run_moves(st0, ids1, advance, insert) == (match (prev.1)(e) {
                    None => (Some(PrepareError::NodeNotFound), prev.1),
                    Some(s) => match super::step_spec(advance, insert, s) {
                        None => (Some(PrepareError::InvalidState), prev.1),
                        Some(s2) => (None, |x: ElementId| if x == e { Some(s2) } else { (prev.1)(x) }),
                    },
                }));
            }
            match r {
                Err(err) => {
                    proof {
                        assert(run_moves(st0, ids1, advance, insert).0 == Some(err));
                        assert(*self == before);
                        let rest = run_ids(id, count as nat).skip(k + 1);
                        assert(pre + run_ids(id, count as nat) == ids1 + rest);
                        lemma_run_moves_stop(st0, ids1, rest, advance, insert);
                    }
                    return Err(err);
                }
                Ok(()) => {
                    proof {
                        let prev = run_moves(st0, ids, advance, insert);
                        let i = before.index_of(e)->0;
                        let st = super::step_spec(advance, insert, before.nodes@[i].prepare_state)->0;
                        assert(self.nodes@[i].prepare_state == st);
                        assert((prev.1)(e) == Some(before.nodes@[i].prepare_state));
                        let f = run_moves(st0, ids1, advance, insert).1;
                        assert(f == (|x: ElementId| if x == e { Some(st) } else { (prev.1)(x) }));
                        assert forall|x: ElementId| #[trigger] self.prepare_state_of(x) == f(x) by {
                            before.lemma_same_ids(self, x);
                            assert(before.prepare_state_of(x) == (prev.1)(x));
                            if x != e {
                                if self.index_of(x) is Some {
                                    let j = self.index_of(x)->0;
                                    assert(self.nodes@[j].id == x);
                                    assert(j != i);
                                    assert(self.nodes@[j].prepare_state == before.nodes@[j].prepare_state);
                                }
                            } else {
                                assert(self.prepare_state_of(e) == Some(st));
                            }
                        }
                    }
                }
            }
            k += 1;
        }
        Ok(())
    }

    /// Advances the prepare view by the applied op `op`: each id it names is
    /// moved in turn, and the first that is missing or in the wrong state
    /// stops the advance with its error.
    pub fn prepare_advance(&mut self, op: &PrepareOp) -> (r: Result<(), PrepareError>)
        requires
            old(self).wf(),
            match *op {
                PrepareOp::Insert { id, count } => id.index + count <= u64::MAX,
                PrepareOp::Delete(ds) => forall|i: int| 0 <= i < ds@.len() ==> #[trigger] ds@[i].id.index + ds@[i].count <= u64::MAX,
            },
        ensures
            final(self).wf(),
            old(self).same_but_prepare(&*final(self)),
            old(self).ids_fit() ==> final(self).ids_fit(),
            old(self).sorted() ==> final(self).sorted(),
            r == match run_moves(old(self).prepare_states(), prepare_op_ids(*op), true, op is Insert).0 {
                None => Ok::<(), PrepareError>(()),
                Some(e) => Err(e),
            },
            final(self).states_are(run_moves(old(self).prepare_states(), prepare_op_ids(*op), true, op is Insert).1),
    {
        let ghost l0 = *self;
        let r = self.move_op(op, true);
        proof {
            l0.lemma_same_held(*self);
        }
        r
    }

    /// Retracts the advance of the op `op` from the prepare view: each id it
    /// names is moved back in turn, and the first that is missing or in the
    /// wrong state stops the retract with its error.
    pub fn prepare_retract(&mut self, op: &PrepareOp) -> (r: Result<(), PrepareError>)
        requires
            old(self).wf(),
            match *op {
                PrepareOp::Insert { id, count } => id.index + count <= u64::MAX,
                PrepareOp::Delete(ds) => forall|i: int| 0 <= i < ds@.len() ==> #[trigger] ds@[i].id.index + ds@[i].count <= u64::MAX,
            },
        ensures
            final(self).wf(),
            old(self).same_but_prepare(&*final(self)),
            old(self).ids_fit() ==> final(self).ids_fit(),
            old(self).sorted() ==> final(self).sorted(),
            r == match run_moves(old(self).prepare_states(), prepare_op_ids(*op), false, op is Insert).0 {
                None => Ok::<(), PrepareError>(()),
                Some(e) => Err(e),
            },
            final(self).states_are(run_moves(old(self).prepare_states(), prepare_op_ids(*op), false, op is Insert).1),
    {
        let ghost l0 = *self;
        let r = self.move_op(op, false);
        proof {
            l0.lemma_same_held(*self);
        }
        r
    }

    /// Moves the prepare states of the ids `op` names, advancing or retracting.
    fn move_op(&mut self, op: &PrepareOp, advance: bool) -> (r: Result<(), PrepareError>)
        requires
            old(self).wf(),
            match *op {
                PrepareOp::Insert { id, count } => id.index + count <= u64::MAX,
                PrepareOp::Delete(ds) => forall|i: int| 0 <= i < ds@.len() ==> #[trigger] ds@[i].id.index + ds@[i].count <= u64::MAX,
            },
        ensures
            final(self).wf(),
            old(self).same_but_prepare(&*final(self)),
            r == match run_moves(old(self).prepare_states(), prepare_op_ids(*op), advance, op is Insert).0 {
                None => Ok::<(), PrepareError>(()),
                Some(e) => Err(e),
            },
            final(self).states_are(run_moves(old(self).prepare_states(), prepare_op_ids(*op), advance, op is Insert).1),
            old(self).sorted() ==> final(self).sorted(),
    {
        let ghost st0 = old(self).prepare_states();
        proof {
            assert(self.states_are(st0));
        }
        match op {
            PrepareOp::Insert { id, count } => {
                proof {
                    assert(Seq::<ElementId>::empty() + run_ids(*id, *count as nat) == run_ids(*id, *count as nat));
                }
                self.move_run(*id, *count, advance, true, Ghost(st0), Ghost(Seq::empty()))
            }
            PrepareOp::Delete(ds) => {
                let mut i: usize = 0;
                proof {
                    assert(ds@.take(0) == Seq::<Delete>::empty());
                    assert(prepare_op_ids(*op) == deletes_ids(ds@));
                }
                while i < ds.len()
                    invariant
                        self.wf(),
                        i <= ds@.len(),
                        forall|j: int| 0 <= j < ds@.len() ==> #[trigger] ds@[j].id.index + ds@[j].count <= u64::MAX,
                        old(self).same_but_prepare(&*self),
                        old(self).sorted() ==> self.sorted(),
                        st0 == old(self).prepare_states(),
                        prepare_op_ids(*op) == deletes_ids(ds@),
                        !(op is Insert),
                        run_moves(st0, deletes_ids(ds@.take(i as int)), advance, false).0 is None,
                        self.states_are(run_moves(st0, deletes_ids(ds@.take(i as int)), advance, false).1),
                    decreases ds@.len() - i,
                {
                    let d = ds[i];
                    let ghost pre = deletes_ids(ds@.take(i as int));
                    proof {
                        assert(ds@.take(i as int + 1).drop_last() == ds@.take(i as int));
                        assert(ds@.take(i as int + 1).last() == d);
                        assert(deletes_ids(ds@.take(i as int + 1)) == pre + run_ids(d.id, d.count as nat));
                        assert(d.id.index + d.count <= u64::MAX);
                    }
                    let r = self.move_run(d.id, d.count, advance, false, Ghost(st0), Ghost(pre));
                    match r {
                        Err(e) => {
                            proof {
                                let rest = ds@.skip(i as int + 1);
                                assert(ds@ == ds@.take(i as int + 1) + rest);
                                lemma_deletes_ids_concat(ds@.take(i as int + 1), rest);
                                lemma_run_moves_stop(st0, deletes_ids(ds@.take(i as int + 1)), deletes_ids(rest), advance, false);
                                assert(deletes_ids(ds@) == deletes_ids(ds@.take(i as int + 1)) + deletes_ids(rest));
                                assert(prepare_op_ids(*op) == deletes_ids(ds@));
                                assert(run_moves(st0, prepare_op_ids(*op), advance, false) == run_moves(st0, deletes_ids(ds@.take(i as int + 1)), advance, false));
                            }
                            return Err(e);
                        }
                        Ok(()) => {}
                    }
                    i += 1;
                }
                proof {
                    assert(ds@.take(i as int) == ds@);
                }
                Ok(())
            }
        }
    }
}

impl<T> List<T> {
    /// One more element of a run whose ids the list did not hold, under a
    /// parent in the document: it joins the document, nothing waits for it,
    /// and the elements of the run placed before stay so.
    proof fn lemma_run_up_step(before: Self, after: Self, id: ElementId, k: int, len: int, pr: Parent)
        requires
            0 <= k < len,
            id.index + len <= u64::MAX,
            before.places(run_parent(pr, id, k)),
            !before.has_id(run_id(id, k)),
            forall|j: int| 0 <= j < k ==> before.in_doc(#[trigger] run_id(id, j)) && !before.is_awaited(run_id(id, j)),
            after.in_doc(run_id(id, k)),
            forall|e: ElementId| before.in_doc(e) ==> #[trigger] after.in_doc(e),
            forall|e: ElementId| #[trigger] after.is_awaited(e) ==> before.is_awaited(e),
            !waits_for(run_parent(pr, id, k), run_id(id, k)) ==> !after.is_awaited(run_id(id, k)),
        ensures
            after.places(run_parent(pr, id, k + 1)),
            forall|j: int| 0 <= j < k + 1 ==> after.in_doc(#[trigger] run_id(id, j)) && !after.is_awaited(run_id(id, j)),
    {
        let cur = run_id(id, k);
        let par = run_parent(pr, id, k);
        after.lemma_places(Parent::Node { id: cur, side: Side::Right });
        if waits_for(par, cur) {
            before.lemma_places(par);
        }
        assert forall|j: int| 0 <= j < k + 1 implies after.in_doc(#[trigger] run_id(id, j)) && !after.is_awaited(run_id(id, j)) by {
            if j < k {
                assert(before.in_doc(run_id(id, j)));
                assert(!before.is_awaited(run_id(id, j)));
            }
        }
    }
}

impl<T> List<T> {
    /// When nothing waits for the elements of a run and they are in the
    /// document, every element that names one of them as its parent is in the
    /// document too, on its side of that parent.
    proof fn lemma_waiters_placed(&self, id: ElementId, len: int)
        requires
            self.wf(),
            0 <= len,
            forall|j: int| 0 <= j < len ==> self.in_doc(#[trigger] run_id(id, j)) && !self.is_awaited(run_id(id, j)),
        ensures
            waiters_placed(*self, id, len),
    {
        assert forall|c: ElementId| match #[trigger] self.parent_of(c) {
            Some(Parent::Node { id: p, side }) => run_ids(id, len as nat).contains(p) ==> self.in_doc(c)
                && (side == Side::Right ==> self.before(p, c)) && (side == Side::Left ==> self.before(c, p)),
            _ => true,
        } by {
            match self.parent_of(c) {
                Some(Parent::Node { id: p, side }) => {
                    if run_ids(id, len as nat).contains(p) {
                        let j = choose|j: int| 0 <= j < run_ids(id, len as nat).len() && #[trigger] run_ids(id, len as nat)[j] == p;
                        assert(run_id(id, j) == p);
                        assert(self.in_doc(run_id(id, j)));
                        super::laws::law_child_follows_parent(*self, c, p);
                        super::laws::law_child_side(*self, c, p, side);
                    }
                },
                _ => {},
            }
        }
    }
}

impl<T> List<T> {
    /// Lists that differ only in prepare states hold the same ids.
    proof fn lemma_same_held(&self, other: Self)
        requires
            self.wf(),
            other.wf(),
            self.same_but_prepare(&other),
        ensures
            forall|e: ElementId| #[trigger] other.has_id(e) == self.has_id(e),
            self.ids_fit() ==> other.ids_fit(),
    {
        assert forall|e: ElementId| #[trigger] other.has_id(e) == self.has_id(e) by {
            if other.has_id(e) {
                let x = other.index_of(e)->0;
                assert(other.nodes@[x].id == e);
                self.lemma_index_of(e, x);
            }
            if self.has_id(e) {
                let x = self.index_of(e)->0;
                assert(self.nodes@[x].id == e);
                other.lemma_index_of(e, x);
            }
        }
    }
}

impl<T> List<T> {
    /// One more element of a run: inserting `run_id(id, k)` into `before`,
    /// which gives `after`, keeps the progress of the run.
    proof fn lemma_run_step(l0: Self, before: Self, after: Self, id: ElementId, pr: Parent, k: int, len: int)
        requires
            before.wf(),
            after.wf(),
            0 <= k < len,
            id.index + len <= u64::MAX,
            run_progress(l0, before, id, pr, k, len),
            before.has_id(run_id(id, k)) ==> after == before,
            !before.has_id(run_id(id, k)) ==> {
                let idx = before.nodes@.len();
                &&& after.nodes@.len() == idx + 1
                &&& after.nodes@[idx as int].id == run_id(id, k)
                &&& after.nodes@[idx as int].effect_deleted == before.pending_delete@.contains(run_id(id, k))
                &&& after.nodes@[idx as int].prepare_state == PrepareState::UnInserted
                &&& after.nodes@[idx as int].parent == run_parent(pr, id, k)
                &&& before.keeps(&after)
                &&& forall|e: ElementId| #[trigger] after.pending_delete@.contains(e) <==> before.pending_delete@.contains(e)
                    && e != run_id(id, k)
            },
        ensures
            run_progress(l0, after, id, pr, k + 1, len),
    {
        reveal(run_progress);
        let cur = run_id(id, k);
        let r0 = run_ids(id, k as nat);
        let r1 = run_ids(id, (k + 1) as nat);
        assert forall|e: ElementId| #[trigger] r1.contains(e) <==> r0.contains(e) || e == cur by {
            if r1.contains(e) {
                let j = choose|j: int| 0 <= j < k + 1 && #[trigger] r1[j] == e;
                if j < k {
                    assert(r0[j] == e);
                }
            }
            if r0.contains(e) {
                let j = choose|j: int| 0 <= j < k && #[trigger] r0[j] == e;
                assert(r1[j] == e);
            }
            if e == cur {
                assert(r1[k] == e);
            }
        }
        assert(!r0.contains(cur)) by {
            if r0.contains(cur) {
                let j = choose|j: int| 0 <= j < k && #[trigger] r0[j] == cur;
                assert(run_id(id, j).index == run_id(id, k).index);
            }
        }
        assert(before.has_id(cur) == l0.has_id(cur));
        assert(before.pending_deletes().contains(cur) == l0.pending_deletes().contains(cur));
        if !before.has_id(cur) {
            let idx = before.nodes@.len() as int;
            // Every element `before` held stays where it was.
            assert forall|e: ElementId| before.has_id(e) implies after.has_id(e)
                && after.effect_deleted_id(e) == before.effect_deleted_id(e)
                && after.prepare_state_of(e) == before.prepare_state_of(e)
                && after.parent_of(e) == before.parent_of(e) by {
                let x = before.index_of(e)->0;
                assert(before.nodes@[x].id == e);
                before.lemma_index_of(e, x);
                after.lemma_index_of(e, x);
            }
            after.lemma_index_of(cur, idx);
            assert(after.effect_deleted_id(cur) == before.pending_deletes().contains(cur));
            assert forall|j: int| 0 <= j < k + 1 implies after.has_id(#[trigger] run_id(id, j)) by {
                if j < k {
                    assert(before.has_id(run_id(id, j)));
                }
            }
            assert forall|j: int| k + 1 <= j < len implies after.has_id(#[trigger] run_id(id, j)) == l0.has_id(run_id(id, j)) by {
                let e = run_id(id, j);
                assert(e.index != cur.index);
                assert(before.has_id(e) == l0.has_id(e));
                if after.has_id(e) {
                    let y = after.index_of(e)->0;
                    assert(after.nodes@[y].id == e);
                    assert(y != idx);
                    assert(before.nodes@[y].id == e);
                    before.lemma_index_of(e, y);
                }
            }
            assert forall|j: int| 0 <= j < k + 1 && !l0.has_id(#[trigger] run_id(id, j)) implies after.effect_deleted_id(run_id(id, j))
                == l0.pending_deletes().contains(run_id(id, j)) && after.prepare_state_of(run_id(id, j)) == Some(PrepareState::UnInserted)
                && after.parent_of(run_id(id, j)) == Some(run_parent(pr, id, j)) by {
                if j < k {
                    assert(before.has_id(run_id(id, j)));
                }
            }
            assert forall|e: ElementId| #[trigger] after.pending_deletes().contains(e) <==> l0.pending_deletes().contains(e)
                && !(r1.contains(e) && !l0.has_id(e)) by {
                assert(before.pending_deletes().contains(e) <==> l0.pending_deletes().contains(e)
                    && !(r0.contains(e) && !l0.has_id(e)));
            }
            assert forall|e: ElementId| #[trigger] l0.has_id(e) implies after.has_id(e) && after.effect_deleted_id(e) == l0.effect_deleted_id(e)
                && after.prepare_state_of(e) == l0.prepare_state_of(e) by {
                assert(before.has_id(e));
            }
            assert forall|e: ElementId| #[trigger] after.has_id(e) implies l0.has_id(e) || r1.contains(e) by {
                let y = after.index_of(e)->0;
                assert(after.nodes@[y].id == e);
                if y < idx {
                    assert(before.nodes@[y].id == e);
                    before.lemma_index_of(e, y);
                    assert(l0.has_id(e) || r0.contains(e));
                } else {
                    assert(e == cur);
                }
            }
        } else {
            assert forall|j: int| 0 <= j < k + 1 implies after.has_id(#[trigger] run_id(id, j)) by {
                if j < k {
                    assert(before.has_id(run_id(id, j)));
                }
            }
            assert forall|j: int| 0 <= j < k + 1 && !l0.has_id(#[trigger] run_id(id, j)) implies after.effect_deleted_id(run_id(id, j))
                == l0.pending_deletes().contains(run_id(id, j)) && after.prepare_state_of(run_id(id, j)) == Some(PrepareState::UnInserted)
                && after.parent_of(run_id(id, j)) == Some(run_parent(pr, id, j)) by {
            }
            assert forall|e: ElementId| #[trigger] after.pending_deletes().contains(e) <==> l0.pending_deletes().contains(e)
                && !(r1.contains(e) && !l0.has_id(e)) by {
                assert(before.pending_deletes().contains(e) <==> l0.pending_deletes().contains(e)
                    && !(r0.contains(e) && !l0.has_id(e)));
            }
            assert forall|e: ElementId| #[trigger] after.has_id(e) implies l0.has_id(e) || r1.contains(e) by {
                assert(before.has_id(e));
                assert(l0.has_id(e) || r0.contains(e));
            }
        }
    }
}

impl<T> List<T> {
    /// One more element of a fresh run under a parent in the document: the
    /// run stays a block at its place, nothing waits for the rest of it, and
    /// the chain of the run grows by the new element.
    #[verifier::spinoff_prover]
    #[verifier::rlimit(50)]
    proof fn lemma_run_placed_step(l0: Self, before: Self, after: Self, id: ElementId, pr: Parent, k: nat, len: nat, q: int) -> (q2: int)
        requires
            before.wf(),
            l0.wf(),
            k < len,
            id.index + len <= u64::MAX,
            l0.nodes@.len() + len < usize::MAX,
            l0.fresh_run(id, len),
            l0.places(pr),
            before.nodes@.len() == l0.nodes@.len() + k,
            forall|v: int| 0 <= v < l0.order().len() ==> #[trigger] l0.order()[v] < l0.nodes@.len(),
            !before.has_id(run_id(id, k as int)),
            forall|j: int| k <= j < len ==> !before.is_awaited(#[trigger] run_id(id, j)),
            k == 0 ==> before == l0,
            k > 0 ==> placed_run(before.order(), l0.order(), l0.nodes@.len(), k, q) && l0.anchored(pr, q)
                && right_of(before.nodes@, l0.nodes@.len() + k - 1).len() == 0,
            k > 0 ==> before.index_of(run_id(id, k - 1)) == Some(l0.nodes@.len() + k - 1),
            run_grafted(l0, before, pr, k),
            after.nodes@.len() == before.nodes@.len() + 1,
            forall|x: int| 0 <= x < before.nodes@.len() ==> (#[trigger] after.nodes@[x]).id == before.nodes@[x].id,
            after.nodes@[before.nodes@.len() as int].id == run_id(id, k as int),
            ({
                let par = run_parent(pr, id, k as int);
                let cur = run_id(id, k as int);
                let idx = before.nodes@.len();
                &&& before.places(par) ==> exists|q: int, ins: Seq<usize>| #[trigger] super::insert::inserted_at(after.order(), before.order(), ins, q)
                    && ins.contains(idx as usize)
                    && (!before.is_awaited(cur) ==> ins == seq![idx as usize])
                    && (par matches Parent::Node { id: pid, side: Side::Right } ==> right_of(before.nodes@, before.index_of(pid)->0).len() == 0
                        ==> anchor_ok(before.order(), q, Some((true, before.index_of(pid)->0 as usize))))
                    && (par matches Parent::Node { id: pid, side: Side::Left } ==> left_of(before.nodes@, before.index_of(pid)->0).len() == 0
                        ==> anchor_ok(before.order(), q, Some((false, before.index_of(pid)->0 as usize))))
                &&& forall|e: ElementId| #[trigger] after.is_awaited(e) ==> before.is_awaited(e) || (waits_for(par, e)
                    && after.nodes@[idx as int].parent_index is None)
                &&& !before.is_awaited(cur) ==> left_of(after.nodes@, idx as int).len() == 0 && right_of(after.nodes@, idx as int).len() == 0
                &&& !before.has_id(cur) && !before.is_awaited(cur) && before.places(par) ==> grafted(before, after, par)
            }),
        ensures
            forall|j: int| k + 1 <= j < len ==> !after.is_awaited(#[trigger] run_id(id, j)),
            placed_run(after.order(), l0.order(), l0.nodes@.len(), (k + 1) as nat, q2),
            l0.anchored(pr, q2),
            right_of(after.nodes@, (l0.nodes@.len() + k) as int).len() == 0,
            run_grafted(l0, after, pr, (k + 1) as nat),
    {
        let n0 = l0.nodes@.len();
        let o0 = l0.order();
        let idx = n0 + k;
        let cur = run_id(id, k as int);
        let par = run_parent(pr, id, k as int);
        let mut q2 = q;
        assert forall|j: int| k + 1 <= j < len implies !after.is_awaited(#[trigger] run_id(id, j)) by {
            let e = run_id(id, j);
            assert(!before.is_awaited(e));
            if k == 0 {
                if let Parent::Node { id: pid, .. } = pr {
                    before.lemma_places(pr);
                    let p = before.index_of(pid)->0;
                    assert(before.nodes@[p].id == pid);
                    if pid == e {
                        before.lemma_index_of(e, p);
                    }
                }
            }
        }
        before.lemma_places(par);
        super::tree::lemma_order_nodup(before.nodes@, before.spans@, before.root.right_children@);
        if k == 0 {
            assert(before.places(par));
            let (q0, ins) = choose|q0: int, ins: Seq<usize>| #[trigger] super::insert::inserted_at(after.order(), before.order(), ins, q0)
                && ins.contains(idx as usize)
                && (!before.is_awaited(cur) ==> ins == seq![idx as usize])
                && (par matches Parent::Node { id: pid, side: Side::Right } ==> right_of(before.nodes@, before.index_of(pid)->0).len() == 0
                    ==> anchor_ok(before.order(), q0, Some((true, before.index_of(pid)->0 as usize))))
                && (par matches Parent::Node { id: pid, side: Side::Left } ==> left_of(before.nodes@, before.index_of(pid)->0).len() == 0
                    ==> anchor_ok(before.order(), q0, Some((false, before.index_of(pid)->0 as usize))));
            q2 = q0;
            assert(run_nodes(n0, 1) == seq![idx as usize]);
            assert(placed_run(after.order(), o0, n0, 1, q2));
            assert(l0.anchored(pr, q2));
        } else {
            let p = n0 + k - 1;
            let o = before.order();
            assert(o[q + k - 1] == run_nodes(n0, k as nat)[k - 1]);
            assert(o.contains(p as usize));
            assert(before.places(par));
            let (q1, ins1) = choose|q1: int, ins: Seq<usize>| #[trigger] super::insert::inserted_at(after.order(), before.order(), ins, q1)
                && ins.contains(idx as usize)
                && (!before.is_awaited(cur) ==> ins == seq![idx as usize])
                && (par matches Parent::Node { id: pid, side: Side::Right } ==> right_of(before.nodes@, before.index_of(pid)->0).len() == 0
                    ==> anchor_ok(before.order(), q1, Some((true, before.index_of(pid)->0 as usize))));
            assert(o[q1 - 1] == p);
            assert(q1 - 1 == q + k - 1);
            assert(after.order() == o0.take(q) + run_nodes(n0, (k + 1) as nat) + o0.skip(q));
        }
        lemma_run_graft_step(l0, before, after, id, pr, k as nat);
        q2
    }

    /// Applies the op `op` created as the entry `id`. An insert adds its
    /// elements as a run with the ids `id`, `id + 1`, ...: the first under the
    /// insert's parent, each further one as the right child of the one before.
    /// Whatever the list held, it holds every id of the run afterwards; an id
    /// whose delete arrived first is deleted in the effect view and that
    /// waiting delete is consumed (see [`run_progress`]). When the run's ids
    /// are new to the list and its parent is in the document, every element
    /// of the run joins the document and nothing waits for it any longer, so
    /// every element that waited for one of them is placed under it, on its
    /// side (see [`run_placed`] and [`waiters_placed`]). When the run is new
    /// to the list and nothing waits for it, it is placed as a block next to
    /// its anchor.
    /// The run's first element joins the children of its parent (or the
    /// root's) at the place its id gives among them, so every list of
    /// siblings keeps running by increasing id ([`List::sorted`]); when the
    /// run is new, under an element of the document, and nothing waits for
    /// it, the tree grows by exactly that chain ([`run_grafted`]).
    /// A delete deletes, in the effect view, each id it names. The result is
    /// what the prepare view has to advance for the op: for an insert, the
    /// run by its first id and its length, which [`List::prepare_advance`]
    /// takes to move each element of the run.
    pub fn apply_op(&mut self, id: ElementId, op: Op<T>) -> (r: Result<PrepareOp, EffectError>)
        requires
            old(self).wf(),
            match op {
                Op::Insert(ins) => id.index + ins.content@.len() <= u64::MAX
                    && old(self).node_count() + ins.content@.len() < usize::MAX,
                Op::Delete(ds) => forall|i: int| 0 <= i < ds@.len() ==> #[trigger] ds@[i].id.index + ds@[i].count <= u64::MAX,
            },
        ensures
            final(self).wf(),
            old(self).ids_fit() ==> final(self).ids_fit(),
            old(self).sorted() ==> final(self).sorted(),
            match op {
                Op::Insert(ins) => {
                    let n0 = old(self).node_count();
                    let len = ins.content@.len();
                    &&& r == Ok::<PrepareOp, EffectError>(PrepareOp::Insert { id, count: len as u64 })
                    &&& old(self).fresh_run(id, len) ==> old(self).keeps(&*final(self))
                    &&& old(self).fresh_run(id, len) ==> forall|k: int| 0 <= k < len ==> #[trigger] final(self).node_is(n0 + k, run_id(id, k),
                            run_parent(ins.parent, id, k), ins.content@[k], false)
                    &&& old(self).fresh_run(id, len) && old(self).places(ins.parent) && len > 0 ==> exists|q: int| #[trigger] placed_run(final(self).order(), old(self).order(), n0, len, q)
                        && old(self).anchored(ins.parent, q)
                    &&& (len == 0 || (old(self).fresh_run(id, len) && !old(self).places(ins.parent))) ==> final(self).order() == old(self).order()
                    &&& old(self).fresh_run(id, len) && old(self).places(ins.parent) ==> run_grafted(*old(self), *final(self), ins.parent, len)
                    &&& run_progress(*old(self), *final(self), id, ins.parent, len as int, len as int)
                    &&& run_placed(*old(self), *final(self), id, len as int, ins.parent)
                    &&& final(self).node_count() <= n0 + len
                    &&& old(self).places(ins.parent) && (forall|j: int| 0 <= j < len ==> !old(self).has_id(#[trigger] run_id(id, j)))
                        ==> waiters_placed(*final(self), id, len as int)
                    &&& len > 0 && !old(self).has_id(run_id(id, len - 1))
                        && !waits_for(run_parent(ins.parent, id, len - 1), run_id(id, len - 1))
                        ==> !final(self).is_awaited(run_id(id, len - 1))
                },
                Op::Delete(ds) => {
                    &&& r == Ok::<PrepareOp, EffectError>(PrepareOp::Delete(ds))
                    &&& final(self).node_count() == old(self).node_count()
                    &&& final(self).ids_in(walker::View::Effect) == old(self).ids_in(walker::View::Effect).filter(
                        kept(deletes_ids(ds@)),
                    )
                    &&& final(self).len_in(walker::View::Effect) == final(self).ids_in(walker::View::Effect).len()
                    &&& forall|e: ElementId| #[trigger] final(self).has_id(e) == old(self).has_id(e)
                    &&& old(self).with_deleted(&*final(self), deletes_ids(ds@))
                    &&& forall|e: ElementId| #[trigger] final(self).pending_deletes().contains(e)
                        <==> old(self).pending_deletes().contains(e) || (deletes_ids(ds@).contains(e) && !old(self).has_id(e))
                },
            },
    {
        match op {
            Op::Insert(ins) => {
                let len = ins.content.len();
                let ghost pr = ins.parent;
                self.insert_run(id, ins);
                proof {
                    if old(self).places(pr) && (forall|j: int| 0 <= j < len ==> !old(self).has_id(#[trigger] run_id(id, j))) {
                        self.lemma_waiters_placed(id, len as int);
                    }
                    if old(self).ids_fit() {
                        reveal(run_progress);
                        assert forall|e: ElementId| #[trigger] self.has_id(e) implies e.index < u64::MAX by {
                            if !old(self).has_id(e) {
                                assert(run_ids(id, len as nat).contains(e));
                                let j = choose|j: int| 0 <= j < run_ids(id, len as nat).len() && #[trigger] run_ids(id, len as nat)[j] == e;
                                assert(e == run_id(id, j));
                            }
                        }
                    }
                }
                Ok(PrepareOp::Insert { id, count: len as u64 })
            }
            Op::Delete(ds) => {
                let ghost l0 = *self;
                self.delete_all(&ds);
                proof {
                    super::laws::law_delete_effect(l0, *self, deletes_ids(ds@));
                    assert forall|e: ElementId| #[trigger] self.has_id(e) == l0.has_id(e) by {
                        if self.has_id(e) {
                            let x = self.index_of(e)->0;
                            assert(self.nodes@[x].id == e);
                            l0.lemma_index_of(e, x);
                        }
                        if l0.has_id(e) {
                            let x = l0.index_of(e)->0;
                            assert(l0.nodes@[x].id == e);
                            self.lemma_index_of(e, x);
                        }
                    }
                }
                Ok(PrepareOp::Delete(ds))
            }
        }
    }

    /// Inserts the elements of `ins` as a run with the ids `id`, `id + 1`, ...
    #[verifier::spinoff_prover]
    #[verifier::rlimit(100)]
    fn insert_run(&mut self, id: ElementId, ins: Insert<T>)
        requires
            old(self).wf(),
            id.index + ins.content@.len() <= u64::MAX,
            old(self).nodes@.len() + ins.content@.len() < usize::MAX,
        ensures
            final(self).wf(),
            old(self).sorted() ==> final(self).sorted(),
            old(self).fresh_run(id, ins.content@.len()) && old(self).places(ins.parent)
                ==> run_grafted(*old(self), *final(self), ins.parent, ins.content@.len()),
            ({
                let n0 = old(self).nodes@.len();
                let len = ins.content@.len();
                    &&& old(self).fresh_run(id, len) ==> old(self).keeps(&*final(self))
                    &&& old(self).fresh_run(id, len) ==> forall|k: int| 0 <= k < len ==> #[trigger] final(self).node_is(n0 + k, run_id(id, k),
                            run_parent(ins.parent, id, k), ins.content@[k], false)
                    &&& old(self).fresh_run(id, len) && old(self).places(ins.parent) && len > 0 ==> exists|q: int| #[trigger] placed_run(final(self).order(), old(self).order(), n0, len, q)
                        && old(self).anchored(ins.parent, q)
                    &&& (len == 0 || (old(self).fresh_run(id, len) && !old(self).places(ins.parent))) ==> final(self).order() == old(self).order()
                    &&& run_progress(*old(self), *final(self), id, ins.parent, len as int, len as int)
                    &&& run_placed(*old(self), *final(self), id, len as int, ins.parent)
                    &&& final(self).nodes@.len() <= n0 + len
                    &&& len > 0 && !old(self).has_id(run_id(id, len - 1))
                        && !waits_for(run_parent(ins.parent, id, len - 1), run_id(id, len - 1))
                        ==> !final(self).is_awaited(run_id(id, len - 1))
            }),
    {
        let ghost n0 = self.nodes@.len();
        let ghost o0 = self.order();
        let ghost c0 = ins.content@;
        let ghost pr = ins.parent;
        let ghost fresh = old(self).fresh_run(id, c0.len());
        let ghost pl = old(self).places(pr);
        let ghost up = old(self).places(pr) && forall|j: int| 0 <= j < c0.len() ==> !old(self).has_id(#[trigger] run_id(id, j));
        let ghost mut q: int = 0;
        let Insert { parent, right_origin: _, content } = ins;
        let mut content = content;
        let len = content.len();
        let mut par = parent;
        let mut k: usize = 0;
        proof {
            assert(c0.skip(0) == c0);
            assert(run_ids(id, 0) =~= Seq::<ElementId>::empty());
            assert(run_progress(*old(self), *self, id, pr, 0, len as int)) by {
                reveal(run_progress);
            }
            super::tree::lemma_order_nodup(self.nodes@, self.spans@, self.root.right_children@);
            lemma_run_graft_start(*self, pr);
        }
        while k < len
            invariant
                self.wf(),
                old(self).wf(),
                k <= len,
                len == c0.len(),
                content@ == c0.skip(k as int),
                id.index + len <= u64::MAX,
                n0 == old(self).nodes@.len(),
                n0 + len < usize::MAX,
                o0 == old(self).order(),
                fresh == old(self).fresh_run(id, len as nat),
                pl == old(self).places(pr),
                forall|v: int| 0 <= v < o0.len() ==> #[trigger] o0[v] < n0,
                self.nodes@.len() <= n0 + k,
                par == run_parent(pr, id, k as int),
                fresh ==> self.nodes@.len() == n0 + k,
                fresh ==> forall|x: int| 0 <= x < n0 ==> {
                    &&& (#[trigger] self.nodes@[x]).id == old(self).nodes@[x].id
                    &&& self.nodes@[x].parent == old(self).nodes@[x].parent
                    &&& self.nodes@[x].content == old(self).nodes@[x].content
                    &&& self.nodes@[x].effect_deleted == old(self).nodes@[x].effect_deleted
                    &&& self.nodes@[x].prepare_state == old(self).nodes@[x].prepare_state
                },
                fresh ==> forall|j: int| 0 <= j < k ==> #[trigger] self.node_is(n0 + j, run_id(id, j),
                    run_parent(pr, id, j), c0[j], false),
                fresh ==> forall|j: int| k <= j < len ==> !self.has_id(#[trigger] run_id(id, j)) && !self.pending_deletes().contains(run_id(id, j)),
                fresh && pl ==> forall|j: int| k <= j < len ==> !self.is_awaited(#[trigger] run_id(id, j)),
                fresh && pl && k == 0 ==> self.order() == o0,
                fresh && pl && k > 0 ==> placed_run(self.order(), o0, n0, k as nat, q) && old(self).anchored(pr, q)
                    && right_of(self.nodes@, n0 + k - 1).len() == 0,
                fresh && !pl ==> self.order() == o0,
                k == 0 ==> *self == *old(self),
                run_progress(*old(self), *self, id, pr, k as int, len as int),
                up == (old(self).places(pr) && forall|j: int| 0 <= j < len ==> !old(self).has_id(#[trigger] run_id(id, j))),
                up ==> self.places(par) && forall|j: int| 0 <= j < k ==> self.in_doc(#[trigger] run_id(id, j))
                    && !self.is_awaited(run_id(id, j)),
                k > 0 && !old(self).has_id(run_id(id, k - 1)) && !waits_for(run_parent(pr, id, k - 1), run_id(id, k - 1))
                    ==> !self.is_awaited(run_id(id, k - 1)),
                old(self).sorted() ==> self.sorted(),
                fresh && pl ==> run_grafted(*old(self), *self, pr, k as nat),
            decreases len - k,
        {
            let c = content.remove(0);
            let cur = ElementId { op_id: id.op_id, index: id.index + k as u64 };
            let ghost before = *self;
            proof {
                assert(c == c0[k as int]);
                assert(content@ == c0.skip(k as int + 1));
                assert(cur == run_id(id, k as int));
                if fresh && k > 0 {
                    let j = k - 1;
                    let pid = run_id(id, j);
                    assert(self.node_is(n0 + j, pid, run_parent(pr, id, j), c0[j], false));
                    self.lemma_index_of(pid, n0 + j);
                }
            }
            self.insert_one(cur, par, c);
            proof {
                Self::lemma_run_step(*old(self), before, *self, id, pr, k as int, len as int);
                if up {
                    assert(!old(self).has_id(run_id(id, k as int)));
                    assert(before.has_id(cur) == old(self).has_id(run_id(id, k as int))) by { reveal(run_progress); }
                    Self::lemma_insert_keeps_doc(before, *self, cur, par);
                    Self::lemma_run_up_step(before, *self, id, k as int, len as int, pr);
                }
                assert(before.has_id(cur) == old(self).has_id(run_id(id, k as int))) by { reveal(run_progress); }
                if fresh {
                    let idx = n0 + k;
                    assert(!before.has_id(cur));
                    assert(!before.pending_deletes().contains(cur));
                    assert(before.nodes@.len() == idx);
                    assert(self.nodes@.len() == idx + 1);
                    assert forall|j: int| 0 <= j < k + 1 implies #[trigger] self.node_is(n0 + j, run_id(id, j),
                        run_parent(pr, id, j), c0[j], false) by {
                        if j < k {
                            assert(before.node_is(n0 + j, run_id(id, j),
                                run_parent(pr, id, j), c0[j], false));
                        }
                    }
                    assert forall|j: int| k + 1 <= j < len implies !self.has_id(#[trigger] run_id(id, j)) && !self.pending_deletes().contains(run_id(id, j)) by {
                        let e = run_id(id, j);
                        assert(!before.has_id(e));
                        assert forall|i: int| 0 <= i < self.nodes@.len() implies self.nodes@[i].id != e by {
                            if i < idx {
                                if before.nodes@[i].id == e {
                                    before.lemma_index_of(e, i);
                                }
                            } else {
                                assert(self.nodes@[i].id == cur);
                            }
                        }
                        self.lemma_index_of_none(e);
                    }
                    if pl {
                        q = Self::lemma_run_placed_step(*old(self), before, *self, id, pr, k as nat, len as nat, q);
                    } else {
                        if k > 0 {
                            before.lemma_places(par);
                            assert(!before.order().contains((n0 + k - 1) as usize));
                        }
                    }
                }
            }
            par = Parent::Node { id: cur, side: Side::Right };
            k += 1;
        }
        proof {
            if fresh && pl && len > 0 {
                assert(placed_run(self.order(), o0, n0, len as nat, q));
            }
        }
    }

    /// Deletes, in the effect view, the `count` elements of the run that
    /// starts at `id`; `pre` are the ids deleted before.
    fn delete_run(&mut self, id: ElementId, count: u64, Ghost(pre): Ghost<Seq<ElementId>>)
        requires
            old(self).wf(),
            id.index + count <= u64::MAX,
        ensures
            final(self).wf(),
            final(self).order() == old(self).order(),
            final(self).nodes@.len() == old(self).nodes@.len(),
            forall|x: int| 0 <= x < old(self).nodes@.len() ==> {
                &&& (#[trigger] final(self).nodes@[x]).id == old(self).nodes@[x].id
                &&& final(self).nodes@[x].parent == old(self).nodes@[x].parent
                &&& final(self).nodes@[x].content == old(self).nodes@[x].content
                &&& final(self).nodes@[x].prepare_state == old(self).nodes@[x].prepare_state
                &&& final(self).nodes@[x].effect_deleted == (old(self).nodes@[x].effect_deleted || run_ids(id, count as nat).contains(old(self).nodes@[x].id))
            },
            forall|e: ElementId| #[trigger] final(self).pending_deletes().contains(e)
                <==> old(self).pending_deletes().contains(e) || (run_ids(id, count as nat).contains(e) && !old(self).has_id(e)),
            old(self).sorted() ==> final(self).sorted(),
    {
        let mut k: u64 = 0;
        while k < count
            invariant
                self.wf(),
                old(self).wf(),
                k <= count,
                id.index + count <= u64::MAX,
                self.order() == old(self).order(),
                self.nodes@.len() == old(self).nodes@.len(),
                forall|x: int| 0 <= x < old(self).nodes@.len() ==> {
                    &&& (#[trigger] self.nodes@[x]).id == old(self).nodes@[x].id
                    &&& self.nodes@[x].parent == old(self).nodes@[x].parent
                    &&& self.nodes@[x].content == old(self).nodes@[x].content
                    &&& self.nodes@[x].prepare_state == old(self).nodes@[x].prepare_state
                    &&& self.nodes@[x].effect_deleted == (old(self).nodes@[x].effect_deleted || run_ids(id, k as nat).contains(old(self).nodes@[x].id))
                },
                forall|e: ElementId| #[trigger] self.pending_deletes().contains(e)
                    <==> old(self).pending_deletes().contains(e) || (run_ids(id, k as nat).contains(e) && !old(self).has_id(e)),
                old(self).sorted() ==> self.sorted(),
            decreases count - k,
        {
            let e = ElementId { op_id: id.op_id, index: id.index + k };
            let ghost before = *self;
            proof {
                assert(e == run_id(id, k as int));
                let r1 = run_ids(id, (k + 1) as nat);
                let r0 = run_ids(id, k as nat);
                assert forall|y: ElementId| r1.contains(y) <==> r0.contains(y) || y == e by {
                    if r1.contains(y) {
                        let w = choose|w: int| 0 <= w < r1.len() && r1[w] == y;
                        if w < k { assert(r0[w] == y); }
                    }
                    if r0.contains(y) {
                        let w = choose|w: int| 0 <= w < r0.len() && r0[w] == y;
                        assert(r1[w] == y);
                    }
                    if y == e { assert(r1[k as int] == y); }
                }
                before.lemma_same_ids(old(self), e);
            }
            self.delete_one(e);
            proof {
                assert forall|y: ElementId| #[trigger] self.pending_deletes().contains(y)
                    <==> old(self).pending_deletes().contains(y) || (run_ids(id, (k + 1) as nat).contains(y) && !old(self).has_id(y)) by {
                    before.lemma_same_ids(old(self), y);
                    assert(before.pending_deletes().contains(y) <==> old(self).pending_deletes().contains(y) || (run_ids(id, k as nat).contains(y) && !old(self).has_id(y)));
                }
            }
            k += 1;
        }
    }

    /// Deletes, in the effect view, each id the deletes `ds` name.
    fn delete_all(&mut self, ds: &Vec<Delete>)
        requires
            old(self).wf(),
            forall|i: int| 0 <= i < ds@.len() ==> #[trigger] ds@[i].id.index + ds@[i].count <= u64::MAX,
        ensures
            final(self).wf(),
            final(self).order() == old(self).order(),
            final(self).nodes@.len() == old(self).nodes@.len(),
            forall|x: int| 0 <= x < old(self).nodes@.len() ==> {
                &&& (#[trigger] final(self).nodes@[x]).id == old(self).nodes@[x].id
                &&& final(self).nodes@[x].parent == old(self).nodes@[x].parent
                &&& final(self).nodes@[x].content == old(self).nodes@[x].content
                &&& final(self).nodes@[x].prepare_state == old(self).nodes@[x].prepare_state
                &&& final(self).nodes@[x].effect_deleted == (old(self).nodes@[x].effect_deleted || deletes_ids(ds@).contains(old(self).nodes@[x].id))
            },
            forall|e: ElementId| #[trigger] final(self).pending_deletes().contains(e)
                <==> old(self).pending_deletes().contains(e) || (deletes_ids(ds@).contains(e) && !old(self).has_id(e)),
            old(self).sorted() ==> final(self).sorted(),
    {
        let mut i: usize = 0;
        proof {
            assert(ds@.take(0) == Seq::<Delete>::empty());
        }
        while i < ds.len()
            invariant
                self.wf(),
                old(self).wf(),
                i <= ds@.len(),
                forall|j: int| 0 <= j < ds@.len() ==> #[trigger] ds@[j].id.index + ds@[j].count <= u64::MAX,
                self.order() == old(self).order(),
                self.nodes@.len() == old(self).nodes@.len(),
                forall|x: int| 0 <= x < old(self).nodes@.len() ==> {
                    &&& (#[trigger] self.nodes@[x]).id == old(self).nodes@[x].id
                    &&& self.nodes@[x].parent == old(self).nodes@[x].parent
                    &&& self.nodes@[x].content == old(self).nodes@[x].content
                    &&& self.nodes@[x].prepare_state == old(self).nodes@[x].prepare_state
                    &&& self.nodes@[x].effect_deleted == (old(self).nodes@[x].effect_deleted || deletes_ids(ds@.take(i as int)).contains(old(self).nodes@[x].id))
                },
                forall|e: ElementId| #[trigger] self.pending_deletes().contains(e)
                    <==> old(self).pending_deletes().contains(e) || (deletes_ids(ds@.take(i as int)).contains(e) && !old(self).has_id(e)),
                old(self).sorted() ==> self.sorted(),
            decreases ds@.len() - i,
        {
            let d = ds[i];
            let ghost before = *self;
            let ghost pre = deletes_ids(ds@.take(i as int));
            let ghost r = run_ids(d.id, d.count as nat);
            proof {
                assert(ds@.take(i as int + 1).drop_last() == ds@.take(i as int));
                assert(ds@.take(i as int + 1).last() == d);
                assert(deletes_ids(ds@.take(i as int + 1)) == pre + r);
                assert forall|y: ElementId| (pre + r).contains(y) <==> pre.contains(y) || r.contains(y) by {
                    if (pre + r).contains(y) {
                        let w = choose|w: int| 0 <= w < (pre + r).len() && (pre + r)[w] == y;
                        if w < pre.len() { assert(pre[w] == y); } else { assert(r[w - pre.len()] == y); }
                    }
                    if pre.contains(y) {
                        let w = choose|w: int| 0 <= w < pre.len() && pre[w] == y;
                        assert((pre + r)[w] == y);
                    }
                    if r.contains(y) {
                        let w = choose|w: int| 0 <= w < r.len() && r[w] == y;
                        assert((pre + r)[w + pre.len()] == y);
                    }
                }
            }
            self.delete_run(d.id, d.count, Ghost(pre));
            proof {
                assert forall|y: ElementId| #[trigger] self.pending_deletes().contains(y)
                    <==> old(self).pending_deletes().contains(y) || (deletes_ids(ds@.take(i as int + 1)).contains(y) && !old(self).has_id(y)) by {
                    before.lemma_same_ids(old(self), y);
                    assert(before.pending_deletes().contains(y) <==> old(self).pending_deletes().contains(y) || (pre.contains(y) && !old(self).has_id(y)));
                }
            }
            i += 1;
        }
        proof {
            assert(ds@.take(i as int) == ds@);
        }
    }
}

/// `o1` is `o0` with the `len` nodes added from `n0` on placed, in turn, at
/// position `q`.
pub open spec fn placed_run(o1: Seq<usize>, o0: Seq<usize>, n0: nat, len: nat, q: int) -> bool {
    &&& 0 <= q <= o0.len()
    &&& o1 == o0.take(q) + run_nodes(n0, len) + o0.skip(q)
}

} // verus!
