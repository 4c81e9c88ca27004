//! Changing the effect or prepare state of one node, keeping the subtree sizes
//! of its ancestors current.

use vstd::prelude::*;
use crate::crdts::walker;
use super::{List, Node, NodeBase, PrepareState, visible, cnt, tree_ok, root_ok, pending_ok, sizes_ok};
use super::seqs::flat;
use super::tree::{lemma_tree_at, lemma_order_nodup, lemma_span_bounded, lemma_span_nodup, lemma_shape_frame, shape_eq};
use super::counts::{lemma_cnt_bounds, lemma_cnt_frame, lemma_cnt_flip};

verus! {

/// `n1` is `n0` with at most the states and sizes of node `i` changed.
pub(crate) open spec fn same_but_states<T>(n0: Seq<Node<T>>, n1: Seq<Node<T>>, i: int) -> bool {
    &&& shape_eq(n0, n1)
    &&& forall|x: int| 0 <= x < n0.len() ==> (#[trigger] n1[x]).content == n0[x].content
    &&& forall|x: int| 0 <= x < n0.len() && x != i ==> #[trigger] n1[x] == n0[x]
}

/// The sizes before a visibility change of node `i` in view `v` meet what
/// `adjust_ancestors` asks once node `i`'s own size is adjusted.
proof fn lemma_flip_pre<T>(n0: Seq<Node<T>>, n1: Seq<Node<T>>, spans: Seq<Seq<usize>>, rc: Seq<usize>, root: NodeBase,
    i: usize, v: walker::View, up: bool)
    requires
        tree_ok(n0, spans),
        root_ok(n0, rc),
        sizes_ok(n0, spans),
        root.effect_size == cnt(n0, flat(spans, rc), walker::View::Effect),
        root.prepare_size == cnt(n0, flat(spans, rc), walker::View::Prepare),
        i < n0.len(),
        n0.len() <= usize::MAX,
        same_but_states(n0, n1, i as int),
        visible(n1[i as int], v) == up,
        visible(n0[i as int], v) == !up,
        ({
            let w = if v == walker::View::Effect { walker::View::Prepare } else { walker::View::Effect };
            &&& visible(n1[i as int], w) == visible(n0[i as int], w)
            &&& n1[i as int].base.size_in(w) == n0[i as int].base.size_in(w)
        }),
        n1[i as int].base.size_in(v) as int == n0[i as int].base.size_in(v) as int + if up { 1int } else { -1int },
        n1[i as int].prepare_state matches PrepareState::Deleted(c) ==> c >= 1,
    ensures
        forall|x: int| 0 <= x < n1.len() ==> {
            &&& (#[trigger] n1[x]).base.size_in(v) as int == cnt(n1, spans[x], v)
                + if x != i && spans[x].contains(i) { if up { -1int } else { 1int } } else { 0int }
            &&& n1[x].prepare_state matches PrepareState::Deleted(c) ==> c >= 1
        },
        forall|x: int| 0 <= x < n1.len() ==> {
            let w = if v == walker::View::Effect { walker::View::Prepare } else { walker::View::Effect };
            (#[trigger] n1[x]).base.size_in(w) == cnt(n1, spans[x], w)
        },
        root.size_in(v) as int == cnt(n1, flat(spans, rc), v)
            + if flat(spans, rc).contains(i) { if up { -1int } else { 1int } } else { 0int },
        ({
            let w = if v == walker::View::Effect { walker::View::Prepare } else { walker::View::Effect };
            root.size_in(w) == cnt(n1, flat(spans, rc), w)
        }),
{
    let w = if v == walker::View::Effect { walker::View::Prepare } else { walker::View::Effect };
    assert forall|x: int| 0 <= x < n1.len() implies {
        &&& (#[trigger] n1[x]).base.size_in(v) as int == cnt(n1, spans[x], v)
            + if x != i && spans[x].contains(i) { if up { -1int } else { 1int } } else { 0int }
        &&& n1[x].prepare_state matches PrepareState::Deleted(c) ==> c >= 1
        &&& n1[x].base.size_in(w) == cnt(n1, spans[x], w)
    } by {
        lemma_span_nodup(n0, spans, x as usize);
        lemma_tree_at(n0, spans, x);
        lemma_span_bounded(n0, spans, i);
        assert(n0[x].base.effect_size == cnt(n0, spans[x], walker::View::Effect));
        lemma_cnt_flip(n0, n1, spans[x], v, i);
        assert forall|k: int| 0 <= k < spans[x].len() implies visible(n0[spans[x][k] as int], w) == visible(n1[spans[x][k] as int], w)
            && n0[spans[x][k] as int].content == n1[spans[x][k] as int].content by {
        }
        lemma_cnt_frame(n0, n1, spans[x], w);
    }
    lemma_order_nodup(n0, spans, rc);
    let o = flat(spans, rc);
    lemma_cnt_flip(n0, n1, o, v, i);
    assert forall|k: int| 0 <= k < o.len() implies visible(n0[o[k] as int], w) == visible(n1[o[k] as int], w)
        && n0[o[k] as int].content == n1[o[k] as int].content by {
    }
    lemma_cnt_frame(n0, n1, o, w);
}

/// After a change of node `i` that leaves every visibility as it was, the
/// sizes are still current.
proof fn lemma_same_vis<T>(n0: Seq<Node<T>>, n1: Seq<Node<T>>, spans: Seq<Seq<usize>>, rc: Seq<usize>, i: usize)
    requires
        tree_ok(n0, spans),
        root_ok(n0, rc),
        sizes_ok(n0, spans),
        i < n0.len(),
        same_but_states(n0, n1, i as int),
        visible(n1[i as int], walker::View::Effect) == visible(n0[i as int], walker::View::Effect),
        visible(n1[i as int], walker::View::Prepare) == visible(n0[i as int], walker::View::Prepare),
        n1[i as int].base.effect_size == n0[i as int].base.effect_size,
        n1[i as int].base.prepare_size == n0[i as int].base.prepare_size,
        n1[i as int].prepare_state matches PrepareState::Deleted(c) ==> c >= 1,
    ensures
        sizes_ok(n1, spans),
        cnt(n1, flat(spans, rc), walker::View::Effect) == cnt(n0, flat(spans, rc), walker::View::Effect),
        cnt(n1, flat(spans, rc), walker::View::Prepare) == cnt(n0, flat(spans, rc), walker::View::Prepare),
        docs_equal(n0, n1, flat(spans, rc)),
{
    assert forall|x: int| 0 <= x < n1.len() implies {
        &&& (#[trigger] n1[x]).base.effect_size == cnt(n1, spans[x], walker::View::Effect)
        &&& n1[x].base.prepare_size == cnt(n1, spans[x], walker::View::Prepare)
        &&& n1[x].prepare_state matches PrepareState::Deleted(n) ==> n >= 1
    } by {
        lemma_tree_at(n0, spans, x);
        assert(n0[x].base.effect_size == cnt(n0, spans[x], walker::View::Effect));
        lemma_cnt_frame(n0, n1, spans[x], walker::View::Effect);
        lemma_cnt_frame(n0, n1, spans[x], walker::View::Prepare);
    }
    lemma_order_nodup(n0, spans, rc);
    lemma_cnt_frame(n0, n1, flat(spans, rc), walker::View::Effect);
    lemma_cnt_frame(n0, n1, flat(spans, rc), walker::View::Prepare);
}

pub(crate) open spec fn docs_equal<T>(n0: Seq<Node<T>>, n1: Seq<Node<T>>, s: Seq<usize>) -> bool {
    &&& super::docs(n0, s, walker::View::Effect) == super::docs(n1, s, walker::View::Effect)
    &&& super::docs(n0, s, walker::View::Prepare) == super::docs(n1, s, walker::View::Prepare)
}

impl<T> List<T> {
    /// Sets the prepare state of node `i` to `st`.
    pub(crate) fn set_prepare_state(&mut self, i: usize, st: PrepareState)
        requires
            old(self).wf(),
            i < old(self).nodes@.len(),
            st matches PrepareState::Deleted(c) ==> c >= 1,
        ensures
            final(self).wf(),
            final(self).spans@ == old(self).spans@,
            final(self).root.right_children == old(self).root.right_children,
            final(self).pending_parent == old(self).pending_parent,
            final(self).pending_delete == old(self).pending_delete,
            final(self).nodes@.len() == old(self).nodes@.len(),
            shape_eq(old(self).nodes@, final(self).nodes@),
            final(self).nodes@[i as int].prepare_state == st,
            final(self).nodes@[i as int].effect_deleted == old(self).nodes@[i as int].effect_deleted,
            forall|x: int| 0 <= x < old(self).nodes@.len() ==> (#[trigger] final(self).nodes@[x]).content == old(self).nodes@[x].content,
            forall|x: int| 0 <= x < old(self).nodes@.len() && x != i ==> {
                &&& (#[trigger] final(self).nodes@[x]).effect_deleted == old(self).nodes@[x].effect_deleted
                &&& final(self).nodes@[x].prepare_state == old(self).nodes@[x].prepare_state
            },
    {
        let ghost n0 = self.nodes@;
        let was = self.nodes[i].prepare_state == PrepareState::Inserted;
        let now = st == PrepareState::Inserted;
        let _nlen = self.nodes.len();
        proof {
            lemma_span_bounded(n0, self.spans@, i);
            lemma_span_nodup(n0, self.spans@, i);
            lemma_tree_at(n0, self.spans@, i as int);
            let n2 = n0.update(i as int, Node { prepare_state: st, ..n0[i as int] });
            assert forall|k: int| 0 <= k < self.spans@[i as int].len() && self.spans@[i as int][k] != i
                implies visible(n0[self.spans@[i as int][k] as int], walker::View::Prepare) == visible(n2[self.spans@[i as int][k] as int], walker::View::Prepare) by {
            }
            lemma_cnt_flip(n0, n2, self.spans@[i as int], walker::View::Prepare, i);
            lemma_cnt_bounds(n2, self.spans@[i as int], walker::View::Prepare);
            assert(n0[i as int].base.prepare_size == cnt(n0, self.spans@[i as int], walker::View::Prepare));
        }
        self.nodes[i].prepare_state = st;
        if was != now {
            if now {
                self.nodes[i].base.prepare_size = self.nodes[i].base.prepare_size + 1;
            } else {
                self.nodes[i].base.prepare_size = self.nodes[i].base.prepare_size - 1;
            }
            proof {
                lemma_flip_pre(n0, self.nodes@, self.spans@, self.root.right_children@, self.root, i, walker::View::Prepare, now);
                lemma_shape_frame(n0, self.nodes@, self.spans@, self.root.right_children@, self.pending_parent@);
            }
            self.adjust_ancestors(i, walker::View::Prepare, now);
        } else {
            proof {
                lemma_same_vis(n0, self.nodes@, self.spans@, self.root.right_children@, i);
                lemma_shape_frame(n0, self.nodes@, self.spans@, self.root.right_children@, self.pending_parent@);
            }
        }
    }

    /// Marks node `i` deleted in the effect view.
    pub(crate) fn mark_effect_deleted(&mut self, i: usize)
        requires
            old(self).wf(),
            i < old(self).nodes@.len(),
            !old(self).nodes@[i as int].effect_deleted,
        ensures
            final(self).wf(),
            final(self).spans@ == old(self).spans@,
            final(self).root.right_children == old(self).root.right_children,
            final(self).pending_parent == old(self).pending_parent,
            final(self).pending_delete == old(self).pending_delete,
            final(self).nodes@.len() == old(self).nodes@.len(),
            shape_eq(old(self).nodes@, final(self).nodes@),
            final(self).nodes@[i as int].effect_deleted,
            final(self).nodes@[i as int].prepare_state == old(self).nodes@[i as int].prepare_state,
            forall|x: int| 0 <= x < old(self).nodes@.len() ==> (#[trigger] final(self).nodes@[x]).content == old(self).nodes@[x].content,
            forall|x: int| 0 <= x < old(self).nodes@.len() && x != i ==> {
                &&& (#[trigger] final(self).nodes@[x]).effect_deleted == old(self).nodes@[x].effect_deleted
                &&& final(self).nodes@[x].prepare_state == old(self).nodes@[x].prepare_state
            },
    {
        let ghost n0 = self.nodes@;
        let _nlen = self.nodes.len();
        proof {
            lemma_span_bounded(n0, self.spans@, i);
            lemma_span_nodup(n0, self.spans@, i);
            lemma_tree_at(n0, self.spans@, i as int);
            let n2 = n0.update(i as int, Node { effect_deleted: true, ..n0[i as int] });
            assert forall|k: int| 0 <= k < self.spans@[i as int].len() && self.spans@[i as int][k] != i
                implies visible(n0[self.spans@[i as int][k] as int], walker::View::Effect) == visible(n2[self.spans@[i as int][k] as int], walker::View::Effect) by {
            }
            lemma_cnt_flip(n0, n2, self.spans@[i as int], walker::View::Effect, i);
            assert(n0[i as int].base.effect_size == cnt(n0, self.spans@[i as int], walker::View::Effect));
        }
        self.nodes[i].effect_deleted = true;
        self.nodes[i].base.effect_size = self.nodes[i].base.effect_size - 1;
        proof {
            lemma_flip_pre(n0, self.nodes@, self.spans@, self.root.right_children@, self.root, i, walker::View::Effect, false);
            lemma_shape_frame(n0, self.nodes@, self.spans@, self.root.right_children@, self.pending_parent@);
        }
        self.adjust_ancestors(i, walker::View::Effect, false);
    }
}

} // verus!
