//! Construction, sizes, lookup by id, and keeping subtree sizes current when
//! the visibility of one node changes.

use vstd::prelude::*;
use crate::crdts::id::ElementId;
use crate::crdts::walker;
use super::{List, NodeBase, Parent, visible, cnt, tree_ok, root_ok, pending_ok, sizes_ok};
use super::seqs::flat;
use super::tree::{lemma_tree_at, lemma_tree_ids, lemma_order_nodup, lemma_order_contains, lemma_span_bounded,
    lemma_ancestor_step, lemma_span_nodup, lemma_shape_frame};
use super::counts::{lemma_cnt_bounds, lemma_cnt_frame};

verus! {

impl NodeBase {
    /// The size of the subtree in view `view`.
    pub(crate) fn size(&self, view: walker::View) -> (r: usize)
        ensures
            r == self.size_in(view),
    {
        match view {
            walker::View::Effect => self.effect_size,
            walker::View::Prepare => self.prepare_size,
        }
    }
}

impl<T> Default for List<T> {
    /// An empty list.
    fn default() -> (l: Self)
        ensures
            l.wf(),
            l.order() == Seq::<usize>::empty(),
            l.doc(walker::View::Effect) == Seq::<T>::empty(),
            l.doc(walker::View::Prepare) == Seq::<T>::empty(),
            l.sorted(),
    {
        List::new()
    }
}

impl<T> List<T> {
    /// An empty list.
    pub fn new() -> (l: Self)
        ensures
            l.wf(),
            l.order() == Seq::<usize>::empty(),
            l.doc(walker::View::Effect) == Seq::<T>::empty(),
            l.doc(walker::View::Prepare) == Seq::<T>::empty(),
            l.node_count() == 0,
            l.pending_deletes() == Seq::<ElementId>::empty(),
            forall|e: ElementId| !l.has_id(e) && !l.is_awaited(e),
            l.ids_fit(),
            l.places(Parent::Root),
            l.sorted(),
    {
        let l = List {
            root: NodeBase { right_children: Vec::new(), effect_size: 0, prepare_size: 0 },
            nodes: Vec::new(),
            pending_parent: Vec::new(),
            pending_delete: Vec::new(),
            spans: Ghost(Seq::empty()),
        };
        proof {
            reveal(tree_ok);
            reveal(List::sorted);
            assert(flat(l.spans@, Seq::<usize>::empty()) == Seq::<usize>::empty());
            assert(l.pending_delete@ == Seq::<ElementId>::empty());
        }
        l
    }

    /// The number of elements in view `view`.
    pub fn size(&self, view: walker::View) -> (r: usize)
        requires
            self.wf(),
        ensures
            r == self.len_in(view),
            r == self.doc(view).len(),
    {
        proof {
            lemma_cnt_bounds(self.nodes@, self.order(), view);
        }
        self.root.size(view)
    }

    /// The index of the node with id `id`, if the list holds one.
    pub(crate) fn find(&self, id: &ElementId) -> (r: Option<usize>)
        requires
            tree_ok(self.nodes@, self.spans@),
        ensures
            r matches Some(i) ==> i < self.nodes@.len() && self.nodes@[i as int].id == *id,
            r is None ==> forall|i: int| 0 <= i < self.nodes@.len() ==> self.nodes@[i].id != *id,
    {
        let mut i: usize = 0;
        while i < self.nodes.len()
            invariant
                i <= self.nodes@.len(),
                forall|j: int| 0 <= j < i ==> self.nodes@[j].id != *id,
            decreases self.nodes@.len() - i,
        {
            if self.nodes[i].id == *id {
                return Some(i);
            }
            i += 1;
        }
        None
    }

    /// After the visibility of node `n` in view `v` changed and its own size
    /// was adjusted by `up` (one more visible node) or not `up` (one fewer),
    /// adjusts the sizes of its ancestors and of the root.
    pub(crate) fn adjust_ancestors(&mut self, n: usize, v: walker::View, up: bool)
        requires
            tree_ok(old(self).nodes@, old(self).spans@),
            root_ok(old(self).nodes@, old(self).root.right_children@),
            pending_ok(old(self).nodes@, old(self).pending_parent@),
            n < old(self).nodes@.len(),
            forall|x: int| 0 <= x < old(self).nodes@.len() ==> {
                &&& (#[trigger] old(self).nodes@[x]).base.size_in(v) as int == cnt(old(self).nodes@, old(self).spans@[x], v)
                    + if x != n && old(self).spans@[x].contains(n) { if up { -1int } else { 1int } } else { 0int }
                &&& old(self).nodes@[x].prepare_state matches super::PrepareState::Deleted(c) ==> c >= 1
            },
            forall|x: int| 0 <= x < old(self).nodes@.len() ==> {
                let w = if v == walker::View::Effect { walker::View::Prepare } else { walker::View::Effect };
                (#[trigger] old(self).nodes@[x]).base.size_in(w) == cnt(old(self).nodes@, old(self).spans@[x], w)
            },
            old(self).root.size_in(v) as int == cnt(old(self).nodes@, old(self).order(), v)
                + if old(self).order().contains(n) { if up { -1int } else { 1int } } else { 0int },
            ({
                let w = if v == walker::View::Effect { walker::View::Prepare } else { walker::View::Effect };
                old(self).root.size_in(w) == cnt(old(self).nodes@, old(self).order(), w)
            }),
        ensures
            final(self).wf(),
            final(self).spans@ == old(self).spans@,
            final(self).root.right_children == old(self).root.right_children,
            final(self).pending_parent == old(self).pending_parent,
            final(self).pending_delete == old(self).pending_delete,
            final(self).nodes@.len() == old(self).nodes@.len(),
            forall|x: int| 0 <= x < old(self).nodes@.len() ==> {
                &&& (#[trigger] final(self).nodes@[x]).id == old(self).nodes@[x].id
                &&& final(self).nodes@[x].parent == old(self).nodes@[x].parent
                &&& final(self).nodes@[x].parent_index == old(self).nodes@[x].parent_index
                &&& final(self).nodes@[x].left_children == old(self).nodes@[x].left_children
                &&& final(self).nodes@[x].base.right_children == old(self).nodes@[x].base.right_children
                &&& final(self).nodes@[x].content == old(self).nodes@[x].content
                &&& final(self).nodes@[x].effect_deleted == old(self).nodes@[x].effect_deleted
                &&& final(self).nodes@[x].prepare_state == old(self).nodes@[x].prepare_state
            },
    {
        let ghost d: int = if up { -1int } else { 1int };
        let ghost w = if v == walker::View::Effect { walker::View::Prepare } else { walker::View::Effect };
        let ghost nodes0 = self.nodes@;
        let ghost spans = self.spans@;
        proof {
            lemma_order_nodup(nodes0, spans, self.root.right_children@);
        }
        let mut cur = n;
        loop
            invariant
                tree_ok(self.nodes@, spans),
                root_ok(self.nodes@, self.root.right_children@),
                pending_ok(self.nodes@, self.pending_parent@),
                self.spans@ == spans,
                spans == old(self).spans@,
                nodes0 == old(self).nodes@,
                self.root.right_children == old(self).root.right_children,
                self.pending_parent == old(self).pending_parent,
                self.pending_delete == old(self).pending_delete,
                self.nodes@.len() == nodes0.len(),
                cur < nodes0.len(),
                d == if up { -1int } else { 1int },
                w == if v == walker::View::Effect { walker::View::Prepare } else { walker::View::Effect },
                forall|x: int| 0 <= x < nodes0.len() ==> {
                    &&& (#[trigger] self.nodes@[x]).id == nodes0[x].id
                    &&& self.nodes@[x].parent == nodes0[x].parent
                    &&& self.nodes@[x].parent_index == nodes0[x].parent_index
                    &&& self.nodes@[x].left_children == nodes0[x].left_children
                    &&& self.nodes@[x].base.right_children == nodes0[x].base.right_children
                    &&& self.nodes@[x].content == nodes0[x].content
                    &&& self.nodes@[x].effect_deleted == nodes0[x].effect_deleted
                    &&& self.nodes@[x].prepare_state == nodes0[x].prepare_state
                },
                forall|x: int| 0 <= x < nodes0.len() ==> {
                    &&& (#[trigger] self.nodes@[x]).base.size_in(v) as int == cnt(nodes0, spans[x], v)
                        + if x != cur && spans[x].contains(cur) { d } else { 0int }
                    &&& self.nodes@[x].base.size_in(w) == cnt(nodes0, spans[x], w)
                    &&& self.nodes@[x].prepare_state matches super::PrepareState::Deleted(c) ==> c >= 1
                },
                self.root.size_in(v) as int == cnt(nodes0, flat(spans, self.root.right_children@), v)
                    + if flat(spans, self.root.right_children@).contains(cur) { d } else { 0int },
                self.root.size_in(w) == cnt(nodes0, flat(spans, self.root.right_children@), w),
            decreases nodes0.len() - spans[cur as int].len(),
        {
            let _nlen = self.nodes.len();
            proof {
                lemma_span_bounded(self.nodes@, spans, cur);
                lemma_order_contains(self.nodes@, spans, self.root.right_children@, cur);
                assert forall|x: int| 0 <= x < nodes0.len() implies
                    ((x != cur && #[trigger] spans[x].contains(cur)) ==> true) by {}
            }
            match self.nodes[cur].parent_index {
                Some(p) => {
                    proof {
                        lemma_ancestor_step(self.nodes@, spans, cur, cur);
                        lemma_span_bounded(self.nodes@, spans, p);
                        lemma_cnt_bounds(nodes0, spans[p as int], v);
                        lemma_ancestor_step(self.nodes@, spans, cur, p);
                        assert(self.nodes@[p as int].base.size_in(v) as int == cnt(nodes0, spans[p as int], v) + d);
                        lemma_tree_at(self.nodes@, spans, p as int);
                        
                    }
                    let ghost before = self.nodes@;
                    match v {
                        walker::View::Effect => {
                            if up { self.nodes[p].base.effect_size = self.nodes[p].base.effect_size + 1; }
                            else { self.nodes[p].base.effect_size = self.nodes[p].base.effect_size - 1; }
                        }
                        walker::View::Prepare => {
                            if up { self.nodes[p].base.prepare_size = self.nodes[p].base.prepare_size + 1; }
                            else { self.nodes[p].base.prepare_size = self.nodes[p].base.prepare_size - 1; }
                        }
                    }
                    proof {
                        assert forall|x: int| 0 <= x < nodes0.len() implies {
                            &&& (#[trigger] self.nodes@[x]).base.size_in(v) as int == cnt(nodes0, spans[x], v)
                                + if x != p && spans[x].contains(p) { d } else { 0int }
                            &&& self.nodes@[x].base.size_in(w) == cnt(nodes0, spans[x], w)
                            &&& self.nodes@[x].prepare_state matches super::PrepareState::Deleted(c) ==> c >= 1
                        } by {
                            lemma_ancestor_step(before, spans, cur, x as usize);
                        }
                        lemma_shape_frame(before, self.nodes@, spans, self.root.right_children@, self.pending_parent@);
                    }
                    cur = p;
                }
                None => {
                    proof {
                        lemma_order_nodup(self.nodes@, spans, self.root.right_children@);
                        lemma_cnt_bounds(nodes0, flat(spans, self.root.right_children@), v);
                    }
                    if self.nodes[cur].parent == Parent::Root {
                        match v {
                            walker::View::Effect => {
                                if up { self.root.effect_size = self.root.effect_size + 1; }
                                else { self.root.effect_size = self.root.effect_size - 1; }
                            }
                            walker::View::Prepare => {
                                if up { self.root.prepare_size = self.root.prepare_size + 1; }
                                else { self.root.prepare_size = self.root.prepare_size - 1; }
                            }
                        }
                    }
                    proof {
                        assert(self.nodes@[cur as int].parent_index is None);
                        assert forall|x: int| 0 <= x < nodes0.len() implies !(x != cur && #[trigger] spans[x].contains(cur)) by {
                            lemma_ancestor_step(self.nodes@, spans, cur, x as usize);
                            assert(x as usize as int == x);
                        }
                        lemma_order_nodup(self.nodes@, spans, self.root.right_children@);
                        lemma_cnt_bounds(nodes0, flat(spans, self.root.right_children@), v);
                        assert forall|x: int| 0 <= x < nodes0.len() implies
                            cnt(self.nodes@, #[trigger] spans[x], v) == cnt(nodes0, spans[x], v)
                            && cnt(self.nodes@, spans[x], w) == cnt(nodes0, spans[x], w) by {
                            lemma_tree_at(self.nodes@, spans, x);
                            assert forall|k: int| 0 <= k < spans[x].len() implies visible(nodes0[spans[x][k] as int], v) == visible(self.nodes@[spans[x][k] as int], v)
                                && visible(nodes0[spans[x][k] as int], w) == visible(self.nodes@[spans[x][k] as int], w)
                                && nodes0[spans[x][k] as int].content == self.nodes@[spans[x][k] as int].content by {
                                let y = spans[x][k] as int;
                                assert(self.nodes@[y].effect_deleted == nodes0[y].effect_deleted);
                            }
                            lemma_cnt_frame(nodes0, self.nodes@, spans[x], v);
                            lemma_cnt_frame(nodes0, self.nodes@, spans[x], w);
                        }
                        let o = flat(spans, self.root.right_children@);
                        assert forall|k: int| 0 <= k < o.len() implies visible(nodes0[o[k] as int], v) == visible(self.nodes@[o[k] as int], v)
                            && visible(nodes0[o[k] as int], w) == visible(self.nodes@[o[k] as int], w)
                            && nodes0[o[k] as int].content == self.nodes@[o[k] as int].content by {
                            let y = o[k] as int;
                            assert(self.nodes@[y].effect_deleted == nodes0[y].effect_deleted);
                        }
                        lemma_cnt_frame(nodes0, self.nodes@, flat(spans, self.root.right_children@), v);
                        lemma_cnt_frame(nodes0, self.nodes@, flat(spans, self.root.right_children@), w);
                        assert(v == walker::View::Effect || v == walker::View::Prepare);
                    }
                    return;
                }
            }
        }
    }
}

} // verus!
