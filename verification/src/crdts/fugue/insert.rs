//! Inserting one element: it is added as a node that hangs nowhere, adopts the
//! nodes that were waiting for it as their parent, and is then attached under
//! its own parent (or left waiting for it).

use vstd::prelude::*;
use crate::crdts::id::{ElementId, element_id_less, element_id_lt};
use crate::crdts::walker;
use super::{List, Node, NodeBase, Parent, Side, PrepareState, visible, cnt, docs, tree_ok, root_ok, root_ok_but,
    root_core, pending_ok, pending_ok_but, sizes_ok, span_def, children_of, left_of, right_of, node_links_ok, child_link};
use super::seqs::{flat, lemma_flat_frame, lemma_flat_insert, lemma_flat_replace, lemma_flat_contains};
use super::tree::{lemma_tree_at, lemma_tree_ids, lemma_order_nodup, lemma_span_bounded, lemma_span_nodup, lemma_shape_frame,
    shape_eq};
use super::counts::{lemma_cnt_bounds, lemma_cnt_frame, lemma_cnt_concat, lemma_cnt_single};
use super::siblings::{siblings_sorted, lemma_children_in_range, lemma_sorted_link, lemma_sorted_shape,
    lemma_sorted_insert_root};

verus! {

impl<T> List<T> {
    /// Adds a node for `id` that hangs nowhere and has no children.
    pub(crate) fn push_floating(&mut self, id: ElementId, parent: Parent, content: T, deleted: bool) -> (idx: usize)
        requires
            old(self).wf(),
            forall|i: int| 0 <= i < old(self).nodes@.len() ==> old(self).nodes@[i].id != id,
        ensures
            idx == old(self).nodes@.len(),
            final(self).wf_but(idx as int),
            final(self).nodes@.len() == idx + 1,
            final(self).nodes@[idx as int].id == id,
            final(self).nodes@[idx as int].parent == parent,
            final(self).nodes@[idx as int].content == content,
            final(self).nodes@[idx as int].effect_deleted == deleted,
            final(self).nodes@[idx as int].prepare_state == PrepareState::UnInserted,
            final(self).nodes@[idx as int].left_children@.len() == 0,
            final(self).nodes@[idx as int].base.right_children@.len() == 0,
            final(self).spans@ == old(self).spans@.push(seq![idx]),
            forall|x: int| 0 <= x < idx ==> final(self).nodes@[x] == old(self).nodes@[x],
            final(self).root == old(self).root,
            final(self).pending_parent == old(self).pending_parent,
            final(self).pending_delete == old(self).pending_delete,
            final(self).order() == old(self).order(),
    {
        let idx = self.nodes.len();
        let ghost n0 = self.nodes@;
        let ghost s0 = self.spans@;
        let node = Node {
            id,
            parent,
            parent_index: None,
            left_children: Vec::new(),
            content,
            base: NodeBase { right_children: Vec::new(), effect_size: if deleted { 0 } else { 1 }, prepare_size: 0 },
            effect_deleted: deleted,
            prepare_state: PrepareState::UnInserted,
        };
        self.nodes.push(node);
        self.spans = Ghost(s0.push(seq![idx]));
        proof {
            let n1 = self.nodes@;
            let s1 = self.spans@;
            reveal(tree_ok);
            assert(flat(s1, Seq::<usize>::empty()) == Seq::<usize>::empty());
            assert(s1[idx as int] == span_def(n1, s1, idx as int));
            assert forall|x: int| 0 <= x < n0.len() implies #[trigger] s1[x] == span_def(n1, s1, x) by {
                assert(node_links_ok(n0, x));
                assert forall|k: int| 0 <= k < left_of(n0, x).len() implies 0 <= #[trigger] left_of(n0, x)[k] < s0.len()
                    && left_of(n0, x)[k] < s1.len() && s0[left_of(n0, x)[k] as int] == s1[left_of(n0, x)[k] as int] by {
                    assert(child_link(n0, x, left_of(n0, x)[k], Side::Left));
                }
                assert forall|k: int| 0 <= k < right_of(n0, x).len() implies 0 <= #[trigger] right_of(n0, x)[k] < s0.len()
                    && right_of(n0, x)[k] < s1.len() && s0[right_of(n0, x)[k] as int] == s1[right_of(n0, x)[k] as int] by {
                    assert(child_link(n0, x, right_of(n0, x)[k], Side::Right));
                }
                lemma_flat_frame(s0, s1, left_of(n0, x));
                lemma_flat_frame(s0, s1, right_of(n0, x));
            }
            assert forall|x: int| 0 <= x < n1.len() implies #[trigger] node_links_ok(n1, x) by {
                if x < n0.len() {
                    assert(node_links_ok(n0, x));
                    assert forall|k: int| 0 <= k < left_of(n1, x).len() implies #[trigger] child_link(n1, x, left_of(n1, x)[k], Side::Left) by {
                        assert(child_link(n0, x, left_of(n0, x)[k], Side::Left));
                    }
                    assert forall|k: int| 0 <= k < right_of(n1, x).len() implies #[trigger] child_link(n1, x, right_of(n1, x)[k], Side::Right) by {
                        assert(child_link(n0, x, right_of(n0, x)[k], Side::Right));
                    }
                }
            }
            assert forall|i: int, k: int| 0 <= i < n1.len() && 0 <= k < s1[i].len() implies #[trigger] s1[i][k] < n1.len() by {
                if i < n0.len() {
                    assert(s0[i][k] < n0.len());
                }
            }
            assert(tree_ok(n1, s1));
            let rc = self.root.right_children@;
            assert forall|k: int| 0 <= k < rc.len() implies 0 <= #[trigger] rc[k] < s0.len() && rc[k] < s1.len() && s0[rc[k] as int] == s1[rc[k] as int] by {
            }
            lemma_flat_frame(s0, s1, rc);
            assert forall|x: int| 0 <= x < n1.len() implies {
                &&& (#[trigger] n1[x]).base.effect_size == cnt(n1, s1[x], walker::View::Effect)
                &&& n1[x].base.prepare_size == cnt(n1, s1[x], walker::View::Prepare)
                &&& n1[x].prepare_state matches PrepareState::Deleted(n) ==> n >= 1
            } by {
                if x < n0.len() {
                    assert(n0[x].base.effect_size == cnt(n0, s0[x], walker::View::Effect));
                    assert forall|k: int| 0 <= k < s0[x].len() implies s0[x][k] < n0.len() by {
                        assert(s0[x][k] < n0.len());
                    }
                    lemma_cnt_frame(n0, n1, s0[x], walker::View::Effect);
                    lemma_cnt_frame(n0, n1, s0[x], walker::View::Prepare);
                } else {
                    lemma_cnt_single(n1, idx, walker::View::Effect);
                    lemma_cnt_single(n1, idx, walker::View::Prepare);
                }
            }
            lemma_order_nodup(n0, s0, rc);
            lemma_cnt_frame(n0, n1, flat(s0, rc), walker::View::Effect);
            lemma_cnt_frame(n0, n1, flat(s0, rc), walker::View::Prepare);
        }
        idx
    }

    /// Where node `c` goes among the siblings `cs`: after those with smaller ids.
    pub(crate) fn child_position(&self, cs: &Vec<usize>, c: usize) -> (j: usize)
        requires
            forall|k: int| 0 <= k < cs@.len() ==> #[trigger] cs@[k] < self.nodes@.len(),
            c < self.nodes@.len(),
        ensures
            j <= cs@.len(),
            forall|k: int| 0 <= k < j ==> element_id_lt(self.nodes@[#[trigger] cs@[k] as int].id, self.nodes@[c as int].id),
            j < cs@.len() ==> !element_id_lt(self.nodes@[cs@[j as int] as int].id, self.nodes@[c as int].id),
    {
        let mut j: usize = 0;
        while j < cs.len() && element_id_less(&self.nodes[cs[j]].id, &self.nodes[c].id)
            invariant
                j <= cs@.len(),
                forall|k: int| 0 <= k < cs@.len() ==> #[trigger] cs@[k] < self.nodes@.len(),
                c < self.nodes@.len(),
                forall|k: int| 0 <= k < j ==> element_id_lt(self.nodes@[#[trigger] cs@[k] as int].id, self.nodes@[c as int].id),
            decreases cs@.len() - j,
        {
            j += 1;
        }
        j
    }

    /// Makes the waiting node `pending_parent[k]` a child, on side `side`, of
    /// the node `idx` being inserted.
    pub(crate) fn adopt(&mut self, idx: usize, k: usize, side: Side)
        requires
            old(self).wf_but(idx as int),
            k < old(self).pending_parent@.len(),
            old(self).nodes@[old(self).pending_parent@[k as int] as int].parent == (Parent::Node { id: old(self).nodes@[idx as int].id, side }),
        ensures
            final(self).wf_but(idx as int),
            final(self).nodes@.len() == old(self).nodes@.len(),
            final(self).pending_parent@ == old(self).pending_parent@.remove(k as int),
            final(self).pending_delete == old(self).pending_delete,
            final(self).root == old(self).root,
            final(self).order() == old(self).order(),
            forall|x: int| 0 <= x < old(self).nodes@.len() ==> {
                &&& (#[trigger] final(self).nodes@[x]).id == old(self).nodes@[x].id
                &&& final(self).nodes@[x].parent == old(self).nodes@[x].parent
                &&& final(self).nodes@[x].content == old(self).nodes@[x].content
                &&& final(self).nodes@[x].effect_deleted == old(self).nodes@[x].effect_deleted
                &&& final(self).nodes@[x].prepare_state == old(self).nodes@[x].prepare_state
                &&& (old(self).nodes@[x].parent_index is Some ==> final(self).nodes@[x].parent_index == old(self).nodes@[x].parent_index)
                &&& (x != idx ==> final(self).nodes@[x].left_children == old(self).nodes@[x].left_children
                    && final(self).nodes@[x].base.right_children == old(self).nodes@[x].base.right_children)
            },
            final(self).nodes@[old(self).pending_parent@[k as int] as int].parent_index == Some(idx),
            siblings_sorted(old(self).nodes@, old(self).root.right_children@)
                ==> siblings_sorted(final(self).nodes@, final(self).root.right_children@),
    {
        let ghost n0 = self.nodes@;
        let ghost s0 = self.spans@;
        let c = self.pending_parent[k];
        let _nlen = self.nodes.len();
        proof {
            assert(self.pending_parent@.contains(c));
            lemma_tree_at(n0, s0, idx as int);
            lemma_adopt_pre(n0, s0, self.pending_parent@, idx, c, side);
            let l = self.nodes@[idx as int].left_children@;
            let r = self.nodes@[idx as int].base.right_children@;
            assert forall|m: int| 0 <= m < l.len() implies #[trigger] l[m] < self.nodes@.len() by {
                assert(left_of(n0, idx as int)[m] < n0.len());
            }
            assert forall|m: int| 0 <= m < r.len() implies #[trigger] r[m] < self.nodes@.len() by {
                assert(right_of(n0, idx as int)[m] < n0.len());
            }
        }
        let j = match side {
            Side::Left => self.child_position(&self.nodes[idx].left_children, c),
            Side::Right => self.child_position(&self.nodes[idx].base.right_children, c),
        };
        self.pending_parent.remove(k);
        match side {
            Side::Left => self.nodes[idx].left_children.insert(j, c),
            Side::Right => self.nodes[idx].base.right_children.insert(j, c),
        }
        self.nodes[c].parent_index = Some(idx);
        let ghost n2 = self.nodes@;
        let ghost s2 = s0.update(idx as int, span_def(n2, s0, idx as int));
        self.spans = Ghost(s2);
        proof {
            assert(adopted(n0, n2, idx, c, side, j as int));
            lemma_adopt_tree(n0, s0, n2, idx, c, side, j as int);
            lemma_span_bounded(n2, s2, idx);
            lemma_cnt_bounds(n0, s2[idx as int], walker::View::Effect);
            lemma_cnt_bounds(n0, s2[idx as int], walker::View::Prepare);
            lemma_adopt_cnt(n0, s0, n2, idx, c, side, j as int, walker::View::Effect);
            lemma_adopt_cnt(n0, s0, n2, idx, c, side, j as int, walker::View::Prepare);
            assert(n0[idx as int].base.effect_size == cnt(n0, s0[idx as int], walker::View::Effect));
            assert(n0[c as int].base.effect_size == cnt(n0, s0[c as int], walker::View::Effect));
            assert(n2[idx as int].base.effect_size == n0[idx as int].base.effect_size);
            assert(n2[c as int].base.effect_size == n0[c as int].base.effect_size);
            assert(s2[idx as int] == span_def(n2, s0, idx as int));
            assert(cnt(n0, s2[idx as int], walker::View::Effect) <= n2.len());
            assert(cnt(n0, s2[idx as int], walker::View::Prepare) <= n2.len());
        }
        let ce = self.nodes[c].base.effect_size;
        let cp = self.nodes[c].base.prepare_size;
        self.nodes[idx].base.effect_size = self.nodes[idx].base.effect_size + ce;
        self.nodes[idx].base.prepare_size = self.nodes[idx].base.prepare_size + cp;
        proof {
            let n3 = self.nodes@;
            assert(shape_eq(n2, n3));
            lemma_shape_frame(n2, n3, s2, self.root.right_children@, self.pending_parent@);
            lemma_adopt_sizes(n0, s0, n2, n3, idx, c, side, j as int);
            lemma_adopt_root(n0, s0, n3, s2, self.root.right_children@, idx);
            lemma_adopt_pending(n0, n3, old(self).pending_parent@, k as int, idx, c);
            let rc = self.root.right_children@;
            if siblings_sorted(n0, rc) {
                lemma_sorted_link(n0, s0, n2, rc, idx as int, side, j as int, c);
                lemma_sorted_shape(n2, n3, rc);
            }
        }
    }
}

/// `o1` is `o0` with `ins` inserted at position `q`.
pub(crate) open spec fn inserted_at(o1: Seq<usize>, o0: Seq<usize>, ins: Seq<usize>, q: int) -> bool {
    &&& 0 <= q <= o0.len()
    &&& o1 == o0.take(q) + ins + o0.skip(q)
}

impl<T> List<T> {
    /// Whether node `p` lies in the subtree of node `idx`, which hangs nowhere.
    pub(crate) fn reaches(&self, p: usize, idx: usize) -> (r: bool)
        requires
            self.wf_but(idx as int),
            p < self.nodes@.len(),
        ensures
            r == self.spans@[idx as int].contains(p),
    {
        let ghost s = self.spans@;
        let ghost n = self.nodes@;
        let _nlen = self.nodes.len();
        let mut cur = p;
        proof {
            super::tree::lemma_span_bounded(n, s, p);
        }
        loop
            invariant
                self.wf_but(idx as int),
                s == self.spans@,
                n == self.nodes@,
                n.len() <= usize::MAX,
                cur < n.len(),
                s[cur as int].contains(p),
                s[idx as int].contains(p) <==> s[idx as int].contains(cur),
            decreases n.len() - s[cur as int].len(),
        {
            proof {
                lemma_span_bounded(n, s, cur);
                lemma_span_bounded(n, s, idx);
            }
            if cur == idx {
                return true;
            }
            match self.nodes[cur].parent_index {
                Some(a) => {
                    proof {
                        lemma_tree_at(n, s, cur as int);
                        super::tree::lemma_ancestor_step(n, s, cur, a);
                        super::tree::lemma_ancestor_step(n, s, cur, idx);
                        lemma_span_bounded(n, s, a);
                        if s[cur as int].contains(p) {
                            super::tree::lemma_sub(n, s, a, cur);
                        }
                        if s[idx as int].contains(a) {
                            super::tree::lemma_sub(n, s, idx, a);
                        }
                        if s[idx as int].contains(cur) {
                            super::tree::lemma_parent_in_span(n, s, idx, cur);
                        }
                    }
                    cur = a;
                }
                None => {
                    proof {
                        if s[idx as int].contains(cur) {
                            super::tree::lemma_parent_in_span(n, s, idx, cur);
                        }
                    }
                    return false;
                }
            }
        }
    }

    /// Attaches the node `idx` being inserted, whose parent is the root, among
    /// the root's children.
    pub(crate) fn attach_root(&mut self, idx: usize)
        requires
            old(self).wf_but(idx as int),
            old(self).nodes@[idx as int].parent == Parent::Root,
        ensures
            final(self).wf(),
            final(self).nodes@ == old(self).nodes@,
            final(self).spans@ == old(self).spans@,
            final(self).pending_parent == old(self).pending_parent,
            final(self).pending_delete == old(self).pending_delete,
            exists|q: int| inserted_at(final(self).order(), old(self).order(), old(self).spans@[idx as int], q),
            old(self).order().len() == 0 ==> final(self).order() == old(self).spans@[idx as int],
            siblings_sorted(old(self).nodes@, old(self).root.right_children@)
                ==> siblings_sorted(final(self).nodes@, final(self).root.right_children@),
            exists|j: int| 0 <= j <= old(self).root.right_children@.len()
                && final(self).root.right_children@ == old(self).root.right_children@.insert(j, idx),
    {
        let ghost n = self.nodes@;
        let ghost s = self.spans@;
        let ghost rc0 = self.root.right_children@;
        let _nlen = self.nodes.len();
        proof {
            assert forall|k: int| 0 <= k < rc0.len() implies #[trigger] rc0[k] < self.nodes@.len() by {}
        }
        let j = self.child_position(&self.root.right_children, idx);
        self.root.right_children.insert(j, idx);
        let ghost rc1 = self.root.right_children@;
        proof {
            assert(rc1 == rc0.insert(j as int, idx));
            lemma_attach_root(n, s, rc0, j as int, idx, self.pending_parent@);
            if siblings_sorted(n, rc0) {
                lemma_children_in_range(n, s, rc0);
                if (j as int) < rc0.len() {
                    lemma_tree_ids(n, s, rc0[j as int] as int, idx as int);
                }
                lemma_sorted_insert_root(n, rc0, j as int, idx);
            }
        }
        let e = self.nodes[idx].base.effect_size;
        let pz = self.nodes[idx].base.prepare_size;
        self.root.effect_size = self.root.effect_size + e;
        self.root.prepare_size = self.root.prepare_size + pz;
    }

    /// Leaves the node `idx` being inserted waiting for its parent.
    pub(crate) fn attach_pending(&mut self, idx: usize)
        requires
            old(self).wf_but(idx as int),
            old(self).nodes@[idx as int].parent !is Root,
        ensures
            final(self).wf(),
            final(self).nodes@ == old(self).nodes@,
            final(self).spans@ == old(self).spans@,
            final(self).root == old(self).root,
            final(self).pending_delete == old(self).pending_delete,
            final(self).order() == old(self).order(),
            final(self).pending_parent@ == old(self).pending_parent@.push(idx),
    {
        let ghost p0 = self.pending_parent@;
        let _nlen = self.nodes.len();
        self.pending_parent.push(idx);
        proof {
            let n = self.nodes@;
            let p1 = self.pending_parent@;
            assert(p1 == p0.push(idx));
            assert forall|a: int, b: int| 0 <= a < p1.len() && 0 <= b < p1.len() && a != b implies p1[a] != p1[b] by {
                if a < p0.len() && b < p0.len() { assert(p1[a] == p0[a] && p1[b] == p0[b]); }
                else if a < p0.len() { assert(p0[a] != idx); } else if b < p0.len() { assert(p0[b] != idx); }
            }
            assert forall|i: int| 0 <= i < n.len() implies ((n[i].parent !is Root && n[i].parent_index is None) <==> #[trigger] p1.contains(i as usize)) by {
                if i == idx as int {
                    assert(p1[p0.len() as int] == idx);
                } else {
                    if p1.contains(i as usize) {
                        let w = choose|w: int| 0 <= w < p1.len() && p1[w] == i as usize;
                        assert(w < p0.len());
                        assert(p0[w] == i as usize);
                    }
                    if p0.contains(i as usize) {
                        let w = choose|w: int| 0 <= w < p0.len() && p0[w] == i as usize;
                        assert(p1[w] == i as usize);
                    }
                }
            }
            assert forall|k: int| 0 <= k < p1.len() implies #[trigger] p1[k] < n.len() && p1[k] != -1 by {
                if k < p0.len() { assert(p1[k] == p0[k]); }
            }
        }
    }
}

/// Inserting the node `idx`, whose parent is the root, among the root's
/// children at position `j` restores the root and pending invariants and
/// inserts its span into the document order.
#[verifier::spinoff_prover]
proof fn lemma_attach_root<T>(n: Seq<Node<T>>, s: Seq<Seq<usize>>, rc0: Seq<usize>, j: int, idx: usize, pending: Seq<usize>)
    requires
        tree_ok(n, s),
        root_ok_but(n, rc0, idx as int),
        pending_ok_but(n, pending, idx as int),
        sizes_ok(n, s),
        n.len() <= usize::MAX,
        idx < n.len(),
        !rc0.contains(idx),
        n[idx as int].parent == Parent::Root,
        n[idx as int].parent_index is None,
        0 <= j <= rc0.len(),
    ensures
        root_ok(n, rc0.insert(j, idx)),
        pending_ok(n, pending),
        cnt(n, flat(s, rc0.insert(j, idx)), walker::View::Effect) == cnt(n, flat(s, rc0), walker::View::Effect) + n[idx as int].base.effect_size,
        cnt(n, flat(s, rc0.insert(j, idx)), walker::View::Prepare) == cnt(n, flat(s, rc0), walker::View::Prepare) + n[idx as int].base.prepare_size,
        cnt(n, flat(s, rc0.insert(j, idx)), walker::View::Effect) <= n.len(),
        cnt(n, flat(s, rc0.insert(j, idx)), walker::View::Prepare) <= n.len(),
        exists|q: int| inserted_at(flat(s, rc0.insert(j, idx)), flat(s, rc0), s[idx as int], q),
        flat(s, rc0).len() == 0 ==> flat(s, rc0.insert(j, idx)) == s[idx as int],
{
    let rc1 = rc0.insert(j, idx);
    lemma_tree_at(n, s, idx as int);
    lemma_flat_insert(s, rc0, j, idx);
    assert(rc1.no_duplicates()) by {
        assert forall|a: int, b: int| 0 <= a < rc1.len() && 0 <= b < rc1.len() && a != b implies rc1[a] != rc1[b] by {
            if a != j && b != j {
                let a0 = if a < j { a } else { a - 1 };
                let b0 = if b < j { b } else { b - 1 };
                assert(rc1[a] == rc0[a0] && rc1[b] == rc0[b0]);
            } else if a == j {
                let b0 = if b < j { b } else { b - 1 };
                assert(rc1[b] == rc0[b0]);
                assert(rc0.contains(rc0[b0]));
            } else {
                let a0 = if a < j { a } else { a - 1 };
                assert(rc1[a] == rc0[a0]);
                assert(rc0.contains(rc0[a0]));
            }
        }
    }
    assert forall|k: int| 0 <= k < rc1.len() implies #[trigger] rc1[k] < n.len() && n[rc1[k] as int].parent == Parent::Root
        && n[rc1[k] as int].parent_index is None by {
        if k < j { assert(rc1[k] == rc0[k]); } else if k > j { assert(rc1[k] == rc0[k - 1]); }
    }
    assert forall|i: int| 0 <= i < n.len() && #[trigger] n[i].parent == Parent::Root implies rc1.contains(i as usize) by {
        if i == idx as int {
            assert(rc1[j] == idx);
        } else {
            assert(rc0.contains(i as usize));
            let k = choose|k: int| 0 <= k < rc0.len() && rc0[k] == i as usize;
            if k < j { assert(rc1[k] == i as usize); } else { assert(rc1[k + 1] == i as usize); }
        }
    }
    assert forall|i: int| 0 <= i < n.len() implies ((n[i].parent !is Root && n[i].parent_index is None) <==> #[trigger] pending.contains(i as usize)) by {
        if i == idx as int {
            if pending.contains(i as usize) {
                let w = choose|w: int| 0 <= w < pending.len() && pending[w] == i as usize;
                assert(pending[w] != idx);
            }
        }
    }
    assert forall|k: int| 0 <= k < pending.len() implies #[trigger] pending[k] < n.len() && pending[k] != -1 by {}
    let o0 = flat(s, rc0);
    let o1 = flat(s, rc1);
    let a = flat(s, rc0.take(j));
    let b = flat(s, rc0.skip(j));
    lemma_cnt_concat(n, a, s[idx as int], walker::View::Effect);
    lemma_cnt_concat(n, a + s[idx as int], b, walker::View::Effect);
    lemma_cnt_concat(n, a, b, walker::View::Effect);
    lemma_cnt_concat(n, a, s[idx as int], walker::View::Prepare);
    lemma_cnt_concat(n, a + s[idx as int], b, walker::View::Prepare);
    lemma_cnt_concat(n, a, b, walker::View::Prepare);
    assert(root_core(n, rc1));
    lemma_order_nodup(n, s, rc1);
    lemma_cnt_bounds(n, o1, walker::View::Effect);
    lemma_cnt_bounds(n, o1, walker::View::Prepare);
    assert(n[idx as int].base.effect_size == cnt(n, s[idx as int], walker::View::Effect));
    assert(o0.take(a.len() as int) == a);
    assert(o0.skip(a.len() as int) == b);
    assert(inserted_at(o1, o0, s[idx as int], a.len() as int));
    if o0.len() == 0 {
        assert(a.len() == 0 && b.len() == 0);
        assert(o1 == s[idx as int]);
    }
}

/// `n2` is `n0` with node `c` made the child of node `idx` on side `side` at
/// position `j`.
pub(crate) open spec fn adopted<T>(n0: Seq<Node<T>>, n2: Seq<Node<T>>, idx: usize, c: usize, side: Side, j: int) -> bool {
    &&& n2.len() == n0.len()
    &&& n0.len() <= usize::MAX
    &&& idx < n0.len()
    &&& c < n0.len()
    &&& c != idx
    &&& 0 <= j <= children_of(n0, idx as int, side).len()
    &&& n0[idx as int].parent_index is None
    &&& n0[c as int].parent_index is None
    &&& n0[c as int].parent == (Parent::Node { id: n0[idx as int].id, side })
    &&& n2[c as int].parent_index == Some(idx)
    &&& children_of(n2, idx as int, side) == children_of(n0, idx as int, side).insert(j, c)
    &&& (side == Side::Left ==> right_of(n2, idx as int) == right_of(n0, idx as int))
    &&& (side == Side::Right ==> left_of(n2, idx as int) == left_of(n0, idx as int))
    &&& forall|x: int| 0 <= x < n0.len() ==> {
        &&& (#[trigger] n2[x]).id == n0[x].id
        &&& n2[x].parent == n0[x].parent
        &&& n2[x].content == n0[x].content
        &&& n2[x].effect_deleted == n0[x].effect_deleted
        &&& n2[x].prepare_state == n0[x].prepare_state
        &&& n2[x].base.effect_size == n0[x].base.effect_size
        &&& n2[x].base.prepare_size == n0[x].base.prepare_size
        &&& (x != c ==> n2[x].parent_index == n0[x].parent_index)
        &&& (x != idx ==> n2[x].left_children == n0[x].left_children && n2[x].base.right_children == n0[x].base.right_children)
    }
}

proof fn lemma_adopt_pre<T>(n0: Seq<Node<T>>, s0: Seq<Seq<usize>>, pending: Seq<usize>, idx: usize, c: usize, side: Side)
    requires
        tree_ok(n0, s0),
        n0.len() <= usize::MAX,
        pending_ok_but(n0, pending, idx as int),
        pending.contains(c),
        idx < n0.len(),
        n0[idx as int].parent_index is None,
    ensures
        c < n0.len(),
        c != idx,
        n0[c as int].parent_index is None,
        forall|m: int| 0 <= m < children_of(n0, idx as int, side).len() ==> #[trigger] children_of(n0, idx as int, side)[m] < n0.len()
            && children_of(n0, idx as int, side)[m] != c && children_of(n0, idx as int, side)[m] != idx,
        forall|m: int| 0 <= m < left_of(n0, idx as int).len() ==> #[trigger] left_of(n0, idx as int)[m] < n0.len(),
        forall|m: int| 0 <= m < right_of(n0, idx as int).len() ==> #[trigger] right_of(n0, idx as int)[m] < n0.len(),
{
    let w = choose|w: int| 0 <= w < pending.len() && pending[w] == c;
    assert(pending[w] < n0.len() && pending[w] != idx);
    assert((n0[c as int].parent !is Root && n0[c as int].parent_index is None) <==> pending.contains((c as int) as usize));
    lemma_tree_at(n0, s0, idx as int);
    assert forall|m: int| 0 <= m < left_of(n0, idx as int).len() implies #[trigger] left_of(n0, idx as int)[m] < n0.len() by {
        assert(child_link(n0, idx as int, left_of(n0, idx as int)[m], Side::Left));
    }
    assert forall|m: int| 0 <= m < right_of(n0, idx as int).len() implies #[trigger] right_of(n0, idx as int)[m] < n0.len() by {
        assert(child_link(n0, idx as int, right_of(n0, idx as int)[m], Side::Right));
    }
    assert forall|m: int| 0 <= m < children_of(n0, idx as int, side).len() implies #[trigger] children_of(n0, idx as int, side)[m] < n0.len()
        && children_of(n0, idx as int, side)[m] != c && children_of(n0, idx as int, side)[m] != idx by {
        match side {
            Side::Left => assert(child_link(n0, idx as int, left_of(n0, idx as int)[m], Side::Left)),
            Side::Right => assert(child_link(n0, idx as int, right_of(n0, idx as int)[m], Side::Right)),
        }
    }
}

/// The spans after an adoption keep the shape of the tree.
#[verifier::spinoff_prover]
proof fn lemma_adopt_tree<T>(n0: Seq<Node<T>>, s0: Seq<Seq<usize>>, n2: Seq<Node<T>>, idx: usize, c: usize, side: Side, j: int)
    requires
        tree_ok(n0, s0),
        adopted(n0, n2, idx, c, side, j),
    ensures
        tree_ok(n2, s0.update(idx as int, span_def(n2, s0, idx as int))),
{
    lemma_tree_at(n0, s0, idx as int);
    lemma_adopt_spans(n0, s0, n2, idx, c, side, j);
    lemma_adopt_ranges(n0, s0, n2, idx, c, side, j);
    assert forall|x: int| 0 <= x < n2.len() implies #[trigger] node_links_ok(n2, x) by {
        lemma_adopt_links(n0, s0, n2, idx, c, side, j, x);
    }
    assert forall|i: int, i2: int| 0 <= i < n2.len() && 0 <= i2 < n2.len() && i != i2 implies #[trigger] n2[i].id != #[trigger] n2[i2].id by {
        lemma_tree_ids(n0, s0, i, i2);
    }
    reveal(tree_ok);
}

/// The adopting node's span grows by the adopted node's span.
proof fn lemma_adopt_span_shape<T>(n0: Seq<Node<T>>, s0: Seq<Seq<usize>>, n2: Seq<Node<T>>, idx: usize, c: usize, side: Side, j: int)
    requires
        tree_ok(n0, s0),
        adopted(n0, n2, idx, c, side, j),
    ensures
        exists|a: Seq<usize>, b: Seq<usize>| s0[idx as int] == a + b && #[trigger] span_def(n2, s0, idx as int) == a + s0[c as int] + b,
{
    lemma_tree_at(n0, s0, idx as int);
    let old_cs = children_of(n0, idx as int, side);
    lemma_flat_insert(s0, old_cs, j, c);
    match side {
        Side::Left => {
            let a = flat(s0, old_cs.take(j));
            let b = flat(s0, old_cs.skip(j)) + seq![idx] + flat(s0, right_of(n0, idx as int));
            assert(span_def(n2, s0, idx as int) == a + s0[c as int] + b);
            assert(s0[idx as int] == a + b);
        }
        Side::Right => {
            let a = flat(s0, left_of(n0, idx as int)) + seq![idx] + flat(s0, old_cs.take(j));
            let b = flat(s0, old_cs.skip(j));
            assert(span_def(n2, s0, idx as int) == a + s0[c as int] + b);
            assert(s0[idx as int] == a + b);
        }
    }
}

proof fn lemma_adopt_spans<T>(n0: Seq<Node<T>>, s0: Seq<Seq<usize>>, n2: Seq<Node<T>>, idx: usize, c: usize, side: Side, j: int)
    requires
        tree_ok(n0, s0),
        adopted(n0, n2, idx, c, side, j),
    ensures
        ({
            let s2 = s0.update(idx as int, span_def(n2, s0, idx as int));
            forall|x: int| 0 <= x < n2.len() ==> #[trigger] s2[x] == span_def(n2, s2, x)
        }),
{
    let s2 = s0.update(idx as int, span_def(n2, s0, idx as int));
    lemma_adopt_children(n0, s0, n2, idx, c, side, j);
    assert forall|x: int| 0 <= x < n2.len() implies #[trigger] s2[x] == span_def(n2, s2, x) by {
        lemma_tree_at(n0, s0, x);
        let l = left_of(n2, x);
        let r = right_of(n2, x);
        assert forall|m: int| 0 <= m < l.len() implies 0 <= #[trigger] l[m] < s0.len() && l[m] < s2.len() && s0[l[m] as int] == s2[l[m] as int] by {
            if x != idx as int { assert(l[m] == left_of(n0, x)[m]); }
        }
        assert forall|m: int| 0 <= m < r.len() implies 0 <= #[trigger] r[m] < s0.len() && r[m] < s2.len() && s0[r[m] as int] == s2[r[m] as int] by {
            if x != idx as int { assert(r[m] == right_of(n0, x)[m]); }
        }
        lemma_flat_frame(s0, s2, l);
        lemma_flat_frame(s0, s2, r);
    }
}

proof fn lemma_adopt_ranges<T>(n0: Seq<Node<T>>, s0: Seq<Seq<usize>>, n2: Seq<Node<T>>, idx: usize, c: usize, side: Side, j: int)
    requires
        tree_ok(n0, s0),
        adopted(n0, n2, idx, c, side, j),
    ensures
        ({
            let s2 = s0.update(idx as int, span_def(n2, s0, idx as int));
            forall|i: int, m: int| 0 <= i < n2.len() && 0 <= m < s2[i].len() ==> #[trigger] s2[i][m] < n2.len()
        }),
{
    let s2 = s0.update(idx as int, span_def(n2, s0, idx as int));
    lemma_adopt_children(n0, s0, n2, idx, c, side, j);
    lemma_tree_at(n0, s0, idx as int);
    assert forall|i: int, m: int| 0 <= i < n2.len() && 0 <= m < s2[i].len() implies #[trigger] s2[i][m] < n2.len() by {
        if i == idx as int {
            let y = s2[i][m];
            assert(s2[i].contains(y));
            super::tree::lemma_concat3_contains(flat(s0, left_of(n2, i)), seq![idx], flat(s0, right_of(n2, i)), y);
            lemma_flat_contains(s0, left_of(n2, i), y);
            lemma_flat_contains(s0, right_of(n2, i), y);
            if flat(s0, left_of(n2, i)).contains(y) {
                let q = choose|q: int| 0 <= q < left_of(n2, i).len() && #[trigger] s0[left_of(n2, i)[q] as int].contains(y);
                let w = choose|w: int| 0 <= w < s0[left_of(n2, i)[q] as int].len() && s0[left_of(n2, i)[q] as int][w] == y;
                lemma_tree_at(n0, s0, left_of(n2, i)[q] as int);
            } else if flat(s0, right_of(n2, i)).contains(y) {
                let q = choose|q: int| 0 <= q < right_of(n2, i).len() && #[trigger] s0[right_of(n2, i)[q] as int].contains(y);
                let w = choose|w: int| 0 <= w < s0[right_of(n2, i)[q] as int].len() && s0[right_of(n2, i)[q] as int][w] == y;
                lemma_tree_at(n0, s0, right_of(n2, i)[q] as int);
            } else {
                assert(seq![idx].contains(y));
                assert(seq![idx][0] == y);
            }
        } else {
            lemma_tree_at(n0, s0, i);
        }
    }
}

/// Facts about children before and after an adoption.
proof fn lemma_adopt_children<T>(n0: Seq<Node<T>>, s0: Seq<Seq<usize>>, n2: Seq<Node<T>>, idx: usize, c: usize, side: Side, j: int)
    requires
        tree_ok(n0, s0),
        adopted(n0, n2, idx, c, side, j),
    ensures
        forall|x: int, m: int| 0 <= x < n0.len() && 0 <= m < left_of(n0, x).len() ==>
            (#[trigger] left_of(n0, x)[m]) != idx && left_of(n0, x)[m] != c && left_of(n0, x)[m] < n0.len(),
        forall|x: int, m: int| 0 <= x < n0.len() && 0 <= m < right_of(n0, x).len() ==>
            (#[trigger] right_of(n0, x)[m]) != idx && right_of(n0, x)[m] != c && right_of(n0, x)[m] < n0.len(),
        forall|m: int| 0 <= m < left_of(n2, idx as int).len() ==> #[trigger] left_of(n2, idx as int)[m] < n0.len() && left_of(n2, idx as int)[m] != idx,
        forall|m: int| 0 <= m < right_of(n2, idx as int).len() ==> #[trigger] right_of(n2, idx as int)[m] < n0.len() && right_of(n2, idx as int)[m] != idx,
{
    assert forall|x: int, m: int| 0 <= x < n0.len() && 0 <= m < left_of(n0, x).len() implies
        (#[trigger] left_of(n0, x)[m]) != idx && left_of(n0, x)[m] != c && left_of(n0, x)[m] < n0.len() by {
        lemma_tree_at(n0, s0, x);
        assert(child_link(n0, x, left_of(n0, x)[m], Side::Left));
    }
    assert forall|x: int, m: int| 0 <= x < n0.len() && 0 <= m < right_of(n0, x).len() implies
        (#[trigger] right_of(n0, x)[m]) != idx && right_of(n0, x)[m] != c && right_of(n0, x)[m] < n0.len() by {
        lemma_tree_at(n0, s0, x);
        assert(child_link(n0, x, right_of(n0, x)[m], Side::Right));
    }
    let old_cs = children_of(n0, idx as int, side);
    assert forall|m: int| 0 <= m < left_of(n2, idx as int).len() implies #[trigger] left_of(n2, idx as int)[m] < n0.len() && left_of(n2, idx as int)[m] != idx by {
        if side == Side::Left {
            if m < j { assert(left_of(n2, idx as int)[m] == old_cs[m]); } else if m > j { assert(left_of(n2, idx as int)[m] == old_cs[m - 1]); }
        }
    }
    assert forall|m: int| 0 <= m < right_of(n2, idx as int).len() implies #[trigger] right_of(n2, idx as int)[m] < n0.len() && right_of(n2, idx as int)[m] != idx by {
        if side == Side::Right {
            if m < j { assert(right_of(n2, idx as int)[m] == old_cs[m]); } else if m > j { assert(right_of(n2, idx as int)[m] == old_cs[m - 1]); }
        }
    }
}

proof fn lemma_adopt_links<T>(n0: Seq<Node<T>>, s0: Seq<Seq<usize>>, n2: Seq<Node<T>>, idx: usize, c: usize, side: Side, j: int, x: int)
    requires
        tree_ok(n0, s0),
        adopted(n0, n2, idx, c, side, j),
        0 <= x < n2.len(),
    ensures
        node_links_ok(n2, x),
{
    lemma_tree_at(n0, s0, x);
    lemma_adopt_children(n0, s0, n2, idx, c, side, j);
    let old_cs = children_of(n0, idx as int, side);
    let new_cs = children_of(n2, idx as int, side);
    if x == idx as int {
        assert forall|m: int| 0 <= m < left_of(n2, x).len() implies #[trigger] child_link(n2, x, left_of(n2, x)[m], Side::Left) by {
            if side == Side::Left {
                if m < j { assert(left_of(n2, x)[m] == left_of(n0, x)[m]); assert(child_link(n0, x, left_of(n0, x)[m], Side::Left)); }
                else if m > j { assert(left_of(n2, x)[m] == left_of(n0, x)[m - 1]); assert(child_link(n0, x, left_of(n0, x)[m - 1], Side::Left)); }
            } else {
                assert(child_link(n0, x, left_of(n0, x)[m], Side::Left));
            }
        }
        assert forall|m: int| 0 <= m < right_of(n2, x).len() implies #[trigger] child_link(n2, x, right_of(n2, x)[m], Side::Right) by {
            if side == Side::Right {
                if m < j { assert(right_of(n2, x)[m] == right_of(n0, x)[m]); assert(child_link(n0, x, right_of(n0, x)[m], Side::Right)); }
                else if m > j { assert(right_of(n2, x)[m] == right_of(n0, x)[m - 1]); assert(child_link(n0, x, right_of(n0, x)[m - 1], Side::Right)); }
            } else {
                assert(child_link(n0, x, right_of(n0, x)[m], Side::Right));
            }
        }
        assert(!old_cs.contains(c)) by {
            if old_cs.contains(c) {
                let m = choose|m: int| 0 <= m < old_cs.len() && old_cs[m] == c;
                match side {
                    Side::Left => assert(child_link(n0, x, left_of(n0, x)[m], Side::Left)),
                    Side::Right => assert(child_link(n0, x, right_of(n0, x)[m], Side::Right)),
                }
            }
        }
        assert(new_cs.no_duplicates()) by {
            assert forall|a: int, b: int| 0 <= a < new_cs.len() && 0 <= b < new_cs.len() && a != b implies new_cs[a] != new_cs[b] by {
                if a != j && b != j {
                    let a0 = if a < j { a } else { a - 1 };
                    let b0 = if b < j { b } else { b - 1 };
                    assert(new_cs[a] == old_cs[a0] && new_cs[b] == old_cs[b0]);
                } else if a == j {
                    let b0 = if b < j { b } else { b - 1 };
                    assert(new_cs[b] == old_cs[b0]);
                    assert(old_cs.contains(old_cs[b0]));
                } else {
                    let a0 = if a < j { a } else { a - 1 };
                    assert(new_cs[a] == old_cs[a0]);
                }
            }
        }
    } else {
        assert forall|m: int| 0 <= m < left_of(n2, x).len() implies #[trigger] child_link(n2, x, left_of(n2, x)[m], Side::Left) by {
            assert(child_link(n0, x, left_of(n0, x)[m], Side::Left));
        }
        assert forall|m: int| 0 <= m < right_of(n2, x).len() implies #[trigger] child_link(n2, x, right_of(n2, x)[m], Side::Right) by {
            assert(child_link(n0, x, right_of(n0, x)[m], Side::Right));
        }
        if x == c as int {
            assert(new_cs[j] == c);
            assert(new_cs.contains(c));
        } else if n2[x].parent_index is Some {
            let p = n2[x].parent_index->0;
            if p == idx {
                let sd = match n0[x].parent { Parent::Node { side: sd, .. } => sd, Parent::Root => Side::Left };
                let m = choose|m: int| 0 <= m < children_of(n0, idx as int, sd).len() && children_of(n0, idx as int, sd)[m] == x;
                if sd == side {
                    if m < j { assert(new_cs[m] == x); } else { assert(new_cs[m + 1] == x); }
                }
            }
        }
    }
}

/// The count of the adopting node's new span is the sum of the two counts.
proof fn lemma_adopt_cnt<T>(n0: Seq<Node<T>>, s0: Seq<Seq<usize>>, n2: Seq<Node<T>>, idx: usize, c: usize, side: Side, j: int, v: walker::View)
    requires
        tree_ok(n0, s0),
        adopted(n0, n2, idx, c, side, j),
    ensures
        cnt(n0, span_def(n2, s0, idx as int), v) == cnt(n0, s0[idx as int], v) + cnt(n0, s0[c as int], v),
{
    lemma_adopt_span_shape(n0, s0, n2, idx, c, side, j);
    let (a, b) = choose|a: Seq<usize>, b: Seq<usize>| s0[idx as int] == a + b && #[trigger] span_def(n2, s0, idx as int) == a + s0[c as int] + b;
    lemma_cnt_concat(n0, a, s0[c as int], v);
    lemma_cnt_concat(n0, a + s0[c as int], b, v);
    lemma_cnt_concat(n0, a, b, v);
}

/// After an adoption and the size update of the adopting node, every size is
/// current.
proof fn lemma_adopt_sizes<T>(n0: Seq<Node<T>>, s0: Seq<Seq<usize>>, n2: Seq<Node<T>>, n3: Seq<Node<T>>, idx: usize, c: usize, side: Side, j: int)
    requires
        tree_ok(n0, s0),
        sizes_ok(n0, s0),
        adopted(n0, n2, idx, c, side, j),
        tree_ok(n2, s0.update(idx as int, span_def(n2, s0, idx as int))),
        n3.len() == n2.len(),
        forall|x: int| 0 <= x < n3.len() && x != idx ==> #[trigger] n3[x] == n2[x],
        n3[idx as int].content == n2[idx as int].content,
        n3[idx as int].effect_deleted == n2[idx as int].effect_deleted,
        n3[idx as int].prepare_state == n2[idx as int].prepare_state,
        n3[idx as int].base.effect_size == n0[idx as int].base.effect_size + n0[c as int].base.effect_size,
        n3[idx as int].base.prepare_size == n0[idx as int].base.prepare_size + n0[c as int].base.prepare_size,
    ensures
        sizes_ok(n3, s0.update(idx as int, span_def(n2, s0, idx as int))),
{
    let s2 = s0.update(idx as int, span_def(n2, s0, idx as int));
    lemma_tree_at(n0, s0, idx as int);
    assert forall|y: int| 0 <= y < n0.len() implies visible(#[trigger] n3[y], walker::View::Effect) == visible(n0[y], walker::View::Effect)
        && visible(n3[y], walker::View::Prepare) == visible(n0[y], walker::View::Prepare) && n3[y].content == n0[y].content by {
        assert(n2[y].effect_deleted == n0[y].effect_deleted);
    }
    assert forall|x: int| 0 <= x < n3.len() implies {
        &&& (#[trigger] n3[x]).base.effect_size == cnt(n3, s2[x], walker::View::Effect)
        &&& n3[x].base.prepare_size == cnt(n3, s2[x], walker::View::Prepare)
        &&& n3[x].prepare_state matches PrepareState::Deleted(n) ==> n >= 1
    } by {
        lemma_tree_at(n2, s2, x);
        assert forall|k: int| 0 <= k < s2[x].len() implies visible(n0[s2[x][k] as int], walker::View::Effect) == visible(n3[s2[x][k] as int], walker::View::Effect)
            && visible(n0[s2[x][k] as int], walker::View::Prepare) == visible(n3[s2[x][k] as int], walker::View::Prepare)
            && n0[s2[x][k] as int].content == n3[s2[x][k] as int].content by {
            let y = s2[x][k] as int;
            assert(visible(n3[y], walker::View::Effect) == visible(n0[y], walker::View::Effect));
        }
        lemma_cnt_frame(n0, n3, s2[x], walker::View::Effect);
        lemma_cnt_frame(n0, n3, s2[x], walker::View::Prepare);
        assert(n0[x].base.effect_size == cnt(n0, s0[x], walker::View::Effect));
        assert(n2[x].prepare_state == n0[x].prepare_state);
        if x == idx as int {
            assert(n0[c as int].base.effect_size == cnt(n0, s0[c as int], walker::View::Effect));
            lemma_adopt_cnt(n0, s0, n2, idx, c, side, j, walker::View::Effect);
            lemma_adopt_cnt(n0, s0, n2, idx, c, side, j, walker::View::Prepare);
        } else {
            assert(n2[x].base.effect_size == n0[x].base.effect_size);
        }
    }
}

/// An adoption changes neither the root's children nor its sizes.
proof fn lemma_adopt_root<T>(n0: Seq<Node<T>>, s0: Seq<Seq<usize>>, n3: Seq<Node<T>>, s2: Seq<Seq<usize>>, rc: Seq<usize>, idx: usize)
    requires
        tree_ok(n0, s0),
        root_ok_but(n0, rc, idx as int),
        !rc.contains(idx),
        idx < n0.len(),
        s2.len() == s0.len(),
        forall|i: int| 0 <= i < s0.len() && i != idx ==> s2[i] == s0[i],
        n3.len() == n0.len(),
        forall|x: int| 0 <= x < n0.len() ==> {
            &&& (#[trigger] n3[x]).id == n0[x].id
            &&& n3[x].parent == n0[x].parent
            &&& n3[x].content == n0[x].content
            &&& n3[x].effect_deleted == n0[x].effect_deleted
            &&& n3[x].prepare_state == n0[x].prepare_state
            &&& (n0[x].parent == Parent::Root ==> n3[x].parent_index == n0[x].parent_index)
        },
    ensures
        flat(s2, rc) == flat(s0, rc),
        cnt(n3, flat(s2, rc), walker::View::Effect) == cnt(n0, flat(s0, rc), walker::View::Effect),
        cnt(n3, flat(s2, rc), walker::View::Prepare) == cnt(n0, flat(s0, rc), walker::View::Prepare),
        root_ok_but(n3, rc, idx as int),
{
    assert forall|m: int| 0 <= m < rc.len() implies 0 <= #[trigger] rc[m] < s0.len() && rc[m] < s2.len() && s0[rc[m] as int] == s2[rc[m] as int] by {
        assert(rc.contains(rc[m]));
        lemma_tree_at(n0, s0, rc[m] as int);
    }
    lemma_flat_frame(s0, s2, rc);
    lemma_order_nodup(n0, s0, rc);
    lemma_cnt_frame(n0, n3, flat(s0, rc), walker::View::Effect);
    lemma_cnt_frame(n0, n3, flat(s0, rc), walker::View::Prepare);
    assert forall|m: int| 0 <= m < rc.len() implies #[trigger] rc[m] < n3.len() && n3[rc[m] as int].parent == Parent::Root
        && n3[rc[m] as int].parent_index is None by {
        assert(n0[rc[m] as int].parent == Parent::Root);
    }
    assert forall|i: int| 0 <= i < n3.len() && #[trigger] n3[i].parent == Parent::Root implies n3[i].parent_index is None by {
        assert(n0[i].parent == Parent::Root);
    }
    assert forall|i: int| 0 <= i < n3.len() && i != idx && #[trigger] n3[i].parent == Parent::Root implies rc.contains(i as usize) by {
        assert(n0[i].parent == Parent::Root);
    }
}

/// Removing the adopted node from the pending list keeps it exact.
proof fn lemma_adopt_pending<T>(n0: Seq<Node<T>>, n3: Seq<Node<T>>, op: Seq<usize>, k: int, idx: usize, c: usize)
    requires
        pending_ok_but(n0, op, idx as int),
        n0.len() <= usize::MAX,
        0 <= k < op.len(),
        op[k] == c,
        n3.len() == n0.len(),
        c < n0.len(),
        n3[c as int].parent_index is Some,
        forall|x: int| 0 <= x < n0.len() ==> (#[trigger] n3[x]).parent == n0[x].parent,
        forall|x: int| 0 <= x < n0.len() && x != c ==> (#[trigger] n3[x]).parent_index == n0[x].parent_index,
    ensures
        pending_ok_but(n3, op.remove(k), idx as int),
{
    let pd = op.remove(k);
    assert forall|a: int, b: int| 0 <= a < pd.len() && 0 <= b < pd.len() && a != b implies pd[a] != pd[b] by {
        let a0 = if a < k { a } else { a + 1 };
        let b0 = if b < k { b } else { b + 1 };
        assert(pd[a] == op[a0] && pd[b] == op[b0]);
    }
    assert forall|w: int| 0 <= w < pd.len() implies #[trigger] pd[w] < n3.len() && pd[w] != idx by {
        let w0 = if w < k { w } else { w + 1 };
        assert(pd[w] == op[w0]);
    }
    assert forall|i: int| 0 <= i < n3.len() && i != idx implies ((n3[i].parent !is Root && n3[i].parent_index is None) <==> #[trigger] pd.contains(i as usize)) by {
        if pd.contains(i as usize) {
            let w = choose|w: int| 0 <= w < pd.len() && pd[w] == i as usize;
            let w0 = if w < k { w } else { w + 1 };
            assert(op[w0] == i as usize);
            assert(op.contains(i as usize));
            assert(w0 != k);
        }
        if n3[i].parent !is Root && n3[i].parent_index is None {
            assert(i != c);
            assert(op.contains(i as usize));
            let w = choose|w: int| 0 <= w < op.len() && op[w] == i as usize;
            assert(w != k);
            if w < k { assert(pd[w] == i as usize); } else { assert(pd[w - 1] == i as usize); }
        }
    }
}

} // verus!
