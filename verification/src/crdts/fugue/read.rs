//! Reading the list: its elements in order, the element before a position,
//! and the ops that a local edit at a position makes.

use vstd::prelude::*;
use crate::crdts::walker;
use super::{List, Node, Side, Parent, Insert, Delete, Op, LogicalOp, LogicalOpError, not_uninserted, visible, docs, cnt, tree_ok, sizes_ok, span_def, left_of, right_of, child_link};
use super::seqs::{flat, lemma_flat_concat, lemma_flat_single};
use super::tree::{lemma_tree_at, lemma_child_shorter, lemma_span_bounded, lemma_order_nodup};
use super::counts::lemma_cnt_concat;

verus! {

impl<T> List<T> {
    /// Appends the node indices of the subtree of node `i`, in order.
    fn collect_span(&self, i: usize, out: &mut Vec<usize>)
        requires
            tree_ok(self.nodes@, self.spans@),
            i < self.nodes@.len(),
        ensures
            final(out)@ == old(out)@ + self.spans@[i as int],
        decreases self.spans@[i as int].len(),
    {
        let ghost s = self.spans@;
        let ghost n = self.nodes@;
        proof {
            lemma_tree_at(n, s, i as int);
        }
        let l = &self.nodes[i].left_children;
        let mut k: usize = 0;
        let ghost out0 = out@;
        proof {
            assert(l@.take(0) == Seq::<usize>::empty());
            assert(flat(s, Seq::<usize>::empty()) == Seq::<usize>::empty());
        }
        while k < l.len()
            invariant
                tree_ok(n, s),
                n == self.nodes@,
                s == self.spans@,
                i < n.len(),
                l@ == left_of(n, i as int),
                k <= l@.len(),
                out@ == out0 + flat(s, l@.take(k as int)),
            decreases l@.len() - k,
        {
            proof {
                lemma_tree_at(n, s, i as int);
                assert(child_link(n, i as int, l@[k as int], Side::Left));
                lemma_child_shorter(n, s, i, Side::Left, k as int);
                assert(l@.take(k as int + 1) == l@.take(k as int) + seq![l@[k as int]]);
                lemma_flat_concat(s, l@.take(k as int), seq![l@[k as int]]);
                lemma_flat_single(s, l@[k as int]);
            }
            self.collect_span(l[k], out);
            k += 1;
        }
        proof {
            assert(l@.take(k as int) == l@);
        }
        out.push(i);
        let r = &self.nodes[i].base.right_children;
        let ghost out1 = out@;
        let mut k: usize = 0;
        proof {
            assert(r@.take(0) == Seq::<usize>::empty());
            assert(out1 + flat(s, Seq::<usize>::empty()) == out1);
        }
        while k < r.len()
            invariant
                tree_ok(n, s),
                n == self.nodes@,
                s == self.spans@,
                i < n.len(),
                r@ == right_of(n, i as int),
                k <= r@.len(),
                out@ == out1 + flat(s, r@.take(k as int)),
            decreases r@.len() - k,
        {
            proof {
                lemma_tree_at(n, s, i as int);
                assert(child_link(n, i as int, r@[k as int], Side::Right));
                lemma_child_shorter(n, s, i, Side::Right, k as int);
                assert(r@.take(k as int + 1) == r@.take(k as int) + seq![r@[k as int]]);
                lemma_flat_concat(s, r@.take(k as int), seq![r@[k as int]]);
                lemma_flat_single(s, r@[k as int]);
            }
            self.collect_span(r[k], out);
            k += 1;
        }
        proof {
            assert(r@.take(k as int) == r@);
            assert(s[i as int] == span_def(n, s, i as int));
        }
    }

    /// The node indices of the list in document order.
    pub(crate) fn collect_order(&self) -> (out: Vec<usize>)
        requires
            self.wf(),
        ensures
            out@ == self.order(),
    {
        let ghost s = self.spans@;
        let ghost n = self.nodes@;
        let rc = &self.root.right_children;
        let mut out: Vec<usize> = Vec::new();
        let mut k: usize = 0;
        proof {
            assert(rc@.take(0) == Seq::<usize>::empty());
            assert(flat(s, Seq::<usize>::empty()) == Seq::<usize>::empty());
        }
        while k < rc.len()
            invariant
                self.wf(),
                n == self.nodes@,
                s == self.spans@,
                rc@ == self.root.right_children@,
                k <= rc@.len(),
                out@ == flat(s, rc@.take(k as int)),
            decreases rc@.len() - k,
        {
            proof {
                assert(rc@.contains(rc@[k as int]));
                assert(rc@.take(k as int + 1) == rc@.take(k as int) + seq![rc@[k as int]]);
                lemma_flat_concat(s, rc@.take(k as int), seq![rc@[k as int]]);
                lemma_flat_single(s, rc@[k as int]);
            }
            self.collect_span(rc[k], &mut out);
            k += 1;
        }
        proof {
            assert(rc@.take(k as int) == rc@);
        }
        out
    }

    /// The elements of view `view`, in order.
    fn elements_in(&self, view: walker::View) -> (out: Vec<&T>)
        requires
            self.wf(),
        ensures
            out@.len() == self.doc(view).len(),
            forall|k: int| 0 <= k < out@.len() ==> *out@[k] == self.doc(view)[k],
    {
        let order = self.collect_order();
        let ghost n = self.nodes@;
        let mut out: Vec<&T> = Vec::new();
        let mut k: usize = 0;
        proof {
            lemma_order_nodup(n, self.spans@, self.root.right_children@);
            assert(order@.take(0) == Seq::<usize>::empty());
        }
        while k < order.len()
            invariant
                self.wf(),
                n == self.nodes@,
                order@ == self.order(),
                forall|j: int| 0 <= j < order@.len() ==> #[trigger] order@[j] < n.len(),
                k <= order@.len(),
                out@.len() == docs(n, order@.take(k as int), view).len(),
                forall|j: int| 0 <= j < out@.len() ==> *out@[j] == docs(n, order@.take(k as int), view)[j],
            decreases order@.len() - k,
        {
            let i = order[k];
            proof {
                assert(order@.take(k as int + 1).drop_last() == order@.take(k as int));
                assert(order@.take(k as int + 1).last() == i);
            }
            let shown = match view {
                walker::View::Effect => !self.nodes[i].effect_deleted,
                walker::View::Prepare => self.nodes[i].prepare_state == super::PrepareState::Inserted,
            };
            if shown {
                out.push(&self.nodes[i].content);
            }
            k += 1;
        }
        proof {
            assert(order@.take(k as int) == order@);
        }
        out
    }

    /// The elements of the effect view, in order.
    pub fn iter(&self) -> (out: Vec<&T>)
        requires
            self.wf(),
        ensures
            out@.len() == self.doc(walker::View::Effect).len(),
            forall|k: int| 0 <= k < out@.len() ==> *out@[k] == self.doc(walker::View::Effect)[k],
    {
        self.elements_in(walker::View::Effect)
    }

    /// The elements of the prepare view, in order.
    pub fn iter_prepare(&self) -> (out: Vec<&T>)
        requires
            self.wf(),
        ensures
            out@.len() == self.doc(walker::View::Prepare).len(),
            forall|k: int| 0 <= k < out@.len() ==> *out@[k] == self.doc(walker::View::Prepare)[k],
    {
        self.elements_in(walker::View::Prepare)
    }
}

/// Node `i`'s span has `target` visible nodes before `i`.
pub(crate) open spec fn found_at<T>(n: Seq<Node<T>>, s: Seq<Seq<usize>>, i: usize, target: int, view: walker::View) -> bool {
    exists|a: Seq<usize>, b: Seq<usize>| #[trigger] (a + seq![i] + b) == s[i as int] && cnt(n, a, view) == target
}

/// Position `target` of node `i`'s span is position `t` of the span of its
/// descendant `c`.
pub(crate) open spec fn subtree_at<T>(n: Seq<Node<T>>, s: Seq<Seq<usize>>, i: usize, target: int, c: usize, t: int, view: walker::View) -> bool {
    &&& c < n.len()
    &&& t < cnt(n, s[c as int], view)
    &&& s[c as int].len() < s[i as int].len()
    &&& exists|a: Seq<usize>, b: Seq<usize>| #[trigger] (a + s[c as int] + b) == s[i as int] && cnt(n, a, view) + t == target
}

/// Where a search for a position inside a subtree ends: at the node itself,
/// in the subtree of one of its children (with the position left to find
/// there), or nowhere.
pub(crate) enum FindNodeResult {
    Found(usize),
    SubTree(usize, usize),
    NotFound,
}

impl<T> List<T> {
    /// Among the sibling subtrees `cs`, finds the one that holds position
    /// `target` of view `view`: its place among `cs`; `target` is left at the
    /// position to find in it, or, if none holds it, past all of them.
    fn search_in_children(&self, view: walker::View, cs: &Vec<usize>, target: &mut usize) -> (r: Option<usize>)
        requires
            tree_ok(self.nodes@, self.spans@),
            sizes_ok(self.nodes@, self.spans@),
            forall|k: int| 0 <= k < cs@.len() ==> #[trigger] cs@[k] < self.nodes@.len(),
        ensures
            r matches Some(k) ==> k < cs@.len() && *final(target) < cnt(self.nodes@, self.spans@[cs@[k as int] as int], view)
                && cnt(self.nodes@, flat(self.spans@, cs@.take(k as int)), view) + *final(target) == *old(target),
            r is None ==> cnt(self.nodes@, flat(self.spans@, cs@), view) + *final(target) == *old(target),
    {
        let ghost s = self.spans@;
        let ghost n = self.nodes@;
        let mut k: usize = 0;
        proof {
            assert(cs@.take(0) == Seq::<usize>::empty());
            assert(flat(s, Seq::<usize>::empty()) == Seq::<usize>::empty());
        }
        while k < cs.len()
            invariant
                sizes_ok(n, s),
                n == self.nodes@,
                s == self.spans@,
                forall|j: int| 0 <= j < cs@.len() ==> #[trigger] cs@[j] < n.len(),
                k <= cs@.len(),
                cnt(n, flat(s, cs@.take(k as int)), view) + *target == *old(target),
            decreases cs@.len() - k,
        {
            let c = cs[k];
            let size = self.nodes[c].base.size(view);
            proof {
                assert(n[c as int].base.effect_size == cnt(n, s[c as int], walker::View::Effect));
                assert(cs@.take(k as int + 1) == cs@.take(k as int) + seq![c]);
                lemma_flat_concat(s, cs@.take(k as int), seq![c]);
                lemma_flat_single(s, c);
                lemma_cnt_concat(n, flat(s, cs@.take(k as int)), s[c as int], view);
            }
            if *target < size {
                return Some(k);
            }
            *target = *target - size;
            k += 1;
        }
        proof {
            assert(cs@.take(k as int) == cs@);
        }
        None
    }

    /// Searches the subtree of node `i` for its position `target` of view
    /// `view`.
    fn search_in_node(&self, view: walker::View, i: usize, target: usize) -> (r: FindNodeResult)
        requires
            tree_ok(self.nodes@, self.spans@),
            sizes_ok(self.nodes@, self.spans@),
            i < self.nodes@.len(),
            target < cnt(self.nodes@, self.spans@[i as int], view),
        ensures
            r matches FindNodeResult::Found(f) ==> f == i && visible(self.nodes@[i as int], view) && found_at(self.nodes@, self.spans@, i, target as int, view),
            r matches FindNodeResult::SubTree(c, t) ==> subtree_at(self.nodes@, self.spans@, i, target as int, c, t as int, view),
            !(r is NotFound),
    {
        let ghost s = self.spans@;
        let ghost n = self.nodes@;
        proof {
            lemma_tree_at(n, s, i as int);
        }
        let l = &self.nodes[i].left_children;
        let r = &self.nodes[i].base.right_children;
        let ghost fl = flat(s, l@);
        let ghost fr = flat(s, r@);
        proof {
            assert forall|k: int| 0 <= k < l@.len() implies #[trigger] l@[k] < n.len() by {
                assert(child_link(n, i as int, l@[k], Side::Left));
            }
            assert forall|k: int| 0 <= k < r@.len() implies #[trigger] r@[k] < n.len() by {
                assert(child_link(n, i as int, r@[k], Side::Right));
            }
            assert(s[i as int] == fl + seq![i] + fr);
            lemma_cnt_concat(n, fl, seq![i], view);
            lemma_cnt_concat(n, fl + seq![i], fr, view);
            super::counts::lemma_cnt_single(n, i, view);
        }
        let mut t: usize = target;
        match self.search_in_children(view, l, &mut t) {
            Some(k) => {
                proof {
                    let c = l@[k as int];
                    lemma_child_shorter(n, s, i, Side::Left, k as int);
                    super::seqs::lemma_flat_split(s, l@, k as int);
                    let a = flat(s, l@.take(k as int));
                    let b = flat(s, l@.skip(k as int + 1)) + seq![i] + fr;
                    assert(a + s[c as int] + b == s[i as int]);
                    assert(cnt(n, a, view) + t == target);
                    assert(subtree_at(n, s, i, target as int, c, t as int, view));
                }
                return FindNodeResult::SubTree(l[k], t);
            }
            None => {}
        }
        let shown = match view {
            walker::View::Effect => !self.nodes[i].effect_deleted,
            walker::View::Prepare => self.nodes[i].prepare_state == super::PrepareState::Inserted,
        };
        if shown {
            if t == 0 {
                proof {
                    assert(fl + seq![i] + fr == s[i as int]);
                    assert(found_at(n, s, i, target as int, view));
                }
                return FindNodeResult::Found(i);
            }
            t = t - 1;
        }
        let ghost t1 = t;
        match self.search_in_children(view, r, &mut t) {
            Some(k) => {
                proof {
                    let c = r@[k as int];
                    lemma_child_shorter(n, s, i, Side::Right, k as int);
                    super::seqs::lemma_flat_split(s, r@, k as int);
                    let a = fl + seq![i] + flat(s, r@.take(k as int));
                    let b = flat(s, r@.skip(k as int + 1));
                    assert(a + s[c as int] + b == s[i as int]);
                    lemma_cnt_concat(n, fl + seq![i], flat(s, r@.take(k as int)), view);
                    assert(cnt(n, fl + seq![i], view) + t1 == target);
                    assert(cnt(n, a, view) + t == target);
                    assert(subtree_at(n, s, i, target as int, c, t as int, view));
                }
                FindNodeResult::SubTree(r[k], t)
            }
            None => FindNodeResult::NotFound,
        }
    }
}

impl<T> List<T> {
    /// Finds the node right before position `offset` of view `view`: none
    /// for position 0, and for position `k` the node of the `k`-th element.
    pub(crate) fn find_before_offset(&self, view: walker::View, offset: usize) -> (r: Result<Option<usize>, LogicalOpError>)
        requires
            self.wf(),
        ensures
            r is Err <==> offset > self.len_in(view),
            r is Err ==> r == Err::<Option<usize>, LogicalOpError>(LogicalOpError::OutOfRange),
            r == Ok::<Option<usize>, LogicalOpError>(None) <==> offset == 0,
            r matches Ok(Some(i)) ==> self.at_rank(i as int, view, offset as int),
    {
        if offset > self.root.size(view) {
            return Err(LogicalOpError::OutOfRange);
        }
        if offset == 0 {
            return Ok(None);
        }
        let ghost s = self.spans@;
        let ghost n = self.nodes@;
        let ghost rc = self.root.right_children@;
        let ghost order = self.order();
        let mut target: usize = offset - 1;
        proof {
            assert forall|k: int| 0 <= k < rc.len() implies #[trigger] rc[k] < n.len() by {
                assert(rc.contains(rc[k]));
            }
            assert(self.root.size_in(view) == cnt(n, order, view));
        }
        let first = self.search_in_children(view, &self.root.right_children, &mut target);
        let k = match first {
            Some(k) => k,
            None => {
                proof { assert(false); }
                return Err(LogicalOpError::OutOfRange);
            }
        };
        let mut idx = self.root.right_children[k];
        let ghost mut pre = flat(s, rc.take(k as int));
        let ghost mut post = flat(s, rc.skip(k as int + 1));
        proof {
            super::seqs::lemma_flat_split(s, rc, k as int);
            lemma_tree_at(n, s, idx as int);
            lemma_span_bounded(n, s, idx);
        }
        loop
            invariant
                self.wf(),
                s == self.spans@,
                n == self.nodes@,
                order == self.order(),
                0 < offset <= self.len_in(view),
                idx < n.len(),
                order == pre + s[idx as int] + post,
                cnt(n, pre, view) + target + 1 == offset,
                target < cnt(n, s[idx as int], view),
                s[idx as int].len() <= n.len(),
            decreases s[idx as int].len(),
        {
            match self.search_in_node(view, idx, target) {
                FindNodeResult::Found(f) => {
                    proof {
                        let (a, b) = choose|a: Seq<usize>, b: Seq<usize>| #[trigger] (a + seq![idx] + b) == s[idx as int] && cnt(n, a, view) == target;
                        let pos: int = (pre.len() + a.len()) as int;
                        assert(order == pre + a + seq![idx] + b + post);
                        assert(order.take(pos + 1) == pre + a + seq![idx]);
                        lemma_cnt_concat(n, pre, a, view);
                        lemma_cnt_concat(n, pre + a, seq![idx], view);
                        super::counts::lemma_cnt_single(n, idx, view);
                        assert(order[pos] == idx);
                        assert(self.holds_rank(idx as int, pos, view, offset as int));
                        assert(self.holds_rank(f as int, pos, view, offset as int));
                        assert(self.at_rank(f as int, view, offset as int));
                    }
                    return Ok(Some(f));
                }
                FindNodeResult::SubTree(c, t) => {
                    proof {
                        let (a, b) = choose|a: Seq<usize>, b: Seq<usize>| #[trigger] (a + s[c as int] + b) == s[idx as int] && cnt(n, a, view) + t == target;
                        lemma_cnt_concat(n, pre, a, view);
                        assert(order == (pre + a) + s[c as int] + (b + post));
                        pre = pre + a;
                        post = b + post;
                        lemma_span_bounded(n, s, c);
                    }
                    idx = c;
                    target = t;
                }
                FindNodeResult::NotFound => {
                    proof { assert(false); }
                    return Err(LogicalOpError::OutOfRange);
                }
            }
        }
    }
}

/// Where a local insert goes: under `parent` (the root for none) on side
/// `side`, and the node that follows the position.
pub(crate) struct InsertPosition {
    pub(crate) parent: Option<usize>,
    pub(crate) side: Side,
    pub(crate) right_origin: Option<usize>,
}

impl<T> List<T> {
    /// The node that follows `left` in the document order `order` (the first
    /// node for none), with the place of `left`.
    fn next_in_order(&self, order: &Vec<usize>, left: Option<usize>) -> (r: (Option<usize>, Ghost<int>))
        requires
            self.wf(),
            order@ == self.order(),
            left matches Some(i) ==> order@.contains(i),
        ensures
            self.left_place(match left { None => None, Some(i) => Some(i as int) }, r.1@),
            r.0 == (if 0 <= r.1@ + 1 < order@.len() { Some(order@[r.1@ + 1]) } else { None }),
    {
        match left {
            None => {
                if order.len() > 0 {
                    (Some(order[0]), Ghost(-1))
                } else {
                    (None, Ghost(-1))
                }
            }
            Some(i) => {
                let mut k: usize = 0;
                while k < order.len()
                    invariant
                        order@ == self.order(),
                        left == Some(i),
                        k <= order@.len(),
                        order@.contains(i),
                        forall|j: int| 0 <= j < k ==> order@[j] != i,
                    decreases order@.len() - k,
                {
                    if order[k] == i {
                        let next = if k + 1 < order.len() { Some(order[k + 1]) } else { None };
                        return (next, Ghost(k as int));
                    }
                    k += 1;
                }
                proof {
                    let w = choose|w: int| 0 <= w < order@.len() && order@[w] == i;
                    assert(order@[w] != i);
                }
                (None, Ghost(-1))
            }
        }
    }

    /// Whether one of the sibling nodes `cs` is in the reach of view `view`.
    fn any_not_uninserted(&self, view: walker::View, cs: &Vec<usize>) -> (r: bool)
        requires
            forall|k: int| 0 <= k < cs@.len() ==> #[trigger] cs@[k] < self.nodes@.len(),
        ensures
            r == exists|k: int| 0 <= k < cs@.len() && #[trigger] not_uninserted(self.nodes@[cs@[k] as int], view),
    {
        let mut k: usize = 0;
        while k < cs.len()
            invariant
                k <= cs@.len(),
                forall|j: int| 0 <= j < cs@.len() ==> #[trigger] cs@[j] < self.nodes@.len(),
                forall|j: int| 0 <= j < k ==> !#[trigger] not_uninserted(self.nodes@[cs@[j] as int], view),
            decreases cs@.len() - k,
        {
            let c = cs[k];
            let reached = match view {
                walker::View::Effect => true,
                walker::View::Prepare => self.nodes[c].prepare_state != super::PrepareState::UnInserted,
            };
            if reached {
                proof { assert(not_uninserted(self.nodes@[cs@[k as int] as int], view)); }
                return true;
            }
            k += 1;
        }
        false
    }

    /// Where a local insert at position `offset` of view `view` goes.
    fn find_insert_position(&self, view: walker::View, offset: usize) -> (r: Result<InsertPosition, LogicalOpError>)
        requires
            self.wf(),
        ensures
            r is Err <==> offset > self.len_in(view),
            r is Err ==> r == Err::<InsertPosition, LogicalOpError>(LogicalOpError::OutOfRange),
            r matches Ok(pos) ==> exists|left: Option<int>, lpos: int| #[trigger] self.left_place(left, lpos)
                && (match left { None => offset == 0, Some(i) => self.at_rank(i, view, offset as int) })
                && pos_choice(*self, view, left, lpos, pos),
    {
        let left = match self.find_before_offset(view, offset) {
            Err(e) => return Err(e),
            Ok(l) => l,
        };
        let order = self.collect_order();
        proof {
            lemma_order_nodup(self.nodes@, self.spans@, self.root.right_children@);
            if left is Some {
                let i = left->0;
                assert(self.at_rank(i as int, view, offset as int));
                let pos = choose|pos: int| #[trigger] self.holds_rank(i as int, pos, view, offset as int);
                assert(order@[pos] == i);
                assert(order@.contains(i));
                assert(i < self.nodes@.len());
            }
        }
        let (right_origin, Ghost(lpos)) = self.next_in_order(&order, left);
        let ghost n = self.nodes@;
        let ghost s = self.spans@;
        let reach = match left {
            None => {
                proof {
                    assert forall|k: int| 0 <= k < self.root.right_children@.len() implies #[trigger] self.root.right_children@[k] < n.len() by {
                        assert(self.root.right_children@.contains(self.root.right_children@[k]));
                    }
                }
                self.any_not_uninserted(view, &self.root.right_children)
            }
            Some(i) => {
                proof {
                    lemma_tree_at(n, s, i as int);
                    assert forall|k: int| 0 <= k < right_of(n, i as int).len() implies #[trigger] right_of(n, i as int)[k] < n.len() by {
                        assert(child_link(n, i as int, right_of(n, i as int)[k], Side::Right));
                    }
                }
                self.any_not_uninserted(view, &self.nodes[i].base.right_children)
            }
        };
        let ghost gl: Option<int> = match left { None => None, Some(i) => Some(i as int) };
        if !reach {
            let pos = InsertPosition { parent: left, side: Side::Right, right_origin };
            proof {
                assert(pos_choice(*self, view, gl, lpos, pos));
                assert(self.left_place(gl, lpos));
            }
            Ok(pos)
        } else {
            proof {
                let cs = self.sibs_of(gl);
                match left {
                    None => assert(cs == self.root.right_children@),
                    Some(i) => assert(cs == self.nodes@[i as int].base.right_children@),
                }
                let k = choose|k: int| 0 <= k < cs.len() && #[trigger] not_uninserted(self.nodes@[cs[k] as int], view);
                assert(not_uninserted(self.nodes@[self.sibs_of(gl)[k] as int], view));
                self.lemma_next_exists(view, gl, lpos);
            }
            let pos = InsertPosition { parent: right_origin, side: Side::Left, right_origin: None };
            proof {
                assert(pos_choice(*self, view, gl, lpos, pos));
                assert(self.left_place(gl, lpos));
            }
            Ok(pos)
        }
    }
}

impl<T> List<T> {
    /// If a right child of `left` (or of the root) is in reach, a node follows
    /// `left` in the order, and it has no left children.
    pub(crate) proof fn lemma_next_exists(&self, v: walker::View, left: Option<int>, lpos: int)
        requires
            self.wf(),
            self.left_place(left, lpos),
            left matches Some(i) ==> 0 <= i < self.nodes@.len(),
            exists|k: int| 0 <= k < self.sibs_of(left).len() && #[trigger] not_uninserted(self.nodes@[self.sibs_of(left)[k] as int], v),
        ensures
            0 <= lpos + 1 < self.order().len(),
            self.order()[lpos + 1] < self.nodes@.len(),
            left_of(self.nodes@, self.order()[lpos + 1] as int).len() == 0,
    {
        let n = self.nodes@;
        let s = self.spans@;
        let rc = self.root.right_children@;
        let o = self.order();
        lemma_order_nodup(n, s, rc);
        match left {
            None => {
                assert(rc.len() > 0);
                assert(rc.contains(rc[0]));
                super::seqs::lemma_flat_split(s, rc, 0);
                assert(rc.take(0) == Seq::<usize>::empty());
                assert(flat(s, Seq::<usize>::empty()) == Seq::<usize>::empty());
                super::tree::lemma_span_first(n, s, rc[0]);
                assert(o[0] == s[rc[0] as int][0]);
            }
            Some(i) => {
                let iu = i as usize;
                assert(o.contains(iu));
                let (a, b) = super::tree::lemma_span_block(n, s, rc, iu);
                lemma_tree_at(n, s, i);
                let l = left_of(n, i);
                let r = right_of(n, i);
                assert(r.len() > 0);
                assert(child_link(n, i, r[0], Side::Right));
                super::seqs::lemma_flat_split(s, r, 0);
                assert(r.take(0) == Seq::<usize>::empty());
                assert(flat(s, Seq::<usize>::empty()) == Seq::<usize>::empty());
                super::tree::lemma_span_first(n, s, r[0]);
                let p2: int = (a.len() + flat(s, l).len()) as int;
                assert(o == a + flat(s, l) + seq![iu] + flat(s, r) + b);
                assert(o[p2] == iu);
                assert(lpos == p2);
                assert(o[p2 + 1] == s[r[0] as int][0]);
            }
        }
    }
}

impl<T> List<T> {
    /// The insert that puts `content` at position `offset` of view `view`.
    pub fn create_insert(&self, view: walker::View, offset: usize, content: Vec<T>) -> (r: Result<Insert<T>, LogicalOpError>)
        requires
            self.wf(),
        ensures
            r is Err <==> offset > self.len_in(view),
            r is Err ==> r == Err::<Insert<T>, LogicalOpError>(LogicalOpError::OutOfRange),
            r matches Ok(ins) ==> ins.content == content && self.insert_position(view, offset as int, ins.parent, ins.right_origin),
    {
        let pos = match self.find_insert_position(view, offset) {
            Err(e) => return Err(e),
            Ok(pos) => pos,
        };
        let parent = match pos.parent {
            Some(p) => Parent::Node { id: self.nodes[p].id, side: pos.side },
            None => Parent::Root,
        };
        let right_origin = match pos.right_origin {
            Some(ro) => Some(self.nodes[ro].id),
            None => None,
        };
        proof {
            let (left, lpos) = choose|left: Option<int>, lpos: int| #[trigger] self.left_place(left, lpos)
                && (match left { None => offset == 0, Some(i) => self.at_rank(i, view, offset as int) })
                && pos_choice(*self, view, left, lpos, pos);
            assert(self.insert_choice(view, left, lpos, parent, right_origin));
            assert(self.insert_position(view, offset as int, parent, right_origin));
        }
        Ok(Insert { parent, right_origin, content })
    }

    /// The deletes that remove `count` elements from position `offset` of
    /// view `view`: one for each element, by its id.
    pub fn create_delete(&self, view: walker::View, offset: usize, count: usize) -> (r: Result<Vec<Delete>, LogicalOpError>)
        requires
            self.wf(),
            offset + count <= usize::MAX,
        ensures
            r is Err <==> count > 0 && offset + count > self.len_in(view),
            r is Err ==> r == Err::<Vec<Delete>, LogicalOpError>(LogicalOpError::OutOfRange),
            r matches Ok(ds) ==> ds@.len() == count && forall|k: int| 0 <= k < count ==> (#[trigger] ds@[k]).count == 1
                && self.id_at_rank(ds@[k].id, view, offset + k + 1),
            self.ids_fit() ==> (r matches Ok(ds) ==> forall|k: int| 0 <= k < ds@.len() ==> #[trigger] ds@[k].id.index + ds@[k].count <= u64::MAX),
    {
        let mut deletes: Vec<Delete> = Vec::new();
        let mut i: usize = 0;
        while i < count
            invariant
                self.wf(),
                i <= count,
                offset + count <= usize::MAX,
                deletes@.len() == i,
                forall|k: int| 0 <= k < i ==> self.has_id((#[trigger] deletes@[k]).id),
                i > 0 ==> offset + i <= self.len_in(view),
                forall|k: int| 0 <= k < i ==> (#[trigger] deletes@[k]).count == 1 && self.id_at_rank(deletes@[k].id, view, offset + k + 1),
            decreases count - i,
        {
            match self.find_before_offset(view, offset + i + 1) {
                Err(e) => {
                    return Err(e);
                }
                Ok(None) => {
                    return Err(LogicalOpError::OutOfRange);
                }
                Ok(Some(idx)) => {
                    proof {
                        assert(self.at_rank(idx as int, view, offset + i + 1));
                        let pos = choose|pos: int| #[trigger] self.holds_rank(idx as int, pos, view, offset + i + 1);
                        lemma_order_nodup(self.nodes@, self.spans@, self.root.right_children@);
                        assert(self.order()[pos] < self.nodes@.len());
                    }
                    deletes.push(Delete { id: self.nodes[idx].id, count: 1 });
                    proof {
                        assert(self.id_at_rank(deletes@[i as int].id, view, offset + i + 1));
                        self.lemma_index_of(self.nodes@[idx as int].id, idx as int);
                    }
                }
            }
            i += 1;
        }
        Ok(deletes)
    }

    /// The op that makes the edit `op` at positions of view `view`.
    pub fn logical_to_physical(&self, view: walker::View, op: LogicalOp<T>) -> (r: Result<Op<T>, LogicalOpError>)
        requires
            self.wf(),
            op matches LogicalOp::Delete { offset, count } ==> offset as usize + count as usize <= usize::MAX,
        ensures
            match op {
                LogicalOp::Insert { offset, content } => match r {
                    Ok(Op::Insert(ins)) => ins.content == content && offset as usize <= self.len_in(view)
                        && self.insert_position(view, offset as usize as int, ins.parent, ins.right_origin),
                    Ok(Op::Delete(_)) => false,
                    Err(e) => e == LogicalOpError::OutOfRange && offset as usize > self.len_in(view),
                },
                LogicalOp::Delete { offset, count } => match r {
                    Ok(Op::Delete(ds)) => !(count as usize > 0 && offset as usize + count as usize > self.len_in(view))
                        && ds@.len() == count as usize && forall|k: int| 0 <= k < count as usize ==> (#[trigger] ds@[k]).count == 1
                            && self.id_at_rank(ds@[k].id, view, offset as usize + k + 1),
                    Ok(Op::Insert(_)) => false,
                    Err(e) => e == LogicalOpError::OutOfRange && count as usize > 0 && offset as usize + count as usize > self.len_in(view),
                },
            },
    {
        match op {
            LogicalOp::Insert { offset, content } => {
                match self.create_insert(view, offset as usize, content) {
                    Ok(ins) => Ok(Op::Insert(ins)),
                    Err(e) => Err(e),
                }
            }
            LogicalOp::Delete { offset, count } => {
                match self.create_delete(view, offset as usize, count as usize) {
                    Ok(ds) => Ok(Op::Delete(ds)),
                    Err(e) => Err(e),
                }
            }
        }
    }
}

impl<T> walker::CountableOp for LogicalOp<T> {
    /// The number of elements the edit inserts.
    fn num_elements(&self) -> (r: u64)
        ensures
            r == match self {
                LogicalOp::Insert { content, .. } => content@.len() as u64,
                LogicalOp::Delete { .. } => 0,
            },
    {
        match self {
            LogicalOp::Insert { content, .. } => content.len() as u64,
            LogicalOp::Delete { .. } => 0,
        }
    }
}

impl<T> walker::CountableOp for Op<T> {
    /// The number of elements the op inserts.
    fn num_elements(&self) -> (r: u64)
        ensures
            r == match self {
                Op::Insert(ins) => ins.content@.len() as u64,
                Op::Delete(_) => 0,
            },
    {
        match self {
            Op::Insert(ins) => ins.content.len() as u64,
            Op::Delete(_) => 0,
        }
    }
}

/// `pos` is the insert position right after `left` at place `lpos`.
pub(crate) open spec fn pos_choice<T>(l: List<T>, v: walker::View, left: Option<int>, lpos: int, pos: InsertPosition) -> bool {
    let o = l.order();
    let next: Option<int> = if 0 <= lpos + 1 < o.len() { Some(o[lpos + 1] as int) } else { None };
    let sibs = l.sibs_of(left);
    let reach = exists|k: int| 0 <= k < sibs.len() && #[trigger] not_uninserted(l.nodes@[sibs[k] as int], v);
    &&& (match pos.parent { None => None, Some(p) => Some(p as int) }) == (if !reach { left } else { next })
    &&& pos.side == (if !reach { Side::Right } else { Side::Left })
    &&& (match pos.right_origin { None => None, Some(p) => Some(p as int) }) == (if !reach { next } else { None })
    &&& (reach ==> next is Some)
    &&& (match pos.parent { None => true, Some(p) => p < l.nodes@.len() })
    &&& (match pos.right_origin { None => true, Some(p) => p < l.nodes@.len() })
}

} // verus!
