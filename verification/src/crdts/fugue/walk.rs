//! Attaching an inserted node under an existing parent: the spans of the
//! parent and of each of its ancestors grow by the inserted node's span.

use vstd::prelude::*;
use crate::crdts::walker;
use super::{List, Node, Parent, Side, visible, sizes_ok, root_ok, root_ok_but, pending_ok, pending_ok_but, tree_ok, span_def, children_of, left_of, right_of, node_links_ok, child_link, cnt};
use super::counts::{lemma_cnt_concat, lemma_cnt_bounds, lemma_cnt_frame};
use super::seqs::{flat, lemma_flat_frame, lemma_flat_insert, lemma_flat_replace, lemma_flat_contains};
use super::insert::inserted_at;
use super::siblings::{siblings_sorted, children_in_range, lemma_sorted_link, lemma_sorted_shape};
use super::tree::{lemma_tree_at, lemma_tree_ids, lemma_span_bounded, lemma_span_nodup, lemma_sub, lemma_laminar,
    lemma_parent_in_span, lemma_not_in_child_of, lemma_ancestor_step, lemma_span_contains,
    lemma_order_nodup, lemma_shape_frame, shape_eq};

verus! {

/// `n` is `n0` with node `idx` (which hung nowhere) made the child of node `p`
/// on side `side` at position `j`.
pub(crate) open spec fn linked<T>(n0: Seq<Node<T>>, n: Seq<Node<T>>, idx: usize, p: usize, side: Side, j: int) -> bool {
    &&& n.len() == n0.len()
    &&& n0.len() <= usize::MAX
    &&& idx < n0.len()
    &&& p < n0.len()
    &&& idx != p
    &&& 0 <= j <= children_of(n0, p as int, side).len()
    &&& n0[idx as int].parent_index is None
    &&& n0[idx as int].parent == (Parent::Node { id: n0[p as int].id, side })
    &&& n[idx as int].parent_index == Some(p)
    &&& children_of(n, p as int, side) == children_of(n0, p as int, side).insert(j, idx)
    &&& (side == Side::Left ==> right_of(n, p as int) == right_of(n0, p as int))
    &&& (side == Side::Right ==> left_of(n, p as int) == left_of(n0, p as int))
    &&& forall|x: int| 0 <= x < n0.len() ==> {
        &&& (#[trigger] n[x]).id == n0[x].id
        &&& n[x].parent == n0[x].parent
        &&& n[x].content == n0[x].content
        &&& n[x].effect_deleted == n0[x].effect_deleted
        &&& n[x].prepare_state == n0[x].prepare_state
        &&& (x != idx ==> n[x].parent_index == n0[x].parent_index)
        &&& (x != p ==> n[x].left_children == n0[x].left_children && n[x].base.right_children == n0[x].base.right_children)
    }
}

/// The state of the walk up from the new parent: every span but the current
/// node's matches its children; the current node's children already hold the
/// inserted subtree at position `q` of its (old) span.
pub(crate) open spec fn walk_ok<T>(s: Seq<Seq<usize>>, n: Seq<Node<T>>, g: Seq<Seq<usize>>, idx: usize, p: usize, cur: usize, q: int) -> bool {
    &&& g.len() == s.len()
    &&& s.len() == n.len()
    &&& cur < n.len()
    &&& s[cur as int].contains(p)
    &&& forall|x: int| 0 <= x < g.len() && x != cur ==> #[trigger] g[x] == span_def(n, g, x)
    &&& 0 <= q <= g[cur as int].len()
    &&& span_def(n, g, cur as int) == g[cur as int].take(q) + s[idx as int] + g[cur as int].skip(q)
    &&& forall|x: int| 0 <= x < g.len() && #[trigger] g[x] != s[x] ==> s[cur as int].contains(x as usize) && x != cur
    &&& forall|i: int, k: int| 0 <= i < g.len() && 0 <= k < g[i].len() ==> #[trigger] g[i][k] < n.len()
}

/// Where the inserted subtree lands next to a known node.
pub(crate) open spec fn anchor_ok(sc: Seq<usize>, q: int, anc: Option<(bool, usize)>) -> bool {
    match anc {
        Some((true, a)) => q >= 1 && q - 1 < sc.len() && sc[q - 1] == a,
        Some((false, a)) => 0 <= q < sc.len() && sc[q] == a,
        None => true,
    }
}

/// The spans of the new parent's ancestors do not meet the inserted subtree.
pub(crate) proof fn lemma_walk_disjoint<T>(n0: Seq<Node<T>>, s: Seq<Seq<usize>>, idx: usize, p: usize, x: usize)
    requires
        tree_ok(n0, s),
        idx < n0.len(),
        p < n0.len(),
        x < n0.len(),
        n0.len() <= usize::MAX,
        n0[idx as int].parent_index is None,
        !s[idx as int].contains(p),
        s[x as int].contains(p),
    ensures
        x != idx,
        !s[idx as int].contains(x),
        forall|y: usize| s[x as int].contains(y) ==> !s[idx as int].contains(y),
        s[x as int].len() + s[idx as int].len() <= n0.len(),
        (s[x as int] + s[idx as int]).no_duplicates(),
{
    lemma_span_bounded(n0, s, idx);
    lemma_span_bounded(n0, s, x);
    if s[idx as int].contains(x) {
        lemma_sub(n0, s, idx, x);
    }
    assert forall|y: usize| s[x as int].contains(y) implies !s[idx as int].contains(y) by {
        if s[idx as int].contains(y) {
            lemma_laminar(n0, s, x, idx, y);
            if s[x as int].contains(idx) {
                lemma_parent_in_span(n0, s, x, idx);
            } else {
                lemma_sub(n0, s, idx, x);
            }
        }
    }
    lemma_span_nodup(n0, s, x);
    lemma_span_nodup(n0, s, idx);
    let c = s[x as int] + s[idx as int];
    assert forall|i: int, k: int| 0 <= i < s[x as int].len() && 0 <= k < s[idx as int].len() implies s[x as int][i] != s[idx as int][k] by {
        assert(s[x as int].contains(s[x as int][i]));
        assert(s[idx as int].contains(s[idx as int][k]));
    }
    vstd::seq_lib::lemma_no_dup_in_concat(s[x as int], s[idx as int]);
    lemma_tree_at(n0, s, x as int);
    lemma_tree_at(n0, s, idx as int);
    assert forall|k: int| 0 <= k < c.len() implies #[trigger] c[k] < n0.len() by {
        if k < s[x as int].len() { assert(c[k] == s[x as int][k]); } else { assert(c[k] == s[idx as int][k - s[x as int].len()]); }
    }
    super::seqs::lemma_nodup_bounded_len(c, n0.len());
}

/// The links after attaching `idx` under `p` keep the shape predicates.
#[verifier::spinoff_prover]
pub(crate) proof fn lemma_linked_links<T>(n0: Seq<Node<T>>, s: Seq<Seq<usize>>, n: Seq<Node<T>>, idx: usize, p: usize, side: Side, j: int, x: int)
    requires
        tree_ok(n0, s),
        linked(n0, n, idx, p, side, j),
        0 <= x < n.len(),
    ensures
        node_links_ok(n, x),
{
    lemma_tree_at(n0, s, x);
    lemma_tree_at(n0, s, p as int);
    let old_cs = children_of(n0, p as int, side);
    let new_cs = children_of(n, p as int, side);
    assert(!old_cs.contains(idx)) by {
        if old_cs.contains(idx) {
            let m = choose|m: int| 0 <= m < old_cs.len() && old_cs[m] == idx;
            match side {
                Side::Left => assert(child_link(n0, p as int, left_of(n0, p as int)[m], Side::Left)),
                Side::Right => assert(child_link(n0, p as int, right_of(n0, p as int)[m], Side::Right)),
            }
        }
    }
    assert(new_cs[j] == idx);
    assert(new_cs.no_duplicates()) by {
        assert forall|a: int, b: int| 0 <= a < new_cs.len() && 0 <= b < new_cs.len() && a != b implies new_cs[a] != new_cs[b] by {
            if a != j && b != j {
                let a0 = if a < j { a } else { a - 1 };
                let b0 = if b < j { b } else { b - 1 };
                assert(new_cs[a] == old_cs[a0] && new_cs[b] == old_cs[b0]);
            } else if a == j {
                let b0 = if b < j { b } else { b - 1 };
                assert(new_cs[b] == old_cs[b0]);
                assert(old_cs.contains(old_cs[b0]));
            } else {
                let a0 = if a < j { a } else { a - 1 };
                assert(new_cs[a] == old_cs[a0]);
                assert(old_cs.contains(old_cs[a0]));
            }
        }
    }
    let nl = left_of(n, x);
    let nr = right_of(n, x);
    assert forall|m: int| 0 <= m < nl.len() implies #[trigger] child_link(n, x, nl[m], Side::Left) by {
        if x == p as int && side == Side::Left && m == j {
            assert(nl[m] == idx);
        } else {
            let m0 = if x == p as int && side == Side::Left && m > j { m - 1 } else { m };
            assert(nl[m] == left_of(n0, x)[m0]);
            assert(child_link(n0, x, left_of(n0, x)[m0], Side::Left));
        }
    }
    assert forall|m: int| 0 <= m < nr.len() implies #[trigger] child_link(n, x, nr[m], Side::Right) by {
        if x == p as int && side == Side::Right && m == j {
            assert(nr[m] == idx);
        } else {
            let m0 = if x == p as int && side == Side::Right && m > j { m - 1 } else { m };
            assert(nr[m] == right_of(n0, x)[m0]);
            assert(child_link(n0, x, right_of(n0, x)[m0], Side::Right));
        }
    }
    assert(nl.no_duplicates());
    assert(nr.no_duplicates());
    if x == idx as int {
        assert(new_cs.contains(idx));
    } else if n[x].parent_index is Some {
        let pp = n[x].parent_index->0;
        assert(n0[x].parent_index == Some(pp));
        let sd = match n0[x].parent { Parent::Node { side: sd, .. } => sd, Parent::Root => Side::Left };
        assert(children_of(n0, pp as int, sd).contains(x as usize));
        let m = choose|m: int| 0 <= m < children_of(n0, pp as int, sd).len() && children_of(n0, pp as int, sd)[m] == x as usize;
        if pp == p && sd == side {
            if m < j { assert(new_cs[m] == x as usize); } else { assert(new_cs[m + 1] == x as usize); }
        } else {
            assert(children_of(n, pp as int, sd) == children_of(n0, pp as int, sd));
        }
        assert(children_of(n, pp as int, sd).contains(x as usize));
    }
}

/// Right after linking, the spans of every node but the new parent still
/// match their children.
#[verifier::spinoff_prover]
proof fn lemma_walk_start_others<T>(n0: Seq<Node<T>>, s: Seq<Seq<usize>>, n: Seq<Node<T>>, idx: usize, p: usize, side: Side, j: int)
    requires
        tree_ok(n0, s),
        linked(n0, n, idx, p, side, j),
    ensures
        forall|x: int| 0 <= x < s.len() && x != p ==> #[trigger] s[x] == span_def(n, s, x),
        forall|i: int, k: int| 0 <= i < s.len() && 0 <= k < s[i].len() ==> #[trigger] s[i][k] < n.len(),
        s.len() == n.len(),
{
    lemma_tree_at(n0, s, p as int);
    assert forall|x: int| 0 <= x < s.len() && x != p implies #[trigger] s[x] == span_def(n, s, x) by {
        lemma_tree_at(n0, s, x);
        assert(left_of(n, x) == left_of(n0, x));
        assert(right_of(n, x) == right_of(n0, x));
    }
    assert forall|i: int, k: int| 0 <= i < s.len() && 0 <= k < s[i].len() implies #[trigger] s[i][k] < n.len() by {
        lemma_tree_at(n0, s, i);
    }
}

/// Right after linking, the new parent's span grows by the inserted span at
/// the place of the new child among its siblings.
#[verifier::spinoff_prover]
proof fn lemma_walk_start_parent<T>(n0: Seq<Node<T>>, s: Seq<Seq<usize>>, n: Seq<Node<T>>, idx: usize, p: usize, side: Side, j: int) -> (q: int)
    requires
        tree_ok(n0, s),
        linked(n0, n, idx, p, side, j),
    ensures
        0 <= q <= s[p as int].len(),
        span_def(n, s, p as int) == s[p as int].take(q) + s[idx as int] + s[p as int].skip(q),
        side == Side::Right && j == 0 ==> anchor_ok(s[p as int], q, Some((true, p))),
        side == Side::Left && j == children_of(n0, p as int, side).len() ==> anchor_ok(s[p as int], q, Some((false, p))),
{
    lemma_tree_at(n0, s, p as int);
    let old_cs = children_of(n0, p as int, side);
    lemma_flat_insert(s, old_cs, j, idx);
    let l = left_of(n0, p as int);
    let r = right_of(n0, p as int);
    let a = match side {
        Side::Left => flat(s, old_cs.take(j)),
        Side::Right => flat(s, l) + seq![p] + flat(s, old_cs.take(j)),
    };
    let b = match side {
        Side::Left => flat(s, old_cs.skip(j)) + seq![p] + flat(s, r),
        Side::Right => flat(s, old_cs.skip(j)),
    };
    match side {
        Side::Left => {
            assert(left_of(n, p as int) == old_cs.insert(j, idx));
            assert(right_of(n, p as int) == r);
        }
        Side::Right => {
            assert(right_of(n, p as int) == old_cs.insert(j, idx));
            assert(left_of(n, p as int) == l);
        }
    }
    assert(s[p as int] == a + b);
    assert(span_def(n, s, p as int) == a + s[idx as int] + b);
    assert(s[p as int].take(a.len() as int) == a);
    assert(s[p as int].skip(a.len() as int) == b);
    if side == Side::Left && j == old_cs.len() {
        assert(old_cs.skip(j) == Seq::<usize>::empty());
        assert(flat(s, Seq::<usize>::empty()) == Seq::<usize>::empty());
        assert(b[0] == p);
    }
    if side == Side::Right && j == 0 {
        assert(old_cs.take(j) == Seq::<usize>::empty());
        assert(flat(s, Seq::<usize>::empty()) == Seq::<usize>::empty());
        assert(a[a.len() - 1] == p);
    }
    a.len() as int
}

/// Right after linking, the walk starts at the new parent.
pub(crate) proof fn lemma_walk_start<T>(n0: Seq<Node<T>>, s: Seq<Seq<usize>>, n: Seq<Node<T>>, idx: usize, p: usize, side: Side, j: int) -> (q: int)
    requires
        tree_ok(n0, s),
        linked(n0, n, idx, p, side, j),
    ensures
        walk_ok(s, n, s, idx, p, p, q),
        side == Side::Right && j == 0 ==> anchor_ok(s[p as int], q, Some((true, p))),
        side == Side::Left && j == children_of(n0, p as int, side).len() ==> anchor_ok(s[p as int], q, Some((false, p))),
{
    lemma_span_bounded(n0, s, p);
    lemma_walk_start_others(n0, s, n, idx, p, side, j);
    lemma_walk_start_parent(n0, s, n, idx, p, side, j)
}

/// Facts about the current node of a walk and its parent `a`.
proof fn lemma_walk_parent<T>(n0: Seq<Node<T>>, s: Seq<Seq<usize>>, n: Seq<Node<T>>, g: Seq<Seq<usize>>,
    idx: usize, p: usize, side: Side, j: int, cur: usize, q: int, a: usize)
    requires
        tree_ok(n0, s),
        linked(n0, n, idx, p, side, j),
        !s[idx as int].contains(p),
        walk_ok(s, n, g, idx, p, cur, q),
        n[cur as int].parent_index == Some(a),
    ensures
        cur != idx,
        a != cur,
        a != p,
        a < n.len(),
        n0[cur as int].parent_index == Some(a),
        g[cur as int] == s[cur as int],
        g[a as int] == s[a as int],
        s[a as int].contains(cur),
        !s[cur as int].contains(a),
        forall|y: usize| s[cur as int].contains(y) ==> s[a as int].contains(y),
        s[a as int].contains(p),
        left_of(n, a as int) == left_of(n0, a as int),
        right_of(n, a as int) == right_of(n0, a as int),
{
    lemma_walk_disjoint(n0, s, idx, p, cur);
    assert(g[cur as int] == s[cur as int]);
    assert(n0[cur as int].parent_index == Some(a));
    lemma_tree_at(n0, s, cur as int);
    lemma_not_in_child_of(n0, s, a, cur);
    lemma_ancestor_step(n0, s, cur, a);
    lemma_span_bounded(n0, s, a);
    lemma_span_bounded(n0, s, cur);
    lemma_sub(n0, s, a, cur);
    assert(g[a as int] == s[a as int]);
    if a == p {
        assert(s[cur as int].contains(p));
    }
}

/// Replacing the span of one child `cur` of node `a` replaces that part of
/// `a`'s span and nothing else.
#[verifier::spinoff_prover]
proof fn lemma_span_def_replace<T>(n: Seq<Node<T>>, g: Seq<Seq<usize>>, g2: Seq<Seq<usize>>, a: usize, cur: usize, sd: Side, od: Side, k: int)
    -> (pp: (Seq<usize>, Seq<usize>))
    requires
        g.len() == g2.len(),
        cur < g.len(),
        0 <= k < children_of(n, a as int, sd).len(),
        children_of(n, a as int, sd)[k] == cur,
        children_of(n, a as int, sd).no_duplicates(),
        forall|i: int| 0 <= i < children_of(n, a as int, sd).len() ==> 0 <= #[trigger] children_of(n, a as int, sd)[i] < g.len(),
        forall|i: int| 0 <= i < g.len() && i != cur ==> g[i] == g2[i],
        sd != od,
        !children_of(n, a as int, od).contains(cur),
        forall|i: int| 0 <= i < children_of(n, a as int, od).len()
            ==> 0 <= #[trigger] children_of(n, a as int, od)[i] < g.len(),
    ensures
        span_def(n, g, a as int) == pp.0 + g[cur as int] + pp.1,
        span_def(n, g2, a as int) == pp.0 + g2[cur as int] + pp.1,
{
    let cs = children_of(n, a as int, sd);
    let os = children_of(n, a as int, od);
    lemma_flat_replace(g, g2, cs, k);
    assert forall|i: int| 0 <= i < os.len() implies 0 <= #[trigger] os[i] < g.len() && os[i] < g2.len() && g[os[i] as int] == g2[os[i] as int] by {
        assert(os[i] != cur);
    }
    lemma_flat_frame(g, g2, os);
    match sd {
        Side::Left => {
            let pre = flat(g, cs.take(k));
            let post = flat(g, cs.skip(k + 1)) + seq![a] + flat(g, os);
            assert(span_def(n, g, a as int) == pre + g[cur as int] + post);
            assert(span_def(n, g2, a as int) == pre + g2[cur as int] + post);
            (pre, post)
        }
        Side::Right => {
            let pre = flat(g, os) + seq![a] + flat(g, cs.take(k));
            let post = flat(g, cs.skip(k + 1));
            assert(span_def(n, g, a as int) == pre + g[cur as int] + post);
            assert(span_def(n, g2, a as int) == pre + g2[cur as int] + post);
            (pre, post)
        }
    }
}

/// Inserting `x` at `q` inside the middle part of `pre + c + post` inserts it
/// at `pre.len() + q` of the whole.
proof fn lemma_shift_insert(pre: Seq<usize>, c: Seq<usize>, post: Seq<usize>, x: Seq<usize>, q: int)
    requires
        0 <= q <= c.len(),
    ensures
        0 <= pre.len() + q <= (pre + c + post).len(),
        pre + (c.take(q) + x + c.skip(q)) + post
            == (pre + c + post).take(pre.len() + q) + x + (pre + c + post).skip(pre.len() + q),
        forall|anc: Option<(bool, usize)>| anchor_ok(c, q, anc) ==> #[trigger] anchor_ok(pre + c + post, pre.len() + q, anc),
{
    let s = pre + c + post;
    let q2 = pre.len() + q;
    assert(s.take(q2) == pre + c.take(q));
    assert(s.skip(q2) == c.skip(q) + post);
    assert forall|anc: Option<(bool, usize)>| anchor_ok(c, q, anc) implies #[trigger] anchor_ok(s, q2, anc) by {
        match anc {
            Some((true, b)) => assert(s[q2 - 1] == c[q - 1]),
            Some((false, b)) => assert(s[q2] == c[q]),
            None => {}
        }
    }
}

/// In a walk step, the parent's updated span is its old span with the
/// inserted span placed inside the current node's part of it.
#[verifier::spinoff_prover]
proof fn lemma_walk_step_parent<T>(n0: Seq<Node<T>>, s: Seq<Seq<usize>>, n: Seq<Node<T>>, g: Seq<Seq<usize>>,
    idx: usize, p: usize, side: Side, j: int, cur: usize, q: int, a: usize) -> (q2: int)
    requires
        tree_ok(n0, s),
        linked(n0, n, idx, p, side, j),
        !s[idx as int].contains(p),
        walk_ok(s, n, g, idx, p, cur, q),
        n[cur as int].parent_index == Some(a),
    ensures
        0 <= q2 <= s[a as int].len(),
        span_def(n, g.update(cur as int, span_def(n, g, cur as int)), a as int) == s[a as int].take(q2) + s[idx as int] + s[a as int].skip(q2),
        forall|anc: Option<(bool, usize)>| anchor_ok(g[cur as int], q, anc) ==> #[trigger] anchor_ok(s[a as int], q2, anc),
{
    lemma_walk_parent(n0, s, n, g, idx, p, side, j, cur, q, a);
    let g2 = g.update(cur as int, span_def(n, g, cur as int));
    lemma_linked_links(n0, s, n, idx, p, side, j, a as int);
    lemma_linked_links(n0, s, n, idx, p, side, j, cur as int);
    lemma_tree_at(n0, s, a as int);
    let sd = match n[cur as int].parent { Parent::Node { side: sd, .. } => sd, Parent::Root => Side::Left };
    let od = if sd == Side::Left { Side::Right } else { Side::Left };
    let cs = children_of(n, a as int, sd);
    let os = children_of(n, a as int, od);
    assert(cs.contains(cur));
    let k = choose|k: int| 0 <= k < cs.len() && cs[k] == cur;
    assert forall|i: int| 0 <= i < cs.len() implies 0 <= #[trigger] cs[i] < g.len() by {
        match sd {
            Side::Left => assert(child_link(n, a as int, left_of(n, a as int)[i], Side::Left)),
            Side::Right => assert(child_link(n, a as int, right_of(n, a as int)[i], Side::Right)),
        }
    }
    assert forall|i: int| 0 <= i < os.len() implies 0 <= #[trigger] os[i] < g.len() && os[i] != cur by {
        match od {
            Side::Left => assert(child_link(n, a as int, left_of(n, a as int)[i], Side::Left)),
            Side::Right => assert(child_link(n, a as int, right_of(n, a as int)[i], Side::Right)),
        }
    }
    assert(!os.contains(cur));
    let (pre, post) = lemma_span_def_replace(n, g, g2, a, cur, sd, od, k);
    // the old spans of `a`'s children are their spans before the insertion
    assert forall|i: int| 0 <= i < left_of(n, a as int).len() implies 0 <= #[trigger] left_of(n, a as int)[i] < g.len()
        && left_of(n, a as int)[i] < s.len() && g[left_of(n, a as int)[i] as int] == s[left_of(n, a as int)[i] as int] by {
        let c = left_of(n, a as int)[i];
        assert(child_link(n, a as int, c, Side::Left));
        if c != cur && s[cur as int].contains(c) {
            assert(child_link(n0, a as int, left_of(n0, a as int)[i], Side::Left));
            lemma_parent_in_span(n0, s, cur, c);
        }
    }
    assert forall|i: int| 0 <= i < right_of(n, a as int).len() implies 0 <= #[trigger] right_of(n, a as int)[i] < g.len()
        && right_of(n, a as int)[i] < s.len() && g[right_of(n, a as int)[i] as int] == s[right_of(n, a as int)[i] as int] by {
        let c = right_of(n, a as int)[i];
        assert(child_link(n, a as int, c, Side::Right));
        if c != cur && s[cur as int].contains(c) {
            assert(child_link(n0, a as int, right_of(n0, a as int)[i], Side::Right));
            lemma_parent_in_span(n0, s, cur, c);
        }
    }
    lemma_flat_frame(g, s, left_of(n, a as int));
    lemma_flat_frame(g, s, right_of(n, a as int));
    assert(span_def(n, g, a as int) == s[a as int]);
    assert(g2[cur as int] == g[cur as int].take(q) + s[idx as int] + g[cur as int].skip(q));
    lemma_shift_insert(pre, g[cur as int], post, s[idx as int], q);
    pre.len() + q
}

/// In a walk step, every span but the parent's still matches its children.
#[verifier::spinoff_prover]
proof fn lemma_walk_step_others<T>(n0: Seq<Node<T>>, s: Seq<Seq<usize>>, n: Seq<Node<T>>, g: Seq<Seq<usize>>,
    idx: usize, p: usize, side: Side, j: int, cur: usize, q: int, a: usize)
    requires
        tree_ok(n0, s),
        linked(n0, n, idx, p, side, j),
        !s[idx as int].contains(p),
        walk_ok(s, n, g, idx, p, cur, q),
        n[cur as int].parent_index == Some(a),
    ensures
        forall|x: int| 0 <= x < g.len() && x != a ==> #[trigger] g.update(cur as int, span_def(n, g, cur as int))[x]
            == span_def(n, g.update(cur as int, span_def(n, g, cur as int)), x),
{
    lemma_walk_parent(n0, s, n, g, idx, p, side, j, cur, q, a);
    let g2 = g.update(cur as int, span_def(n, g, cur as int));
    assert forall|x: int| 0 <= x < g2.len() && x != a implies #[trigger] g2[x] == span_def(n, g2, x) by {
        lemma_linked_links(n0, s, n, idx, p, side, j, x);
        assert forall|i: int| 0 <= i < left_of(n, x).len() implies 0 <= #[trigger] left_of(n, x)[i] < g.len() && left_of(n, x)[i] < g2.len()
            && g[left_of(n, x)[i] as int] == g2[left_of(n, x)[i] as int] by {
            assert(child_link(n, x, left_of(n, x)[i], Side::Left));
        }
        assert forall|i: int| 0 <= i < right_of(n, x).len() implies 0 <= #[trigger] right_of(n, x)[i] < g.len() && right_of(n, x)[i] < g2.len()
            && g[right_of(n, x)[i] as int] == g2[right_of(n, x)[i] as int] by {
            assert(child_link(n, x, right_of(n, x)[i], Side::Right));
        }
        lemma_flat_frame(g, g2, left_of(n, x));
        lemma_flat_frame(g, g2, right_of(n, x));
    }
}

/// In a walk step, the changed spans stay inside the parent's span and every
/// span stays in range.
#[verifier::spinoff_prover]
proof fn lemma_walk_step_rest<T>(n0: Seq<Node<T>>, s: Seq<Seq<usize>>, n: Seq<Node<T>>, g: Seq<Seq<usize>>,
    idx: usize, p: usize, side: Side, j: int, cur: usize, q: int, a: usize)
    requires
        tree_ok(n0, s),
        linked(n0, n, idx, p, side, j),
        !s[idx as int].contains(p),
        walk_ok(s, n, g, idx, p, cur, q),
        n[cur as int].parent_index == Some(a),
    ensures
        forall|x: int| 0 <= x < g.len() && #[trigger] g.update(cur as int, span_def(n, g, cur as int))[x] != s[x]
            ==> s[a as int].contains(x as usize) && x != a,
        forall|i: int, m: int| 0 <= i < g.len() && 0 <= m < g.update(cur as int, span_def(n, g, cur as int))[i].len()
            ==> #[trigger] g.update(cur as int, span_def(n, g, cur as int))[i][m] < n.len(),
{
    lemma_walk_parent(n0, s, n, g, idx, p, side, j, cur, q, a);
    let g2 = g.update(cur as int, span_def(n, g, cur as int));
    assert forall|x: int| 0 <= x < g2.len() && #[trigger] g2[x] != s[x] implies s[a as int].contains(x as usize) && x != a by {
        if x != cur as int {
            assert(g[x] != s[x]);
        }
    }
    lemma_tree_at(n0, s, idx as int);
    assert forall|i: int, m: int| 0 <= i < g2.len() && 0 <= m < g2[i].len() implies #[trigger] g2[i][m] < n.len() by {
        if i == cur as int {
            let c = g[cur as int];
            if m < q {
                assert(g2[i][m] == c.take(q)[m]);
            } else if m < q + s[idx as int].len() {
                assert(g2[i][m] == s[idx as int][m - q]);
            } else {
                assert(g2[i][m] == c.skip(q)[m - q - s[idx as int].len()]);
            }
        }
    }
}

/// One step of the walk: the current node's span is brought up to date and
/// the walk moves to its parent `a`, where the inserted span now lies at `q2`.
pub(crate) proof fn lemma_walk_step<T>(n0: Seq<Node<T>>, s: Seq<Seq<usize>>, n: Seq<Node<T>>, g: Seq<Seq<usize>>,
    idx: usize, p: usize, side: Side, j: int, cur: usize, q: int, a: usize) -> (q2: int)
    requires
        tree_ok(n0, s),
        linked(n0, n, idx, p, side, j),
        !s[idx as int].contains(p),
        walk_ok(s, n, g, idx, p, cur, q),
        n[cur as int].parent_index == Some(a),
    ensures
        walk_ok(s, n, g.update(cur as int, span_def(n, g, cur as int)), idx, p, a, q2),
        forall|anc: Option<(bool, usize)>| anchor_ok(g[cur as int], q, anc) ==> #[trigger] anchor_ok(s[a as int], q2, anc),
{
    lemma_walk_parent(n0, s, n, g, idx, p, side, j, cur, q, a);
    let q2 = lemma_walk_step_parent(n0, s, n, g, idx, p, side, j, cur, q, a);
    lemma_walk_step_others(n0, s, n, g, idx, p, side, j, cur, q, a);
    lemma_walk_step_rest(n0, s, n, g, idx, p, side, j, cur, q, a);
    q2
}

/// The size of the current node's updated span.
pub(crate) proof fn lemma_walk_cnt<T>(n0: Seq<Node<T>>, s: Seq<Seq<usize>>, n: Seq<Node<T>>, g: Seq<Seq<usize>>,
    idx: usize, p: usize, cur: usize, q: int, v: walker::View)
    requires
        tree_ok(n0, s),
        n0.len() <= usize::MAX,
        idx < n0.len(),
        n0[idx as int].parent_index is None,
        !s[idx as int].contains(p),
        p < n0.len(),
        walk_ok(s, n, g, idx, p, cur, q),
    ensures
        g[cur as int] == s[cur as int],
        cnt(n0, span_def(n, g, cur as int), v) == cnt(n0, g[cur as int], v) + cnt(n0, s[idx as int], v),
        span_def(n, g, cur as int).len() <= n0.len(),
        cnt(n0, span_def(n, g, cur as int), v) <= n0.len(),
{
    lemma_tree_at(n0, s, p as int);
    lemma_walk_disjoint(n0, s, idx, p, cur);
    let c = g[cur as int];
    assert(c == c.take(q) + c.skip(q));
    lemma_cnt_concat(n0, c.take(q), s[idx as int], v);
    lemma_cnt_concat(n0, c.take(q) + s[idx as int], c.skip(q), v);
    lemma_cnt_concat(n0, c.take(q), c.skip(q), v);
    lemma_cnt_bounds(n0, span_def(n, g, cur as int), v);
}

/// At the top of the walk, every span matches its children.
#[verifier::spinoff_prover]
proof fn lemma_walk_finish_tree<T>(n0: Seq<Node<T>>, s: Seq<Seq<usize>>, n: Seq<Node<T>>, g: Seq<Seq<usize>>,
    idx: usize, p: usize, side: Side, j: int, cur: usize, q: int)
    requires
        tree_ok(n0, s),
        linked(n0, n, idx, p, side, j),
        walk_ok(s, n, g, idx, p, cur, q),
        n[cur as int].parent_index is None,
    ensures
        tree_ok(n, g.update(cur as int, span_def(n, g, cur as int))),
{
    let g2 = g.update(cur as int, span_def(n, g, cur as int));
    lemma_tree_at(n0, s, idx as int);
    assert forall|i: int| 0 <= i < n.len() implies #[trigger] node_links_ok(n, i) by {
        lemma_linked_links(n0, s, n, idx, p, side, j, i);
    }
    assert forall|x: int| 0 <= x < n.len() implies #[trigger] g2[x] == span_def(n, g2, x) by {
        assert(node_links_ok(n, x));
        assert forall|i: int| 0 <= i < left_of(n, x).len() implies 0 <= #[trigger] left_of(n, x)[i] < g.len() && left_of(n, x)[i] < g2.len()
            && g[left_of(n, x)[i] as int] == g2[left_of(n, x)[i] as int] by {
            assert(child_link(n, x, left_of(n, x)[i], Side::Left));
        }
        assert forall|i: int| 0 <= i < right_of(n, x).len() implies 0 <= #[trigger] right_of(n, x)[i] < g.len() && right_of(n, x)[i] < g2.len()
            && g[right_of(n, x)[i] as int] == g2[right_of(n, x)[i] as int] by {
            assert(child_link(n, x, right_of(n, x)[i], Side::Right));
        }
        lemma_flat_frame(g, g2, left_of(n, x));
        lemma_flat_frame(g, g2, right_of(n, x));
    }
    assert forall|i: int, m: int| 0 <= i < n.len() && 0 <= m < g2[i].len() implies #[trigger] g2[i][m] < n.len() by {
        if i == cur as int {
            let c = g[cur as int];
            if m < q {
                assert(g2[i][m] == c.take(q)[m]);
            } else if m < q + s[idx as int].len() {
                assert(g2[i][m] == s[idx as int][m - q]);
            } else {
                assert(g2[i][m] == c.skip(q)[m - q - s[idx as int].len()]);
            }
        }
    }
    assert forall|a: int, b: int| 0 <= a < n.len() && 0 <= b < n.len() && a != b implies #[trigger] n[a].id != #[trigger] n[b].id by {
        lemma_tree_ids(n0, s, a, b);
    }
    reveal(tree_ok);
}

/// Linking `idx` below `p` keeps the root and pending invariants, now for
/// every node.
proof fn lemma_linked_root_pending<T>(n0: Seq<Node<T>>, n: Seq<Node<T>>, idx: usize, p: usize, side: Side, j: int,
    rc: Seq<usize>, pending: Seq<usize>)
    requires
        linked(n0, n, idx, p, side, j),
        root_ok_but(n0, rc, idx as int),
        !rc.contains(idx),
        pending_ok_but(n0, pending, idx as int),
    ensures
        root_ok(n, rc),
        pending_ok(n, pending),
{
    assert forall|k: int| 0 <= k < rc.len() implies #[trigger] rc[k] < n.len() && n[rc[k] as int].parent == Parent::Root
        && n[rc[k] as int].parent_index is None by {
        assert(rc.contains(rc[k]));
    }
    assert forall|i: int| 0 <= i < n.len() && #[trigger] n[i].parent == Parent::Root implies rc.contains(i as usize) && n[i].parent_index is None by {
        assert(n0[i].parent == Parent::Root);
    }
    assert forall|k: int| 0 <= k < pending.len() implies #[trigger] pending[k] < n.len() && pending[k] != -1 by {}
    assert forall|i: int| 0 <= i < n.len() implies ((n[i].parent !is Root && n[i].parent_index is None) <==> #[trigger] pending.contains(i as usize)) by {
        if i == idx as int {
            if pending.contains(i as usize) {
                let w = choose|w: int| 0 <= w < pending.len() && pending[w] == i as usize;
                assert(pending[w] != idx);
            }
        }
    }
}

/// At the top of the walk: the document order gains the inserted span if the
/// top hangs on the root, and is unchanged otherwise.
#[verifier::spinoff_prover]
proof fn lemma_walk_finish_order<T>(n0: Seq<Node<T>>, s: Seq<Seq<usize>>, n: Seq<Node<T>>, g: Seq<Seq<usize>>,
    idx: usize, p: usize, side: Side, j: int, cur: usize, q: int, rc: Seq<usize>) -> (oq: int)
    requires
        tree_ok(n0, s),
        linked(n0, n, idx, p, side, j),
        !s[idx as int].contains(p),
        walk_ok(s, n, g, idx, p, cur, q),
        n[cur as int].parent_index is None,
        root_ok_but(n0, rc, idx as int),
        !rc.contains(idx),
    ensures
        n[cur as int].parent == Parent::Root ==> flat(s, rc).contains(p),
        n[cur as int].parent == Parent::Root ==> inserted_at(flat(g.update(cur as int, span_def(n, g, cur as int)), rc), flat(s, rc), s[idx as int], oq),
        n[cur as int].parent == Parent::Root ==> forall|anc: Option<(bool, usize)>| anchor_ok(g[cur as int], q, anc) ==> #[trigger] anchor_ok(flat(s, rc), oq, anc),
        n[cur as int].parent != Parent::Root ==> !flat(s, rc).contains(p),
        n[cur as int].parent != Parent::Root ==> flat(g.update(cur as int, span_def(n, g, cur as int)), rc) == flat(s, rc),
{
    let g2 = g.update(cur as int, span_def(n, g, cur as int));
    lemma_walk_disjoint(n0, s, idx, p, cur);
    lemma_tree_at(n0, s, cur as int);
    assert(cur != idx);
    assert(n0[cur as int].parent_index is None);
    assert(g[cur as int] == s[cur as int]);
    assert forall|k: int| 0 <= k < rc.len() implies 0 <= #[trigger] rc[k] < s.len() && rc[k] < g2.len() && (rc[k] != cur ==> g2[rc[k] as int] == s[rc[k] as int]) by {
        assert(rc.contains(rc[k]));
        if rc[k] != cur && s[cur as int].contains(rc[k]) {
            lemma_parent_in_span(n0, s, cur, rc[k]);
        }
    }
    lemma_flat_contains(s, rc, p);
    if n[cur as int].parent == Parent::Root {
        assert(n0[cur as int].parent == Parent::Root);
        assert(rc.contains(cur));
        let k = choose|k: int| 0 <= k < rc.len() && rc[k] == cur;
        assert(s[rc[k] as int].contains(p));
        assert forall|i: int| 0 <= i < rc.len() implies 0 <= #[trigger] rc[i] < g.len() by {}
        assert forall|i: int| 0 <= i < rc.len() implies 0 <= #[trigger] rc[i] < g.len() && rc[i] < s.len() && g[rc[i] as int] == s[rc[i] as int] by {
            if rc[i] != cur && s[cur as int].contains(rc[i]) {
                assert(rc.contains(rc[i]));
                lemma_parent_in_span(n0, s, cur, rc[i]);
            }
        }
        lemma_flat_frame(g, s, rc);
        lemma_flat_frame(g, s, rc.take(k));
        lemma_flat_frame(g, s, rc.skip(k + 1));
        lemma_flat_replace(g, g2, rc, k);
        let pre = flat(g, rc.take(k));
        let post = flat(g, rc.skip(k + 1));
        lemma_shift_insert(pre, g[cur as int], post, s[idx as int], q);
        pre.len() + q
    } else {
        assert forall|k: int| 0 <= k < rc.len() implies 0 <= #[trigger] rc[k] < s.len() && rc[k] < g2.len() && g2[rc[k] as int] == s[rc[k] as int] by {
            assert(rc.contains(rc[k]));
        }
        lemma_flat_frame(s, g2, rc);
        if flat(s, rc).contains(p) {
            let k = choose|k: int| 0 <= k < rc.len() && #[trigger] s[rc[k] as int].contains(p);
            let r = rc[k];
            assert(rc.contains(r));
            lemma_laminar(n0, s, r, cur, p);
            if s[r as int].contains(cur) {
                lemma_parent_in_span(n0, s, r, cur);
            } else {
                lemma_parent_in_span(n0, s, cur, r);
            }
        }
        0
    }
}

/// `n1` differs from `n0` at most in the subtree sizes.
pub(crate) open spec fn same_but_sizes<T>(n0: Seq<Node<T>>, n1: Seq<Node<T>>) -> bool {
    &&& shape_eq(n0, n1)
    &&& forall|x: int| 0 <= x < n0.len() ==> {
        &&& (#[trigger] n1[x]).content == n0[x].content
        &&& n1[x].effect_deleted == n0[x].effect_deleted
        &&& n1[x].prepare_state == n0[x].prepare_state
    }
}

/// After the walk, every size matches the final spans.
#[verifier::spinoff_prover]
proof fn lemma_end_sizes<T>(n0: Seq<Node<T>>, s: Seq<Seq<usize>>, nl: Seq<Node<T>>, nf: Seq<Node<T>>, g2: Seq<Seq<usize>>)
    requires
        sizes_ok(n0, s),
        tree_ok(nf, g2),
        nl.len() == n0.len(),
        forall|x: int| 0 <= x < n0.len() ==> {
            &&& (#[trigger] nl[x]).content == n0[x].content
            &&& nl[x].effect_deleted == n0[x].effect_deleted
            &&& nl[x].prepare_state == n0[x].prepare_state
        },
        same_but_sizes(nl, nf),
        forall|x: int| 0 <= x < nf.len() ==> {
            &&& (#[trigger] nf[x]).base.effect_size == cnt(n0, g2[x], walker::View::Effect)
            &&& nf[x].base.prepare_size == cnt(n0, g2[x], walker::View::Prepare)
        },
    ensures
        sizes_ok(nf, g2),
        forall|y: int| 0 <= y < n0.len() ==> visible(n0[y], walker::View::Effect) == visible(#[trigger] nf[y], walker::View::Effect)
            && visible(n0[y], walker::View::Prepare) == visible(nf[y], walker::View::Prepare) && n0[y].content == nf[y].content,
{
    assert forall|y: int| 0 <= y < n0.len() implies visible(n0[y], walker::View::Effect) == visible(#[trigger] nf[y], walker::View::Effect)
        && visible(n0[y], walker::View::Prepare) == visible(nf[y], walker::View::Prepare) && n0[y].content == nf[y].content by {
        assert(nl[y].effect_deleted == n0[y].effect_deleted);
        assert(nf[y].effect_deleted == nl[y].effect_deleted);
    }
    assert forall|x: int| 0 <= x < nf.len() implies {
        &&& (#[trigger] nf[x]).base.effect_size == cnt(nf, g2[x], walker::View::Effect)
        &&& nf[x].base.prepare_size == cnt(nf, g2[x], walker::View::Prepare)
        &&& nf[x].prepare_state matches super::PrepareState::Deleted(c) ==> c >= 1
    } by {
        lemma_tree_at(nf, g2, x);
        assert forall|k: int| 0 <= k < g2[x].len() implies visible(n0[g2[x][k] as int], walker::View::Effect) == visible(nf[g2[x][k] as int], walker::View::Effect)
            && visible(n0[g2[x][k] as int], walker::View::Prepare) == visible(nf[g2[x][k] as int], walker::View::Prepare)
            && n0[g2[x][k] as int].content == nf[g2[x][k] as int].content by {
            assert(nf[g2[x][k] as int].content == n0[g2[x][k] as int].content);
        }
        lemma_cnt_frame(n0, nf, g2[x], walker::View::Effect);
        lemma_cnt_frame(n0, nf, g2[x], walker::View::Prepare);
        assert(n0[x].prepare_state matches super::PrepareState::Deleted(c) ==> c >= 1);
        assert(nl[x].prepare_state == n0[x].prepare_state);
    }
}

/// After the walk, the size of the document order.
#[verifier::spinoff_prover]
proof fn lemma_end_counts<T>(n0: Seq<Node<T>>, s: Seq<Seq<usize>>, nf: Seq<Node<T>>, g2: Seq<Seq<usize>>, rc: Seq<usize>,
    idx: usize, oq: int, grew: bool)
    requires
        tree_ok(n0, s),
        tree_ok(nf, g2),
        root_ok(nf, rc),
        root_ok_but(n0, rc, idx as int),
        nf.len() == n0.len(),
        idx < n0.len(),
        forall|y: int| 0 <= y < n0.len() ==> visible(n0[y], walker::View::Effect) == visible(#[trigger] nf[y], walker::View::Effect)
            && visible(n0[y], walker::View::Prepare) == visible(nf[y], walker::View::Prepare) && n0[y].content == nf[y].content,
        grew ==> inserted_at(flat(g2, rc), flat(s, rc), s[idx as int], oq),
        !grew ==> flat(g2, rc) == flat(s, rc),
    ensures
        forall|v: walker::View| #![trigger cnt(nf, flat(g2, rc), v)]
            cnt(nf, flat(g2, rc), v) == cnt(n0, flat(s, rc), v) + if grew { cnt(n0, s[idx as int], v) } else { 0 },
        forall|v: walker::View| #![trigger cnt(nf, flat(g2, rc), v)] cnt(nf, flat(g2, rc), v) <= nf.len(),
{
    lemma_order_nodup(nf, g2, rc);
    let o2 = flat(g2, rc);
    let o0 = flat(s, rc);
    assert forall|v: walker::View| #![trigger cnt(nf, flat(g2, rc), v)]
        cnt(nf, flat(g2, rc), v) == cnt(n0, flat(s, rc), v) + if grew { cnt(n0, s[idx as int], v) } else { 0 }
        && cnt(nf, flat(g2, rc), v) <= nf.len() by {
        assert forall|k: int| 0 <= k < o2.len() implies visible(n0[o2[k] as int], v) == visible(nf[o2[k] as int], v)
            && n0[o2[k] as int].content == nf[o2[k] as int].content by {
            assert(o2[k] < n0.len());
            assert(visible(n0[o2[k] as int], walker::View::Effect) == visible(nf[o2[k] as int], walker::View::Effect));
        }
        lemma_cnt_frame(n0, nf, o2, v);
        lemma_cnt_bounds(nf, o2, v);
        if grew {
            let a = o0.take(oq);
            let b = o0.skip(oq);
            assert(o0 == a + b);
            lemma_cnt_concat(n0, a, s[idx as int], v);
            lemma_cnt_concat(n0, a + s[idx as int], b, v);
            lemma_cnt_concat(n0, a, b, v);
        }
    }
}

/// After the walk, the list with the final spans is well formed, and the
/// document order either gained the inserted span or is unchanged.
#[verifier::spinoff_prover]
proof fn lemma_attach_under_end<T>(n0: Seq<Node<T>>, s: Seq<Seq<usize>>, nl: Seq<Node<T>>, nf: Seq<Node<T>>, g: Seq<Seq<usize>>,
    idx: usize, p: usize, side: Side, j: int, cur: usize, q: int, rc: Seq<usize>, pending: Seq<usize>) -> (oq: int)
    requires
        tree_ok(n0, s),
        sizes_ok(n0, s),
        linked(n0, nl, idx, p, side, j),
        !s[idx as int].contains(p),
        walk_ok(s, nl, g, idx, p, cur, q),
        nl[cur as int].parent_index is None,
        root_ok_but(n0, rc, idx as int),
        !rc.contains(idx),
        pending_ok_but(n0, pending, idx as int),
        same_but_sizes(nl, nf),
        forall|x: int| 0 <= x < nf.len() ==> {
            &&& (#[trigger] nf[x]).base.effect_size == cnt(n0, g.update(cur as int, span_def(nl, g, cur as int))[x], walker::View::Effect)
            &&& nf[x].base.prepare_size == cnt(n0, g.update(cur as int, span_def(nl, g, cur as int))[x], walker::View::Prepare)
        },
    ensures
        ({
            let g2 = g.update(cur as int, span_def(nl, g, cur as int));
            &&& tree_ok(nf, g2)
            &&& root_ok(nf, rc)
            &&& pending_ok(nf, pending)
            &&& sizes_ok(nf, g2)
            &&& g2[idx as int] == s[idx as int]
            &&& forall|v: walker::View| #![trigger cnt(nf, flat(g2, rc), v)]
                    cnt(nf, flat(g2, rc), v) == cnt(n0, flat(s, rc), v) + if nl[cur as int].parent == Parent::Root { cnt(n0, s[idx as int], v) } else { 0 }
            &&& forall|v: walker::View| #![trigger cnt(nf, flat(g2, rc), v)] cnt(nf, flat(g2, rc), v) <= nf.len()
            &&& (nl[cur as int].parent == Parent::Root ==> flat(s, rc).contains(p))
            &&& (nl[cur as int].parent == Parent::Root ==> inserted_at(flat(g2, rc), flat(s, rc), s[idx as int], oq))
            &&& (nl[cur as int].parent == Parent::Root ==> forall|anc: Option<(bool, usize)>| anchor_ok(g[cur as int], q, anc) ==> #[trigger] anchor_ok(flat(s, rc), oq, anc))
            &&& (nl[cur as int].parent != Parent::Root ==> !flat(s, rc).contains(p))
            &&& (nl[cur as int].parent != Parent::Root ==> flat(g2, rc) == flat(s, rc))
        }),
{
    let g2 = g.update(cur as int, span_def(nl, g, cur as int));
    lemma_walk_finish_tree(n0, s, nl, g, idx, p, side, j, cur, q);
    lemma_linked_root_pending(n0, nl, idx, p, side, j, rc, pending);
    let oq = lemma_walk_finish_order(n0, s, nl, g, idx, p, side, j, cur, q, rc);
    lemma_shape_frame(nl, nf, g2, rc, pending);
    lemma_walk_disjoint(n0, s, idx, p, cur);
    lemma_span_bounded(n0, s, idx);
    assert(g[idx as int] == s[idx as int]);
    assert(g2[idx as int] == s[idx as int]);
    lemma_end_sizes(n0, s, nl, nf, g2);
    lemma_end_counts(n0, s, nf, g2, rc, idx, oq, nl[cur as int].parent == Parent::Root);
    oq
}

impl<T> List<T> {
    /// Makes the node `idx` being inserted a child of node `p` on side `side`,
    /// among its siblings by id; no span or size is updated yet.
    fn link_child(&mut self, idx: usize, p: usize, side: Side) -> (j: usize)
        requires
            old(self).wf_but(idx as int),
            p < old(self).nodes@.len(),
            !old(self).spans@[idx as int].contains(p),
            old(self).nodes@[idx as int].parent == (Parent::Node { id: old(self).nodes@[p as int].id, side }),
        ensures
            linked(old(self).nodes@, final(self).nodes@, idx, p, side, j as int),
            forall|x: int| 0 <= x < final(self).nodes@.len() ==> #[trigger] final(self).nodes@[x].base.effect_size == old(self).nodes@[x].base.effect_size
                && final(self).nodes@[x].base.prepare_size == old(self).nodes@[x].base.prepare_size,
            final(self).root == old(self).root,
            final(self).pending_parent == old(self).pending_parent,
            final(self).pending_delete == old(self).pending_delete,
            final(self).spans == old(self).spans,
            siblings_sorted(old(self).nodes@, old(self).root.right_children@)
                ==> siblings_sorted(final(self).nodes@, final(self).root.right_children@)
                && children_in_range(final(self).nodes@, final(self).root.right_children@),
    {
        let ghost n0 = self.nodes@;
        let ghost s = self.spans@;
        let _nlen = self.nodes.len();
        proof {
            lemma_tree_at(n0, s, p as int);
            lemma_tree_at(n0, s, idx as int);
            lemma_span_bounded(n0, s, idx);
            let l = self.nodes@[p as int].left_children@;
            let r = self.nodes@[p as int].base.right_children@;
            assert forall|m: int| 0 <= m < l.len() implies #[trigger] l[m] < self.nodes@.len() by {
                assert(child_link(n0, p as int, left_of(n0, p as int)[m], Side::Left));
            }
            assert forall|m: int| 0 <= m < r.len() implies #[trigger] r[m] < self.nodes@.len() by {
                assert(child_link(n0, p as int, right_of(n0, p as int)[m], Side::Right));
            }
        }
        let j = match side {
            Side::Left => self.child_position(&self.nodes[p].left_children, idx),
            Side::Right => self.child_position(&self.nodes[p].base.right_children, idx),
        };
        match side {
            Side::Left => self.nodes[p].left_children.insert(j, idx),
            Side::Right => self.nodes[p].base.right_children.insert(j, idx),
        }
        self.nodes[idx].parent_index = Some(p);
        proof {
            if siblings_sorted(n0, self.root.right_children@) {
                lemma_sorted_link(n0, s, self.nodes@, self.root.right_children@, p as int, side, j as int, idx);
            }
        }
        j
    }

    /// Walks up from node `p`, the new parent of node `idx`, adding the sizes
    /// of `idx`'s subtree to `p` and to each of its ancestors; returns the top
    /// of the walk, the spans as they stand below it and the place of the
    /// inserted span in its span.
    fn grow_ancestors(&mut self, idx: usize, p: usize, side: Side, j: usize,
        Ghost(n0): Ghost<Seq<Node<T>>>, Ghost(s): Ghost<Seq<Seq<usize>>>) -> (r: (usize, Ghost<Seq<Seq<usize>>>, Ghost<int>))
        requires
            tree_ok(n0, s),
            sizes_ok(n0, s),
            linked(n0, old(self).nodes@, idx, p, side, j as int),
            !s[idx as int].contains(p),
            forall|x: int| 0 <= x < n0.len() ==> #[trigger] old(self).nodes@[x].base.effect_size == n0[x].base.effect_size
                && old(self).nodes@[x].base.prepare_size == n0[x].base.prepare_size,
        ensures
            walk_ok(s, old(self).nodes@, r.1@, idx, p, r.0, r.2@),
            old(self).nodes@[r.0 as int].parent_index is None,
            same_but_sizes(old(self).nodes@, final(self).nodes@),
            forall|x: int| 0 <= x < final(self).nodes@.len() ==> {
                &&& (#[trigger] final(self).nodes@[x]).base.effect_size == cnt(n0, r.1@.update(r.0 as int, span_def(old(self).nodes@, r.1@, r.0 as int))[x], walker::View::Effect)
                &&& final(self).nodes@[x].base.prepare_size == cnt(n0, r.1@.update(r.0 as int, span_def(old(self).nodes@, r.1@, r.0 as int))[x], walker::View::Prepare)
            },
            side == Side::Right && j == 0 ==> anchor_ok(r.1@[r.0 as int], r.2@, Some((true, p))),
            side == Side::Left && j == children_of(n0, p as int, side).len() ==> anchor_ok(r.1@[r.0 as int], r.2@, Some((false, p))),
            final(self).root == old(self).root,
            final(self).pending_parent == old(self).pending_parent,
            final(self).pending_delete == old(self).pending_delete,
            final(self).spans == old(self).spans,
    {
        let ghost nl = self.nodes@;
        let ghost mut q = lemma_walk_start(n0, s, nl, idx, p, side, j as int);
        let ghost mut g = s;
        let e = self.nodes[idx].base.effect_size;
        let pz = self.nodes[idx].base.prepare_size;
        let mut cur = p;
        proof {
            assert(e == cnt(n0, s[idx as int], walker::View::Effect));
            assert forall|x: int| 0 <= x < self.nodes@.len() implies {
                &&& (#[trigger] self.nodes@[x]).base.effect_size == cnt(n0, g[x], walker::View::Effect)
                &&& self.nodes@[x].base.prepare_size == cnt(n0, g[x], walker::View::Prepare)
            } by {
                assert(n0[x].base.effect_size == cnt(n0, s[x], walker::View::Effect));
            }
        }
        loop
            invariant_except_break
                forall|x: int| 0 <= x < self.nodes@.len() ==> {
                    &&& (#[trigger] self.nodes@[x]).base.effect_size == cnt(n0, g[x], walker::View::Effect)
                    &&& self.nodes@[x].base.prepare_size == cnt(n0, g[x], walker::View::Prepare)
                },
            invariant
                tree_ok(n0, s),
                linked(n0, nl, idx, p, side, j as int),
                n0.len() <= usize::MAX,
                !s[idx as int].contains(p),
                walk_ok(s, nl, g, idx, p, cur, q),
                same_but_sizes(nl, self.nodes@),
                e == cnt(n0, s[idx as int], walker::View::Effect),
                pz == cnt(n0, s[idx as int], walker::View::Prepare),
                side == Side::Right && j == 0 ==> anchor_ok(g[cur as int], q, Some((true, p))),
                side == Side::Left && j == children_of(n0, p as int, side).len() ==> anchor_ok(g[cur as int], q, Some((false, p))),
                self.root == old(self).root,
                self.pending_parent == old(self).pending_parent,
                self.pending_delete == old(self).pending_delete,
                self.spans == old(self).spans,
            ensures
                nl[cur as int].parent_index is None,
                forall|x: int| 0 <= x < self.nodes@.len() ==> {
                    &&& (#[trigger] self.nodes@[x]).base.effect_size == cnt(n0, g.update(cur as int, span_def(nl, g, cur as int))[x], walker::View::Effect)
                    &&& self.nodes@[x].base.prepare_size == cnt(n0, g.update(cur as int, span_def(nl, g, cur as int))[x], walker::View::Prepare)
                },
            decreases n0.len() - s[cur as int].len(),
        {
            proof {
                lemma_walk_cnt(n0, s, nl, g, idx, p, cur, q, walker::View::Effect);
                lemma_walk_cnt(n0, s, nl, g, idx, p, cur, q, walker::View::Prepare);
            }
            let ghost g_old = g;
            let ce = self.nodes[cur].base.effect_size;
            let cp = self.nodes[cur].base.prepare_size;
            self.nodes[cur].base.effect_size = ce + e;
            self.nodes[cur].base.prepare_size = cp + pz;
            let ghost g2 = g.update(cur as int, span_def(nl, g, cur as int));
            match self.nodes[cur].parent_index {
                Some(a) => {
                    proof {
                        lemma_walk_parent(n0, s, nl, g, idx, p, side, j as int, cur, q, a);
                        lemma_ancestor_step(n0, s, cur, a);
                        lemma_span_bounded(n0, s, a);
                        q = lemma_walk_step(n0, s, nl, g_old, idx, p, side, j as int, cur, q, a);
                        g = g2;
                    }
                    cur = a;
                }
                None => {
                    break;
                }
            }
        }
        (cur, Ghost(g), Ghost(q))
    }

    /// Attaches the node `idx` being inserted as a child of node `p` on side
    /// `side`, among its siblings by id, and brings the spans and sizes of `p`
    /// and of its ancestors up to date.
    #[verifier::spinoff_prover]
    pub(crate) fn attach_under(&mut self, idx: usize, p: usize, side: Side)
        requires
            old(self).wf_but(idx as int),
            p < old(self).nodes@.len(),
            !old(self).spans@[idx as int].contains(p),
            old(self).nodes@[idx as int].parent == (Parent::Node { id: old(self).nodes@[p as int].id, side }),
        ensures
            final(self).wf(),
            final(self).nodes@.len() == old(self).nodes@.len(),
            forall|x: int| 0 <= x < old(self).nodes@.len() ==> {
                &&& (#[trigger] final(self).nodes@[x]).id == old(self).nodes@[x].id
                &&& final(self).nodes@[x].parent == old(self).nodes@[x].parent
                &&& final(self).nodes@[x].content == old(self).nodes@[x].content
                &&& final(self).nodes@[x].effect_deleted == old(self).nodes@[x].effect_deleted
                &&& final(self).nodes@[x].prepare_state == old(self).nodes@[x].prepare_state
            },
            final(self).pending_parent == old(self).pending_parent,
            final(self).pending_delete == old(self).pending_delete,
            final(self).spans@[idx as int] == old(self).spans@[idx as int],
            forall|x: int| 0 <= x < old(self).nodes@.len() && x != p ==> (#[trigger] final(self).nodes@[x]).left_children == old(self).nodes@[x].left_children
                && final(self).nodes@[x].base.right_children == old(self).nodes@[x].base.right_children,
            old(self).order().contains(p) ==> exists|q: int| #[trigger] inserted_at(final(self).order(), old(self).order(), old(self).spans@[idx as int], q)
                && (side == Side::Right && right_of(old(self).nodes@, p as int).len() == 0 ==> anchor_ok(old(self).order(), q, Some((true, p))))
                && (side == Side::Left && left_of(old(self).nodes@, p as int).len() == 0 ==> anchor_ok(old(self).order(), q, Some((false, p)))),
            !old(self).order().contains(p) ==> final(self).order() == old(self).order(),
            siblings_sorted(old(self).nodes@, old(self).root.right_children@)
                ==> siblings_sorted(final(self).nodes@, final(self).root.right_children@),
            final(self).nodes@[idx as int].parent_index == Some(p),
            forall|x: int| 0 <= x < old(self).nodes@.len() && x != idx ==> (#[trigger] final(self).nodes@[x]).parent_index == old(self).nodes@[x].parent_index,
            exists|j: int| 0 <= j <= children_of(old(self).nodes@, p as int, side).len()
                && children_of(final(self).nodes@, p as int, side) == children_of(old(self).nodes@, p as int, side).insert(j, idx),
            side == Side::Left ==> right_of(final(self).nodes@, p as int) == right_of(old(self).nodes@, p as int),
            side == Side::Right ==> left_of(final(self).nodes@, p as int) == left_of(old(self).nodes@, p as int),
            final(self).root.right_children == old(self).root.right_children,
    {
        let ghost n0 = self.nodes@;
        let ghost s = self.spans@;
        let ghost rc = self.root.right_children@;
        let ghost pending = self.pending_parent@;
        let e = self.nodes[idx].base.effect_size;
        let pz = self.nodes[idx].base.prepare_size;
        let j = self.link_child(idx, p, side);
        let ghost nl = self.nodes@;
        let (cur, Ghost(g), Ghost(q)) = self.grow_ancestors(idx, p, side, j, Ghost(n0), Ghost(s));
        proof {
            if siblings_sorted(n0, rc) {
                lemma_sorted_shape(nl, self.nodes@, rc);
            }
        }
        let ghost g2 = g.update(cur as int, span_def(nl, g, cur as int));
        let ghost oq = lemma_attach_under_end(n0, s, nl, self.nodes@, g, idx, p, side, j as int, cur, q, rc, pending);
        self.spans = Ghost(g2);
        let top_is_root = match self.nodes[cur].parent {
            Parent::Root => true,
            Parent::Node { .. } => false,
        };
        proof {
            assert(e == cnt(n0, s[idx as int], walker::View::Effect));
            assert(pz == cnt(n0, s[idx as int], walker::View::Prepare));
            assert(cnt(self.nodes@, flat(g2, rc), walker::View::Effect) <= self.nodes@.len());
            assert(cnt(self.nodes@, flat(g2, rc), walker::View::Prepare) <= self.nodes@.len());
            assert(cnt(self.nodes@, flat(g2, rc), walker::View::Effect) == cnt(n0, flat(s, rc), walker::View::Effect) + if top_is_root { e as nat } else { 0 });
            assert(cnt(self.nodes@, flat(g2, rc), walker::View::Prepare) == cnt(n0, flat(s, rc), walker::View::Prepare) + if top_is_root { pz as nat } else { 0 });
        }
        if top_is_root {
            self.root.effect_size = self.root.effect_size + e;
            self.root.prepare_size = self.root.prepare_size + pz;
        }
        proof {
            if top_is_root {
                assert(anchor_ok(g[cur as int], q, Some((true, p))) ==> anchor_ok(flat(s, rc), oq, Some((true, p))));
                assert(anchor_ok(g[cur as int], q, Some((false, p))) ==> anchor_ok(flat(s, rc), oq, Some((false, p))));
                assert(inserted_at(self.order(), old(self).order(), old(self).spans@[idx as int], oq));
            }
            assert(self.nodes@[p as int].left_children == nl[p as int].left_children);
            assert(self.nodes@[p as int].base.right_children == nl[p as int].base.right_children);
            assert(children_of(self.nodes@, p as int, side) == children_of(n0, p as int, side).insert(j as int, idx));
        }
    }
}

} // verus!
