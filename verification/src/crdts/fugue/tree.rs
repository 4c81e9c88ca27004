//! Facts that follow from the shape of the tree: spans of descendants nest,
//! every node of a span below its top has its parent in that span, two spans
//! are nested or disjoint, and no span repeats a node.

use vstd::prelude::*;
use super::{Node, Side, Parent, root_ok, root_core, root_ok_but, pending_ok_but, pending_ok, tree_ok, span_def, children_of, left_of, right_of, node_links_ok, child_link};
use super::seqs::{flat, lemma_flat_contains, lemma_flat_member_len, lemma_flat_nodup, lemma_flat_split};

verus! {

/// What the shape of the tree says of one node.
pub(crate) proof fn lemma_tree_at<T>(nodes: Seq<Node<T>>, spans: Seq<Seq<usize>>, i: int)
    requires
        tree_ok(nodes, spans),
        0 <= i < nodes.len(),
    ensures
        spans.len() == nodes.len(),
        node_links_ok(nodes, i),
        spans[i] == span_def(nodes, spans, i),
        forall|k: int| 0 <= k < spans[i].len() ==> #[trigger] spans[i][k] < nodes.len(),
{
    reveal(tree_ok);
}

/// Distinct nodes have distinct ids.
pub(crate) proof fn lemma_tree_ids<T>(nodes: Seq<Node<T>>, spans: Seq<Seq<usize>>, i: int, j: int)
    requires
        tree_ok(nodes, spans),
        0 <= i < nodes.len(),
        0 <= j < nodes.len(),
        i != j,
    ensures
        nodes[i].id != nodes[j].id,
{
    reveal(tree_ok);
}

pub(crate) proof fn lemma_concat3_contains(a: Seq<usize>, b: Seq<usize>, c: Seq<usize>, z: usize)
    ensures
        (a + b + c).contains(z) <==> (a.contains(z) || b.contains(z) || c.contains(z)),
{
    let s = a + b + c;
    if s.contains(z) {
        let j = choose|j: int| 0 <= j < s.len() && s[j] == z;
        if j < a.len() {
            assert(a[j] == z);
        } else if j < a.len() + b.len() {
            assert(b[j - a.len()] == z);
        } else {
            assert(c[j - a.len() - b.len()] == z);
        }
    }
    if a.contains(z) {
        let j = choose|j: int| 0 <= j < a.len() && a[j] == z;
        assert(s[j] == z);
    }
    if b.contains(z) {
        let j = choose|j: int| 0 <= j < b.len() && b[j] == z;
        assert(s[a.len() + j] == z);
    }
    if c.contains(z) {
        let j = choose|j: int| 0 <= j < c.len() && c[j] == z;
        assert(s[a.len() + b.len() + j] == z);
    }
}

/// What a span holds: the node itself and the spans of its children.
pub(crate) proof fn lemma_span_contains<T>(nodes: Seq<Node<T>>, spans: Seq<Seq<usize>>, x: usize, z: usize)
    requires
        tree_ok(nodes, spans),
        x < nodes.len(),
    ensures
        spans[x as int].contains(z) <==> (z == x || (exists|k: int| 0 <= k < left_of(nodes, x as int).len() && #[trigger] spans[left_of(nodes, x as int)[k] as int].contains(z))
            || (exists|k: int| 0 <= k < right_of(nodes, x as int).len() && #[trigger] spans[right_of(nodes, x as int)[k] as int].contains(z))),
{
    lemma_tree_at(nodes, spans, x as int);
    lemma_concat3_contains(flat(spans, left_of(nodes, x as int)), seq![x], flat(spans, right_of(nodes, x as int)), z);
    lemma_flat_contains(spans, left_of(nodes, x as int), z);
    lemma_flat_contains(spans, right_of(nodes, x as int), z);
    if seq![x].contains(z) {
        assert(seq![x][0] == z);
    }
    if z == x {
        assert(seq![x][0] == z);
    }
}

/// A child's span is shorter than its parent's.
pub(crate) proof fn lemma_child_shorter<T>(nodes: Seq<Node<T>>, spans: Seq<Seq<usize>>, x: usize, side: Side, k: int)
    requires
        tree_ok(nodes, spans),
        x < nodes.len(),
        0 <= k < children_of(nodes, x as int, side).len(),
    ensures
        spans[children_of(nodes, x as int, side)[k] as int].len() < spans[x as int].len(),
{
    lemma_tree_at(nodes, spans, x as int);
    match side {
        Side::Left => lemma_flat_member_len(spans, left_of(nodes, x as int), k),
        Side::Right => lemma_flat_member_len(spans, right_of(nodes, x as int), k),
    }
}

/// A node in `spans[x as int]` has its whole span inside `spans[x as int]`, and that span is
/// no longer than `spans[x as int]`.
pub(crate) proof fn lemma_sub<T>(nodes: Seq<Node<T>>, spans: Seq<Seq<usize>>, x: usize, y: usize)
    requires
        tree_ok(nodes, spans),
        x < nodes.len(),
        spans[x as int].contains(y),
    ensures
        y < nodes.len(),
        spans[y as int].len() <= spans[x as int].len(),
        forall|z: usize| spans[y as int].contains(z) ==> spans[x as int].contains(z),
    decreases spans[x as int].len(),
{
    let j = choose|j: int| 0 <= j < spans[x as int].len() && spans[x as int][j] == y;
    lemma_tree_at(nodes, spans, x as int);
    assert(spans[x as int][j] < nodes.len());
    lemma_span_contains(nodes, spans, x, y);
    if y != x {
        let side = if exists|k: int| 0 <= k < left_of(nodes, x as int).len() && #[trigger] spans[left_of(nodes, x as int)[k] as int].contains(y) {
            Side::Left
        } else {
            Side::Right
        };
        let k = choose|k: int| 0 <= k < children_of(nodes, x as int, side).len() && #[trigger] spans[children_of(nodes, x as int, side)[k] as int].contains(y);
        let c = children_of(nodes, x as int, side)[k];
        lemma_tree_at(nodes, spans, x as int);
        assert(child_link(nodes, x as int, c, side));
        lemma_child_shorter(nodes, spans, x, side, k);
        lemma_sub(nodes, spans, c, y);
        assert forall|z: usize| spans[y as int].contains(z) implies spans[x as int].contains(z) by {
            lemma_span_contains(nodes, spans, x, z);
            assert(spans[children_of(nodes, x as int, side)[k] as int].contains(z));
        }
    }
}

/// Below its top, every node of a span has its parent in the span.
pub(crate) proof fn lemma_parent_in_span<T>(nodes: Seq<Node<T>>, spans: Seq<Seq<usize>>, x: usize, y: usize)
    requires
        tree_ok(nodes, spans),
        x < nodes.len(),
        spans[x as int].contains(y),
        y != x,
    ensures
        nodes[y as int].parent_index is Some,
        spans[x as int].contains(nodes[y as int].parent_index->0),
    decreases spans[x as int].len(),
{
    lemma_span_contains(nodes, spans, x, y);
    let side = if exists|k: int| 0 <= k < left_of(nodes, x as int).len() && #[trigger] spans[left_of(nodes, x as int)[k] as int].contains(y) {
        Side::Left
    } else {
        Side::Right
    };
    let k = choose|k: int| 0 <= k < children_of(nodes, x as int, side).len() && #[trigger] spans[children_of(nodes, x as int, side)[k] as int].contains(y);
    let c = children_of(nodes, x as int, side)[k];
    lemma_tree_at(nodes, spans, x as int);
    assert(child_link(nodes, x as int, c, side));
    lemma_child_shorter(nodes, spans, x, side, k);
    if y == c {
        lemma_span_contains(nodes, spans, x, x);
    } else {
        lemma_parent_in_span(nodes, spans, c, y);
        lemma_span_contains(nodes, spans, c, c);
        lemma_span_contains(nodes, spans, x, c);
        lemma_sub(nodes, spans, x, c);
    }
}

/// Two spans that share a node are nested.
pub(crate) proof fn lemma_laminar<T>(nodes: Seq<Node<T>>, spans: Seq<Seq<usize>>, a: usize, b: usize, y: usize)
    requires
        tree_ok(nodes, spans),
        a < nodes.len(),
        b < nodes.len(),
        spans[a as int].contains(y),
        spans[b as int].contains(y),
    ensures
        spans[a as int].contains(b) || spans[b as int].contains(a),
    decreases spans[a as int].len() - spans[y as int].len(),
{
    lemma_sub(nodes, spans, a, y);
    lemma_sub(nodes, spans, b, y);
    if y == a {
    } else if y == b {
    } else {
        lemma_parent_in_span(nodes, spans, a, y);
        lemma_parent_in_span(nodes, spans, b, y);
        let p = nodes[y as int].parent_index->0;
        lemma_tree_at(nodes, spans, y as int);
        lemma_span_contains(nodes, spans, p, y);
        let side = match nodes[y as int].parent { super::Parent::Node { side, .. } => side, super::Parent::Root => Side::Left };
        let k = choose|k: int| 0 <= k < children_of(nodes, p as int, side).len() && children_of(nodes, p as int, side)[k] == y;
        lemma_child_shorter(nodes, spans, p, side, k);
        lemma_sub(nodes, spans, a, p);
        lemma_laminar(nodes, spans, a, b, p);
    }
}

/// A node is not inside the span of one of its children.
pub(crate) proof fn lemma_not_in_child<T>(nodes: Seq<Node<T>>, spans: Seq<Seq<usize>>, x: usize, side: Side, k: int)
    requires
        tree_ok(nodes, spans),
        x < nodes.len(),
        0 <= k < children_of(nodes, x as int, side).len(),
    ensures
        !spans[children_of(nodes, x as int, side)[k] as int].contains(x),
{
    let c = children_of(nodes, x as int, side)[k];
    lemma_tree_at(nodes, spans, x as int);
    assert(child_link(nodes, x as int, c, side));
    lemma_child_shorter(nodes, spans, x, side, k);
    if spans[c as int].contains(x) {
        lemma_sub(nodes, spans, c, x);
    }
}

/// The spans of two distinct children of one node are disjoint.
pub(crate) proof fn lemma_siblings_disjoint<T>(nodes: Seq<Node<T>>, spans: Seq<Seq<usize>>, x: usize, c1: usize, c2: usize, y: usize)
    requires
        tree_ok(nodes, spans),
        x < nodes.len(),
        c1 < nodes.len(),
        c2 < nodes.len(),
        c1 != c2,
        nodes[c1 as int].parent_index == Some(x),
        nodes[c2 as int].parent_index == Some(x),
        spans[c1 as int].contains(y),
    ensures
        !spans[c2 as int].contains(y),
{
    if spans[c2 as int].contains(y) {
        lemma_laminar(nodes, spans, c1, c2, y);
        if spans[c2 as int].contains(c1) {
            lemma_parent_in_span(nodes, spans, c2, c1);
            lemma_not_in_child_of(nodes, spans, x, c2);
        } else {
            lemma_parent_in_span(nodes, spans, c1, c2);
            lemma_not_in_child_of(nodes, spans, x, c1);
        }
    }
}

/// A node is not in the span of a node whose parent it is.
pub(crate) proof fn lemma_not_in_child_of<T>(nodes: Seq<Node<T>>, spans: Seq<Seq<usize>>, x: usize, c: usize)
    requires
        tree_ok(nodes, spans),
        x < nodes.len(),
        c < nodes.len(),
        nodes[c as int].parent_index == Some(x),
    ensures
        !spans[c as int].contains(x),
{
    lemma_tree_at(nodes, spans, c as int);
    let side = match nodes[c as int].parent { super::Parent::Node { side, .. } => side, super::Parent::Root => Side::Left };
    let k = choose|k: int| 0 <= k < children_of(nodes, x as int, side).len() && children_of(nodes, x as int, side)[k] == c;
    lemma_not_in_child(nodes, spans, x, side, k);
}

/// A span repeats no node.
pub(crate) proof fn lemma_span_nodup<T>(nodes: Seq<Node<T>>, spans: Seq<Seq<usize>>, x: usize)
    requires
        tree_ok(nodes, spans),
        x < nodes.len(),
    ensures
        spans[x as int].no_duplicates(),
    decreases spans[x as int].len(),
{
    lemma_tree_at(nodes, spans, x as int);
    let l = left_of(nodes, x as int);
    let r = right_of(nodes, x as int);
    assert forall|k: int| 0 <= k < l.len() implies #[trigger] spans[l[k] as int].no_duplicates() by {
        assert(child_link(nodes, x as int, l[k], Side::Left));
        lemma_child_shorter(nodes, spans, x, Side::Left, k);
        lemma_span_nodup(nodes, spans, l[k]);
    }
    assert forall|k: int| 0 <= k < r.len() implies #[trigger] spans[r[k] as int].no_duplicates() by {
        assert(child_link(nodes, x as int, r[k], Side::Right));
        lemma_child_shorter(nodes, spans, x, Side::Right, k);
        lemma_span_nodup(nodes, spans, r[k]);
    }
    assert forall|k1: int, k2: int, y: usize|
        0 <= k1 < l.len() && 0 <= k2 < l.len() && k1 != k2 && #[trigger] spans[l[k1] as int].contains(y)
            implies !#[trigger] spans[l[k2] as int].contains(y) by {
        assert(child_link(nodes, x as int, l[k1], Side::Left));
        assert(child_link(nodes, x as int, l[k2], Side::Left));
        lemma_siblings_disjoint(nodes, spans, x, l[k1], l[k2], y);
    }
    assert forall|k1: int, k2: int, y: usize|
        0 <= k1 < r.len() && 0 <= k2 < r.len() && k1 != k2 && #[trigger] spans[r[k1] as int].contains(y)
            implies !#[trigger] spans[r[k2] as int].contains(y) by {
        assert(child_link(nodes, x as int, r[k1], Side::Right));
        assert(child_link(nodes, x as int, r[k2], Side::Right));
        lemma_siblings_disjoint(nodes, spans, x, r[k1], r[k2], y);
    }
    lemma_flat_nodup(spans, l);
    lemma_flat_nodup(spans, r);
    let fl = flat(spans, l);
    let fr = flat(spans, r);
    let mid = seq![x];
    assert forall|i: int, j: int| 0 <= i < fl.len() && 0 <= j < mid.len() implies fl[i] != mid[j] by {
        if fl[i] == x {
            assert(fl.contains(x));
            lemma_flat_contains(spans, l, x);
            let k = choose|k: int| 0 <= k < l.len() && #[trigger] spans[l[k] as int].contains(x);
            lemma_not_in_child(nodes, spans, x, Side::Left, k);
        }
    }
    vstd::seq_lib::lemma_no_dup_in_concat(fl, mid);
    assert forall|i: int, j: int| 0 <= i < (fl + mid).len() && 0 <= j < fr.len() implies (fl + mid)[i] != fr[j] by {
        let y = fr[j];
        assert(fr.contains(y));
        lemma_flat_contains(spans, r, y);
        let k2 = choose|k: int| 0 <= k < r.len() && #[trigger] spans[r[k] as int].contains(y);
        if (fl + mid)[i] == y {
            if i < fl.len() {
                assert(fl[i] == y);
                assert(fl.contains(y));
                lemma_flat_contains(spans, l, y);
                let k1 = choose|k: int| 0 <= k < l.len() && #[trigger] spans[l[k] as int].contains(y);
                assert(child_link(nodes, x as int, l[k1], Side::Left));
                assert(child_link(nodes, x as int, r[k2], Side::Right));
                lemma_siblings_disjoint(nodes, spans, x, l[k1], r[k2], y);
            } else {
                lemma_not_in_child(nodes, spans, x, Side::Right, k2);
            }
        }
    }
    vstd::seq_lib::lemma_no_dup_in_concat(fl + mid, fr);
}

/// The document order repeats no node and holds only nodes.
pub(crate) proof fn lemma_order_nodup<T>(nodes: Seq<Node<T>>, spans: Seq<Seq<usize>>, rc: Seq<usize>)
    requires
        tree_ok(nodes, spans),
        root_core(nodes, rc),
    ensures
        flat(spans, rc).no_duplicates(),
        forall|k: int| 0 <= k < flat(spans, rc).len() ==> #[trigger] flat(spans, rc)[k] < nodes.len(),
        flat(spans, rc).len() <= nodes.len(),
{
    assert forall|k: int| 0 <= k < rc.len() implies #[trigger] spans[rc[k] as int].no_duplicates() by {
        lemma_span_nodup(nodes, spans, rc[k]);
    }
    assert forall|k1: int, k2: int, y: usize|
        0 <= k1 < rc.len() && 0 <= k2 < rc.len() && k1 != k2 && #[trigger] spans[rc[k1] as int].contains(y)
            implies !#[trigger] spans[rc[k2] as int].contains(y) by {
        let c1 = rc[k1];
        let c2 = rc[k2];
        if spans[c2 as int].contains(y) {
            lemma_laminar(nodes, spans, c1, c2, y);
            if spans[c2 as int].contains(c1) {
                lemma_parent_in_span(nodes, spans, c2, c1);
            } else {
                lemma_parent_in_span(nodes, spans, c1, c2);
            }
        }
    }
    lemma_flat_nodup(spans, rc);
    let o = flat(spans, rc);
    assert forall|k: int| 0 <= k < o.len() implies #[trigger] o[k] < nodes.len() by {
        assert(o.contains(o[k]));
        lemma_flat_contains(spans, rc, o[k]);
        let j = choose|j: int| 0 <= j < rc.len() && #[trigger] spans[rc[j] as int].contains(o[k]);
        lemma_sub(nodes, spans, rc[j], o[k]);
    }
    super::seqs::lemma_nodup_bounded_len(o, nodes.len());
}

/// Which nodes the document order holds: the root's children and, with a
/// node, all of its children.
pub(crate) proof fn lemma_order_contains<T>(nodes: Seq<Node<T>>, spans: Seq<Seq<usize>>, rc: Seq<usize>, y: usize)
    requires
        tree_ok(nodes, spans),
        root_ok(nodes, rc),
        y < nodes.len(),
    ensures
        nodes[y as int].parent == Parent::Root ==> flat(spans, rc).contains(y),
        nodes[y as int].parent_index is None ==> (flat(spans, rc).contains(y) <==> nodes[y as int].parent == Parent::Root),
        nodes[y as int].parent_index matches Some(p) ==> (flat(spans, rc).contains(y) <==> flat(spans, rc).contains(p)),
{
    lemma_flat_contains(spans, rc, y);
    lemma_tree_at(nodes, spans, y as int);
    lemma_span_contains(nodes, spans, y, y);
    if nodes[y as int].parent == Parent::Root {
        let k = choose|k: int| 0 <= k < rc.len() && rc[k] == y;
        assert(spans[rc[k] as int].contains(y));
    }
    if flat(spans, rc).contains(y) {
        let k = choose|k: int| 0 <= k < rc.len() && #[trigger] spans[rc[k] as int].contains(y);
        if rc[k] != y {
            lemma_parent_in_span(nodes, spans, rc[k], y);
        }
    }
    if nodes[y as int].parent_index is Some {
        let p = nodes[y as int].parent_index->0;
        lemma_flat_contains(spans, rc, p);
        if flat(spans, rc).contains(y) {
            let k = choose|k: int| 0 <= k < rc.len() && #[trigger] spans[rc[k] as int].contains(y);
            if rc[k] == y {
                assert(nodes[rc[k] as int].parent == Parent::Root);
            } else {
                lemma_parent_in_span(nodes, spans, rc[k], y);
                assert(spans[rc[k] as int].contains(p));
            }
        }
        if flat(spans, rc).contains(p) {
            let k = choose|k: int| 0 <= k < rc.len() && #[trigger] spans[rc[k] as int].contains(p);
            let side = match nodes[y as int].parent { Parent::Node { side, .. } => side, Parent::Root => Side::Left };
            lemma_span_contains(nodes, spans, p, y);
            let j = choose|j: int| 0 <= j < children_of(nodes, p as int, side).len() && children_of(nodes, p as int, side)[j] == y;
            assert(spans[children_of(nodes, p as int, side)[j] as int].contains(y));
            lemma_sub(nodes, spans, rc[k], p);
            assert(spans[rc[k] as int].contains(y));
        }
    }
}

/// A span is no longer than the number of nodes.
pub(crate) proof fn lemma_span_bounded<T>(nodes: Seq<Node<T>>, spans: Seq<Seq<usize>>, x: usize)
    requires
        tree_ok(nodes, spans),
        x < nodes.len(),
    ensures
        spans[x as int].len() <= nodes.len(),
        spans[x as int].contains(x),
{
    lemma_span_nodup(nodes, spans, x);
    lemma_tree_at(nodes, spans, x as int);
    super::seqs::lemma_nodup_bounded_len(spans[x as int], nodes.len());
    lemma_span_contains(nodes, spans, x, x);
}

/// Outside its own span, the nodes whose span holds a node are exactly the
/// nodes whose span holds its parent.
pub(crate) proof fn lemma_ancestor_step<T>(nodes: Seq<Node<T>>, spans: Seq<Seq<usize>>, cur: usize, x: usize)
    requires
        tree_ok(nodes, spans),
        cur < nodes.len(),
        x < nodes.len(),
    ensures
        nodes[cur as int].parent_index is None ==> !(x != cur && spans[x as int].contains(cur)),
        nodes[cur as int].parent_index matches Some(p) ==> ((x != cur && spans[x as int].contains(cur)) <==> spans[x as int].contains(p)),
        nodes[cur as int].parent_index matches Some(p) ==> spans[cur as int].len() < spans[p as int].len() && p < nodes.len(),
{
    if x != cur && spans[x as int].contains(cur) {
        lemma_parent_in_span(nodes, spans, x, cur);
    }
    lemma_tree_at(nodes, spans, cur as int);
    if nodes[cur as int].parent_index is Some {
        let p = nodes[cur as int].parent_index->0;
        let side = match nodes[cur as int].parent { Parent::Node { side, .. } => side, Parent::Root => Side::Left };
        let j = choose|j: int| 0 <= j < children_of(nodes, p as int, side).len() && children_of(nodes, p as int, side)[j] == cur;
        lemma_child_shorter(nodes, spans, p, side, j);
        lemma_not_in_child_of(nodes, spans, p, cur);
        lemma_span_contains(nodes, spans, cur, cur);
        lemma_span_contains(nodes, spans, p, cur);
        assert(spans[children_of(nodes, p as int, side)[j] as int].contains(cur));
        if spans[x as int].contains(p) {
            lemma_sub(nodes, spans, x, p);
        }
    }
}

/// Two node sequences with the same ids and links.
pub(crate) open spec fn shape_eq<T>(n1: Seq<Node<T>>, n2: Seq<Node<T>>) -> bool {
    &&& n1.len() == n2.len()
    &&& forall|x: int| 0 <= x < n1.len() ==> {
        &&& (#[trigger] n1[x]).id == n2[x].id
        &&& n1[x].parent == n2[x].parent
        &&& n1[x].parent_index == n2[x].parent_index
        &&& n1[x].left_children == n2[x].left_children
        &&& n1[x].base.right_children == n2[x].base.right_children
    }
}

/// The shape predicates look only at ids and links.
pub(crate) proof fn lemma_shape_frame<T>(n1: Seq<Node<T>>, n2: Seq<Node<T>>, spans: Seq<Seq<usize>>, rc: Seq<usize>, pending: Seq<usize>)
    requires
        shape_eq(n1, n2),
    ensures
        tree_ok(n1, spans) ==> tree_ok(n2, spans),
        root_ok(n1, rc) ==> root_ok(n2, rc),
        pending_ok(n1, pending) ==> pending_ok(n2, pending),
{
    lemma_shape_frame_but(n1, n2, spans, rc, pending, -1);
}

/// The shape predicates look only at ids and links.
pub(crate) proof fn lemma_shape_frame_but<T>(n1: Seq<Node<T>>, n2: Seq<Node<T>>, spans: Seq<Seq<usize>>, rc: Seq<usize>, pending: Seq<usize>, e: int)
    requires
        shape_eq(n1, n2),
    ensures
        tree_ok(n1, spans) ==> tree_ok(n2, spans),
        root_ok_but(n1, rc, e) ==> root_ok_but(n2, rc, e),
        pending_ok_but(n1, pending, e) ==> pending_ok_but(n2, pending, e),
{
    reveal(tree_ok);
    if tree_ok(n1, spans) {
        assert forall|i: int| 0 <= i < n2.len() implies #[trigger] node_links_ok(n2, i) by {
            assert(node_links_ok(n1, i));
            assert(n1[i].id == n2[i].id);
            assert forall|k: int| 0 <= k < left_of(n2, i).len() implies #[trigger] child_link(n2, i, left_of(n2, i)[k], Side::Left) by {
                assert(child_link(n1, i, left_of(n1, i)[k], Side::Left));
                let c = left_of(n1, i)[k];
                assert(n1[c as int].parent == n2[c as int].parent);
            }
            assert forall|k: int| 0 <= k < right_of(n2, i).len() implies #[trigger] child_link(n2, i, right_of(n2, i)[k], Side::Right) by {
                assert(child_link(n1, i, right_of(n1, i)[k], Side::Right));
                let c = right_of(n1, i)[k];
                assert(n1[c as int].parent == n2[c as int].parent);
            }
            if n2[i].parent_index is Some {
                let p = n2[i].parent_index->0;
                assert(n1[p as int].id == n2[p as int].id);
                assert(n1[p as int].left_children == n2[p as int].left_children);
            }
        }
        assert forall|i: int| 0 <= i < n2.len() implies #[trigger] spans[i] == span_def(n2, spans, i) by {
            assert(spans[i] == span_def(n1, spans, i));
        }
        assert forall|i: int, j: int| 0 <= i < n2.len() && 0 <= j < n2.len() && i != j implies #[trigger] n2[i].id != #[trigger] n2[j].id by {
            assert(n1[i].id != n1[j].id);
        }
    }
    if root_ok_but(n1, rc, e) {
        assert forall|k: int| 0 <= k < rc.len() implies #[trigger] rc[k] < n2.len() && n2[rc[k] as int].parent == Parent::Root
            && n2[rc[k] as int].parent_index is None by {
            assert(rc[k] < n1.len() && n1[rc[k] as int].parent == Parent::Root);
        }
        assert forall|i: int| 0 <= i < n2.len() && i != e && #[trigger] n2[i].parent == Parent::Root implies rc.contains(i as usize) by {
            assert(n1[i].parent == Parent::Root);
        }
        assert forall|i: int| 0 <= i < n2.len() && #[trigger] n2[i].parent == Parent::Root implies n2[i].parent_index is None by {
            assert(n1[i].parent == Parent::Root);
        }
    }
    if pending_ok_but(n1, pending, e) {
        assert forall|i: int| 0 <= i < n2.len() && i != e implies ((n2[i].parent !is Root && n2[i].parent_index is None) <==> #[trigger] pending.contains(i as usize)) by {
            assert(n1[i].parent == n2[i].parent);
        }
    }
}

/// The span of a node of the document order is a block of the order.
#[verifier::spinoff_prover]
#[verifier::rlimit(50)]
pub(crate) proof fn lemma_span_block<T>(nodes: Seq<Node<T>>, spans: Seq<Seq<usize>>, rc: Seq<usize>, x: usize) -> (ab: (Seq<usize>, Seq<usize>))
    requires
        tree_ok(nodes, spans),
        root_ok(nodes, rc),
        x < nodes.len(),
        flat(spans, rc).contains(x),
    ensures
        flat(spans, rc) == ab.0 + spans[x as int] + ab.1,
    decreases nodes.len() - spans[x as int].len(),
{
    lemma_order_contains(nodes, spans, rc, x);
    lemma_tree_at(nodes, spans, x as int);
    match nodes[x as int].parent_index {
        None => {
            assert(rc.contains(x));
            let k = choose|k: int| 0 <= k < rc.len() && rc[k] == x;
            lemma_flat_split(spans, rc, k);
            (flat(spans, rc.take(k)), flat(spans, rc.skip(k + 1)))
        }
        Some(p) => {
            lemma_ancestor_step(nodes, spans, x, p);
            lemma_span_bounded(nodes, spans, p);
            let (a, b) = lemma_span_block(nodes, spans, rc, p);
            lemma_tree_at(nodes, spans, p as int);
            let side = match nodes[x as int].parent { Parent::Node { side, .. } => side, Parent::Root => Side::Left };
            let cs = children_of(nodes, p as int, side);
            let k = choose|k: int| 0 <= k < cs.len() && cs[k] == x;
            lemma_flat_split(spans, cs, k);
            let l = left_of(nodes, p as int);
            let r = right_of(nodes, p as int);
            match side {
                Side::Left => {
                    let a2 = a + flat(spans, cs.take(k));
                    let b2 = flat(spans, cs.skip(k + 1)) + seq![p] + flat(spans, r) + b;
                    assert(flat(spans, rc) == a2 + spans[x as int] + b2);
                    (a2, b2)
                }
                Side::Right => {
                    let a2 = a + flat(spans, l) + seq![p] + flat(spans, cs.take(k));
                    let b2 = flat(spans, cs.skip(k + 1)) + b;
                    assert(flat(spans, rc) == a2 + spans[x as int] + b2);
                    (a2, b2)
                }
            }
        }
    }
}

/// The first node of a span has no left children.
pub(crate) proof fn lemma_span_first<T>(nodes: Seq<Node<T>>, spans: Seq<Seq<usize>>, x: usize)
    requires
        tree_ok(nodes, spans),
        x < nodes.len(),
    ensures
        spans[x as int].len() > 0,
        spans[x as int][0] < nodes.len(),
        left_of(nodes, spans[x as int][0] as int).len() == 0,
    decreases spans[x as int].len(),
{
    lemma_tree_at(nodes, spans, x as int);
    lemma_span_bounded(nodes, spans, x);
    let l = left_of(nodes, x as int);
    if l.len() == 0 {
        assert(flat(spans, l) == Seq::<usize>::empty());
        assert(spans[x as int][0] == x);
    } else {
        assert(child_link(nodes, x as int, l[0], Side::Left));
        lemma_child_shorter(nodes, spans, x, Side::Left, 0);
        lemma_span_first(nodes, spans, l[0]);
        lemma_flat_split(spans, l, 0);
        assert(l.take(0) == Seq::<usize>::empty());
        assert(flat(spans, Seq::<usize>::empty()) == Seq::<usize>::empty());
        assert(spans[x as int][0] == spans[l[0] as int][0]);
    }
}

} // verus!
