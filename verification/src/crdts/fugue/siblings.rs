//! The order of siblings: every list of children (and the root's) runs by
//! increasing element id.

use vstd::prelude::*;
use crate::crdts::id::{element_id_lt, lemma_element_id_order};
use super::{List, Node, left_of, right_of, children_of, tree_ok, root_core, child_link, Side};
use super::tree::{shape_eq, lemma_tree_at, lemma_tree_ids};

verus! {

/// The children `cs` run by increasing element id.
pub(crate) open spec fn ids_sorted<T>(nodes: Seq<Node<T>>, cs: Seq<usize>) -> bool {
    forall|a: int, b: int|
        0 <= a < b < cs.len() ==> element_id_lt(#[trigger] nodes[cs[a] as int].id, #[trigger] nodes[cs[b] as int].id)
}

/// Both child lists of node `i` run by increasing element id.
pub(crate) open spec fn node_sorted<T>(nodes: Seq<Node<T>>, i: int) -> bool {
    ids_sorted(nodes, left_of(nodes, i)) && ids_sorted(nodes, right_of(nodes, i))
}

/// Every sibling list runs by increasing element id.
pub(crate) open spec fn siblings_sorted<T>(nodes: Seq<Node<T>>, rc: Seq<usize>) -> bool {
    &&& ids_sorted(nodes, rc)
    &&& forall|i: int| 0 <= i < nodes.len() ==> #[trigger] node_sorted(nodes, i)
}

/// Every child list names nodes that exist.
pub(crate) open spec fn children_in_range<T>(nodes: Seq<Node<T>>, rc: Seq<usize>) -> bool {
    &&& forall|k: int| 0 <= k < rc.len() ==> #[trigger] rc[k] < nodes.len()
    &&& forall|i: int, k: int| 0 <= i < nodes.len() && 0 <= k < left_of(nodes, i).len() ==> #[trigger] left_of(nodes, i)[k] < nodes.len()
    &&& forall|i: int, k: int| 0 <= i < nodes.len() && 0 <= k < right_of(nodes, i).len() ==> #[trigger] right_of(nodes, i)[k] < nodes.len()
}

/// A tree's child lists name nodes that exist.
pub(crate) proof fn lemma_children_in_range<T>(nodes: Seq<Node<T>>, spans: Seq<Seq<usize>>, rc: Seq<usize>)
    requires
        tree_ok(nodes, spans),
        root_core(nodes, rc),
    ensures
        children_in_range(nodes, rc),
{
    assert forall|i: int, k: int| 0 <= i < nodes.len() && 0 <= k < left_of(nodes, i).len() implies #[trigger] left_of(nodes, i)[k] < nodes.len() by {
        lemma_tree_at(nodes, spans, i);
        assert(child_link(nodes, i, left_of(nodes, i)[k], Side::Left));
    }
    assert forall|i: int, k: int| 0 <= i < nodes.len() && 0 <= k < right_of(nodes, i).len() implies #[trigger] right_of(nodes, i)[k] < nodes.len() by {
        lemma_tree_at(nodes, spans, i);
        assert(child_link(nodes, i, right_of(nodes, i)[k], Side::Right));
    }
}

/// Sortedness of a list of children depends only on the ids of its nodes.
pub(crate) proof fn lemma_ids_sorted_frame<T>(n1: Seq<Node<T>>, n2: Seq<Node<T>>, cs: Seq<usize>)
    requires
        forall|k: int| 0 <= k < cs.len() ==> n1[#[trigger] cs[k] as int].id == n2[cs[k] as int].id,
        ids_sorted(n1, cs),
    ensures
        ids_sorted(n2, cs),
{
    assert forall|a: int, b: int| 0 <= a < b < cs.len() implies element_id_lt(#[trigger] n2[cs[a] as int].id, #[trigger] n2[cs[b] as int].id) by {
        assert(n1[cs[a] as int].id == n2[cs[a] as int].id);
        assert(n1[cs[b] as int].id == n2[cs[b] as int].id);
    }
}

/// Sortedness survives a change that keeps every node's id and child lists.
pub(crate) proof fn lemma_sorted_shape<T>(n1: Seq<Node<T>>, n2: Seq<Node<T>>, rc: Seq<usize>)
    requires
        shape_eq(n1, n2),
        children_in_range(n1, rc),
        siblings_sorted(n1, rc),
    ensures
        siblings_sorted(n2, rc),
        children_in_range(n2, rc),
{
    lemma_ids_sorted_frame(n1, n2, rc);
    assert forall|i: int| 0 <= i < n2.len() implies #[trigger] node_sorted(n2, i) by {
        assert(node_sorted(n1, i));
        assert(left_of(n2, i) == left_of(n1, i) && right_of(n2, i) == right_of(n1, i));
        lemma_ids_sorted_frame(n1, n2, left_of(n1, i));
        lemma_ids_sorted_frame(n1, n2, right_of(n1, i));
    }
    assert forall|i: int, k: int| 0 <= i < n2.len() && 0 <= k < left_of(n2, i).len() implies #[trigger] left_of(n2, i)[k] < n2.len() by {
        assert(left_of(n2, i) == left_of(n1, i));
    }
    assert forall|i: int, k: int| 0 <= i < n2.len() && 0 <= k < right_of(n2, i).len() implies #[trigger] right_of(n2, i)[k] < n2.len() by {
        assert(right_of(n2, i) == right_of(n1, i));
    }
}

/// Inserting a child at the place its id gives keeps a sorted list sorted.
pub(crate) proof fn lemma_sorted_insert<T>(nodes: Seq<Node<T>>, cs: Seq<usize>, j: int, c: usize)
    requires
        ids_sorted(nodes, cs),
        0 <= j <= cs.len(),
        forall|k: int| 0 <= k < j ==> element_id_lt(nodes[#[trigger] cs[k] as int].id, nodes[c as int].id),
        j < cs.len() ==> !element_id_lt(nodes[cs[j] as int].id, nodes[c as int].id),
        j < cs.len() ==> nodes[cs[j] as int].id != nodes[c as int].id,
    ensures
        ids_sorted(nodes, cs.insert(j, c)),
{
    let r = cs.insert(j, c);
    let idc = nodes[c as int].id;
    if j < cs.len() {
        lemma_element_id_order(nodes[cs[j] as int].id, idc, idc);
    }
    assert forall|a: int, b: int| 0 <= a < b < r.len() implies element_id_lt(#[trigger] nodes[r[a] as int].id, #[trigger] nodes[r[b] as int].id) by {
        if a < j && b < j {
            assert(r[a] == cs[a] && r[b] == cs[b]);
        } else if a < j && b == j {
            assert(r[a] == cs[a] && r[b] == c);
        } else if a < j {
            assert(r[a] == cs[a] && r[b] == cs[b - 1]);
            assert(element_id_lt(nodes[cs[a] as int].id, idc));
            if j < cs.len() {
                if b - 1 > j {
                    assert(element_id_lt(nodes[cs[j] as int].id, nodes[cs[b - 1] as int].id));
                    lemma_element_id_order(idc, nodes[cs[j] as int].id, nodes[cs[b - 1] as int].id);
                }
                lemma_element_id_order(nodes[cs[a] as int].id, idc, nodes[cs[b - 1] as int].id);
            }
        } else if a == j {
            assert(r[a] == c && r[b] == cs[b - 1]);
            if b - 1 > j {
                assert(element_id_lt(nodes[cs[j] as int].id, nodes[cs[b - 1] as int].id));
                lemma_element_id_order(idc, nodes[cs[j] as int].id, nodes[cs[b - 1] as int].id);
            }
        } else {
            assert(r[a] == cs[a - 1] && r[b] == cs[b - 1]);
        }
    }
}

/// A new node with no children, added after the others, keeps the siblings
/// sorted.
pub(crate) proof fn lemma_sorted_push<T>(n1: Seq<Node<T>>, n2: Seq<Node<T>>, rc: Seq<usize>)
    requires
        siblings_sorted(n1, rc),
        children_in_range(n1, rc),
        n2.len() == n1.len() + 1,
        forall|x: int| 0 <= x < n1.len() ==> #[trigger] n2[x] == n1[x],
        left_of(n2, n1.len() as int).len() == 0,
        right_of(n2, n1.len() as int).len() == 0,
    ensures
        siblings_sorted(n2, rc),
        children_in_range(n2, rc),
{
    lemma_ids_sorted_frame(n1, n2, rc);
    assert forall|i: int| 0 <= i < n2.len() implies #[trigger] node_sorted(n2, i) by {
        if i < n1.len() {
            assert(node_sorted(n1, i));
            assert(n2[i] == n1[i]);
            lemma_ids_sorted_frame(n1, n2, left_of(n1, i));
            lemma_ids_sorted_frame(n1, n2, right_of(n1, i));
        }
    }
    assert forall|i: int, k: int| 0 <= i < n2.len() && 0 <= k < left_of(n2, i).len() implies #[trigger] left_of(n2, i)[k] < n2.len() by {
        if i < n1.len() {
            assert(n2[i] == n1[i]);
            assert(left_of(n1, i)[k] < n1.len());
        }
    }
    assert forall|i: int, k: int| 0 <= i < n2.len() && 0 <= k < right_of(n2, i).len() implies #[trigger] right_of(n2, i)[k] < n2.len() by {
        if i < n1.len() {
            assert(n2[i] == n1[i]);
            assert(right_of(n1, i)[k] < n1.len());
        }
    }
}

/// Inserting the node `c` into the `side` children of `p` at the place its
/// id gives, with every id kept and every other child list unchanged, keeps
/// the siblings sorted.
pub(crate) proof fn lemma_sorted_insert_child<T>(n0: Seq<Node<T>>, n2: Seq<Node<T>>, rc: Seq<usize>, p: int, side: Side, j: int, c: usize)
    requires
        siblings_sorted(n0, rc),
        children_in_range(n0, rc),
        n2.len() == n0.len(),
        0 <= p < n0.len(),
        c < n0.len(),
        forall|x: int| 0 <= x < n0.len() ==> (#[trigger] n2[x]).id == n0[x].id,
        forall|x: int| 0 <= x < n0.len() && x != p ==> left_of(n2, x) == left_of(n0, x) && right_of(n2, x) == right_of(n0, x),
        children_of(n2, p, side) == children_of(n0, p, side).insert(j, c),
        side == Side::Left ==> right_of(n2, p) == right_of(n0, p),
        side == Side::Right ==> left_of(n2, p) == left_of(n0, p),
        0 <= j <= children_of(n0, p, side).len(),
        forall|k: int| 0 <= k < j ==> element_id_lt(n0[#[trigger] children_of(n0, p, side)[k] as int].id, n0[c as int].id),
        j < children_of(n0, p, side).len() ==> !element_id_lt(n0[children_of(n0, p, side)[j] as int].id, n0[c as int].id)
            && n0[children_of(n0, p, side)[j] as int].id != n0[c as int].id,
    ensures
        siblings_sorted(n2, rc),
        children_in_range(n2, rc),
{
    let cs = children_of(n0, p, side);
    assert(node_sorted(n0, p));
    lemma_sorted_insert(n0, cs, j, c);
    lemma_ids_sorted_frame(n0, n2, rc);
    assert forall|k: int| 0 <= k < cs.insert(j, c).len() implies n0[#[trigger] cs.insert(j, c)[k] as int].id == n2[cs.insert(j, c)[k] as int].id by {
        if k < j {
            assert(cs.insert(j, c)[k] == cs[k]);
        } else if k > j {
            assert(cs.insert(j, c)[k] == cs[k - 1]);
        }
    }
    lemma_ids_sorted_frame(n0, n2, cs.insert(j, c));
    assert forall|i: int| 0 <= i < n2.len() implies #[trigger] node_sorted(n2, i) by {
        assert(node_sorted(n0, i));
        if i != p {
            lemma_ids_sorted_frame(n0, n2, left_of(n0, i));
            lemma_ids_sorted_frame(n0, n2, right_of(n0, i));
        } else {
            match side {
                Side::Left => {
                    lemma_ids_sorted_frame(n0, n2, right_of(n0, i));
                },
                Side::Right => {
                    lemma_ids_sorted_frame(n0, n2, left_of(n0, i));
                },
            }
        }
    }
    assert forall|i: int, k: int| 0 <= i < n2.len() && 0 <= k < left_of(n2, i).len() implies #[trigger] left_of(n2, i)[k] < n2.len() by {
        if i != p || side == Side::Right {
            assert(left_of(n2, i) == left_of(n0, i));
        } else {
            if k < j { assert(left_of(n2, i)[k] == cs[k]); } else if k > j { assert(left_of(n2, i)[k] == cs[k - 1]); }
        }
    }
    assert forall|i: int, k: int| 0 <= i < n2.len() && 0 <= k < right_of(n2, i).len() implies #[trigger] right_of(n2, i)[k] < n2.len() by {
        if i != p || side == Side::Left {
            assert(right_of(n2, i) == right_of(n0, i));
        } else {
            if k < j { assert(right_of(n2, i)[k] == cs[k]); } else if k > j { assert(right_of(n2, i)[k] == cs[k - 1]); }
        }
    }
}

/// Inserting the node `c` into the root's children at the place its id gives
/// keeps the siblings sorted.
pub(crate) proof fn lemma_sorted_insert_root<T>(nodes: Seq<Node<T>>, rc: Seq<usize>, j: int, c: usize)
    requires
        siblings_sorted(nodes, rc),
        children_in_range(nodes, rc),
        c < nodes.len(),
        0 <= j <= rc.len(),
        forall|k: int| 0 <= k < j ==> element_id_lt(nodes[#[trigger] rc[k] as int].id, nodes[c as int].id),
        j < rc.len() ==> !element_id_lt(nodes[rc[j] as int].id, nodes[c as int].id) && nodes[rc[j] as int].id != nodes[c as int].id,
    ensures
        siblings_sorted(nodes, rc.insert(j, c)),
        children_in_range(nodes, rc.insert(j, c)),
{
    lemma_sorted_insert(nodes, rc, j, c);
    assert forall|k: int| 0 <= k < rc.insert(j, c).len() implies #[trigger] rc.insert(j, c)[k] < nodes.len() by {
        if k < j { assert(rc.insert(j, c)[k] == rc[k]); } else if k > j { assert(rc.insert(j, c)[k] == rc[k - 1]); }
    }
}

/// Linking node `c`, which hangs nowhere, into the `side` children of node
/// `p` at the place its id gives keeps the siblings of a tree sorted.
pub(crate) proof fn lemma_sorted_link<T>(n0: Seq<Node<T>>, s0: Seq<Seq<usize>>, n2: Seq<Node<T>>, rc: Seq<usize>, p: int, side: Side, j: int, c: usize)
    requires
        tree_ok(n0, s0),
        root_core(n0, rc),
        siblings_sorted(n0, rc),
        0 <= p < n0.len(),
        c < n0.len(),
        n0[c as int].parent_index is None,
        n2.len() == n0.len(),
        forall|x: int| 0 <= x < n0.len() ==> (#[trigger] n2[x]).id == n0[x].id,
        forall|x: int| 0 <= x < n0.len() && x != p ==> (#[trigger] n2[x]).left_children == n0[x].left_children
            && n2[x].base.right_children == n0[x].base.right_children,
        children_of(n2, p, side) == children_of(n0, p, side).insert(j, c),
        side == Side::Left ==> right_of(n2, p) == right_of(n0, p),
        side == Side::Right ==> left_of(n2, p) == left_of(n0, p),
        0 <= j <= children_of(n0, p, side).len(),
        forall|k: int| 0 <= k < j ==> element_id_lt(n0[#[trigger] children_of(n0, p, side)[k] as int].id, n0[c as int].id),
        j < children_of(n0, p, side).len() ==> !element_id_lt(n0[children_of(n0, p, side)[j] as int].id, n0[c as int].id),
    ensures
        siblings_sorted(n2, rc),
        children_in_range(n2, rc),
{
    lemma_children_in_range(n0, s0, rc);
    let cs = children_of(n0, p, side);
    if j < cs.len() {
        lemma_tree_at(n0, s0, p);
        match side {
            Side::Left => assert(child_link(n0, p, left_of(n0, p)[j], Side::Left)),
            Side::Right => assert(child_link(n0, p, right_of(n0, p)[j], Side::Right)),
        }
        lemma_tree_ids(n0, s0, cs[j] as int, c as int);
    }
    assert forall|x: int| 0 <= x < n0.len() && x != p implies left_of(n2, x) == left_of(n0, x) && right_of(n2, x) == right_of(n0, x) by {
        assert(n2[x].left_children == n0[x].left_children);
    }
    lemma_sorted_insert_child(n0, n2, rc, p, side, j, c);
}

impl<T> List<T> {
    /// A change that keeps every node's id and child lists, and the root's
    /// children, keeps the siblings sorted.
    pub(crate) proof fn lemma_sorted_frame(&self, other: &Self)
        requires
            self.wf(),
            shape_eq(self.nodes@, other.nodes@),
            other.root.right_children == self.root.right_children,
        ensures
            self.sorted() ==> other.sorted(),
    {
        reveal(List::sorted);
        if self.sorted() {
            lemma_children_in_range(self.nodes@, self.spans@, self.root.right_children@);
            lemma_sorted_shape(self.nodes@, other.nodes@, self.root.right_children@);
        }
    }
}

} // verus!
