//! The exact shape an insert gives the tree when its parent is in the
//! document and nothing waits for the inserted elements.

use vstd::prelude::*;
use crate::crdts::id::{ElementId, element_id_lt, lemma_element_id_order};
use super::{List, Node, Parent, Side, left_of, right_of, children_of, run_id, run_parent};
use super::siblings::ids_sorted;

verus! {

/// In `l`, node `h` hangs under `parent` (an element of `l0` or the root): it
/// joined the matching list of children, and every other list of children of
/// a node of `l0`, and the root's, is as in `l0`.
#[verifier::opaque]
pub(crate) open spec fn hung<T>(l0: List<T>, l: List<T>, h: usize, parent: Parent) -> bool {
    match parent {
        Parent::Root => {
            &&& l.nodes@[h as int].parent_index is None
            &&& exists|j: int| 0 <= j <= l0.root.right_children@.len()
                && l.root.right_children@ == #[trigger] l0.root.right_children@.insert(j, h)
            &&& forall|x: int| 0 <= x < l0.nodes@.len() ==> #[trigger] left_of(l.nodes@, x) == left_of(l0.nodes@, x)
                && right_of(l.nodes@, x) == right_of(l0.nodes@, x)
        },
        Parent::Node { id: pid, side } => {
            let p = l0.index_of(pid)->0;
            &&& l0.index_of(pid) is Some
            &&& l.nodes@[h as int].parent_index == Some(p as usize)
            &&& l.root.right_children@ == l0.root.right_children@
            &&& exists|j: int| 0 <= j <= children_of(l0.nodes@, p, side).len()
                && children_of(l.nodes@, p, side) == #[trigger] children_of(l0.nodes@, p, side).insert(j, h)
            &&& side == Side::Left ==> right_of(l.nodes@, p) == right_of(l0.nodes@, p)
            &&& side == Side::Right ==> left_of(l.nodes@, p) == left_of(l0.nodes@, p)
            &&& forall|x: int| 0 <= x < l0.nodes@.len() && x != p ==> #[trigger] left_of(l.nodes@, x) == left_of(l0.nodes@, x)
                && right_of(l.nodes@, x) == right_of(l0.nodes@, x)
        },
    }
}

/// `l` is `l0` with one node more, which has no children and hangs under
/// `parent`; no node of `l0` changed the node it hangs on.
#[verifier::opaque]
pub(crate) open spec fn grafted<T>(l0: List<T>, l: List<T>, parent: Parent) -> bool {
    let n0 = l0.nodes@.len();
    &&& l.nodes@.len() == n0 + 1
    &&& forall|x: int| 0 <= x < n0 ==> (#[trigger] l.nodes@[x]).parent_index == l0.nodes@[x].parent_index
    &&& left_of(l.nodes@, n0 as int).len() == 0
    &&& right_of(l.nodes@, n0 as int).len() == 0
    &&& hung(l0, l, n0 as usize, parent)
}

/// `l` is `l0` with the first `k` elements of the run that starts at `id`
/// added as a chain: the first under `parent`, each further one the only
/// right child of the one before, the last without children.
pub closed spec fn run_grafted<T>(l0: List<T>, l: List<T>, parent: Parent, k: nat) -> bool {
    let n0 = l0.nodes@.len();
    &&& l.nodes@.len() == n0 + k
    &&& l.nodes@.len() <= usize::MAX
    &&& forall|x: int| 0 <= x < n0 ==> (#[trigger] l.nodes@[x]).parent_index == l0.nodes@[x].parent_index
    &&& forall|x: int| n0 < x < n0 + k ==> (#[trigger] l.nodes@[x]).parent_index == Some((x - 1) as usize)
    &&& forall|x: int| n0 <= x < n0 + k ==> #[trigger] left_of(l.nodes@, x).len() == 0
        && right_of(l.nodes@, x) == if x + 1 < n0 + k { seq![(x + 1) as usize] } else { Seq::<usize>::empty() }
    &&& k > 0 ==> hung(l0, l, n0 as usize, parent)
    &&& k == 0 ==> l.nodes@ == l0.nodes@ && l.root == l0.root
}

/// No element of a run grafted yet: the list is as it was.
pub(crate) proof fn lemma_run_graft_start<T>(l0: List<T>, parent: Parent)
    requires
        l0.nodes@.len() <= usize::MAX,
    ensures
        run_grafted(l0, l0, parent, 0),
{
}

/// Grafting the next element of a run onto the chain extends the chain.
pub(crate) proof fn lemma_run_graft_step<T>(l0: List<T>, before: List<T>, after: List<T>, id: ElementId, parent: Parent, k: nat)
    requires
        run_grafted(l0, before, parent, k),
        grafted(before, after, run_parent(parent, id, k as int)),
        k == 0 ==> before == l0,
        k > 0 ==> before.index_of(run_id(id, k - 1)) == Some(l0.nodes@.len() + k - 1),
        l0.nodes@.len() + k + 1 <= usize::MAX,
    ensures
        run_grafted(l0, after, parent, k + 1),
{
    reveal(hung);
    reveal(grafted);
    let n0 = l0.nodes@.len();
    if k > 0 {
        let p = n0 + k - 1;
        assert(left_of(before.nodes@, p).len() == 0);
        assert(right_of(before.nodes@, p).len() == 0);
        let j = choose|j: int| 0 <= j <= children_of(before.nodes@, p, Side::Right).len()
            && children_of(after.nodes@, p, Side::Right) == #[trigger] children_of(before.nodes@, p, Side::Right).insert(j, (n0 + k) as usize);
        assert(right_of(after.nodes@, p) == seq![(n0 + k) as usize]);
        assert forall|x: int| n0 <= x < n0 + k + 1 implies #[trigger] left_of(after.nodes@, x).len() == 0
            && right_of(after.nodes@, x) == if x + 1 < n0 + k + 1 { seq![(x + 1) as usize] } else { Seq::<usize>::empty() } by {
            if x < p {
                assert(left_of(after.nodes@, x) == left_of(before.nodes@, x));
            }
        }
        match parent {
            Parent::Root => {
                let j0 = choose|j: int| 0 <= j <= l0.root.right_children@.len()
                    && before.root.right_children@ == #[trigger] l0.root.right_children@.insert(j, n0 as usize);
                assert(after.root.right_children@ == l0.root.right_children@.insert(j0, n0 as usize));
                assert forall|x: int| 0 <= x < l0.nodes@.len() implies #[trigger] left_of(after.nodes@, x) == left_of(l0.nodes@, x)
                    && right_of(after.nodes@, x) == right_of(l0.nodes@, x) by {
                    assert(x != p);
                    assert(left_of(after.nodes@, x) == left_of(before.nodes@, x));
                    assert(left_of(before.nodes@, x) == left_of(l0.nodes@, x));
                }
            },
            Parent::Node { id: pid, side } => {
                let q = l0.index_of(pid)->0;
                let j0 = choose|j: int| 0 <= j <= children_of(l0.nodes@, q, side).len()
                    && children_of(before.nodes@, q, side) == #[trigger] children_of(l0.nodes@, q, side).insert(j, n0 as usize);
                assert(0 <= q < n0);
                assert(left_of(after.nodes@, q) == left_of(before.nodes@, q));
                assert(right_of(after.nodes@, q) == right_of(before.nodes@, q));
                assert(children_of(after.nodes@, q, side) == children_of(l0.nodes@, q, side).insert(j0, n0 as usize));
                assert forall|x: int| 0 <= x < l0.nodes@.len() && x != q implies #[trigger] left_of(after.nodes@, x) == left_of(l0.nodes@, x)
                    && right_of(after.nodes@, x) == right_of(l0.nodes@, x) by {
                    assert(x != p);
                    assert(left_of(after.nodes@, x) == left_of(before.nodes@, x));
                    assert(left_of(before.nodes@, x) == left_of(l0.nodes@, x));
                }
            },
        }
    }
    let k1: nat = (k + 1) as nat;
    assert(after.nodes@.len() == n0 + k1);
    assert forall|x: int| 0 <= x < n0 implies (#[trigger] after.nodes@[x]).parent_index == l0.nodes@[x].parent_index by {
        assert(after.nodes@[x].parent_index == before.nodes@[x].parent_index);
        assert(before.nodes@[x].parent_index == l0.nodes@[x].parent_index);
    }
    assert forall|x: int| n0 < x < n0 + k1 implies (#[trigger] after.nodes@[x]).parent_index == Some((x - 1) as usize) by {
        if x < n0 + k {
            assert(after.nodes@[x].parent_index == before.nodes@[x].parent_index);
        } else {
            assert(run_parent(parent, id, k as int) == Parent::Node { id: run_id(id, k - 1), side: Side::Right });
        }
    }
    if k == 0 {
        assert(run_parent(parent, id, 0) == parent);
        assert(left_of(after.nodes@, n0 as int).len() == 0);
        assert(right_of(after.nodes@, n0 as int).len() == 0);
    }
    assert(hung(l0, after, n0 as usize, parent));
    assert forall|x: int| n0 <= x < n0 + k1 implies #[trigger] left_of(after.nodes@, x).len() == 0
        && right_of(after.nodes@, x) == if x + 1 < n0 + k1 { seq![(x + 1) as usize] } else { Seq::<usize>::empty() } by {
        let want = if x + 1 < n0 + k1 { seq![(x + 1) as usize] } else { Seq::<usize>::empty() };
        if k == 0 {
            assert(x == n0 as int);
            assert(right_of(after.nodes@, x) =~= Seq::<usize>::empty());
        } else if x < n0 + k - 1 {
            assert(left_of(after.nodes@, x) == left_of(before.nodes@, x));
            assert(left_of(before.nodes@, x).len() == 0);
        }
        assert(right_of(after.nodes@, x) =~= want);
    }
    assert(run_grafted(l0, after, parent, k1));
}

/// Node `i` is where an element under `parent` hangs in `l`, on side `side`.
pub(crate) open spec fn targets<T>(l: List<T>, parent: Parent, i: int, side: Side) -> bool {
    parent matches Parent::Node { id, side: s } && l.index_of(id) == Some(i) && s == side
}

proof fn lemma_insert_contains(s: Seq<usize>, j: int, h: usize, z: usize)
    requires
        0 <= j <= s.len(),
    ensures
        s.insert(j, h).contains(z) <==> s.contains(z) || z == h,
{
    let t = s.insert(j, h);
    if t.contains(z) {
        let m = choose|m: int| 0 <= m < t.len() && t[m] == z;
        if m < j {
            assert(s[m] == z);
        } else if m > j {
            assert(s[m - 1] == z);
        }
    }
    if s.contains(z) {
        let m = choose|m: int| 0 <= m < s.len() && s[m] == z;
        if m < j {
            assert(t[m] == z);
        } else {
            assert(t[m + 1] == z);
        }
    }
    if z == h {
        assert(t[j] == h);
    }
}

/// The children of a node of `l0`, and the root's, after the first `k`
/// elements of a run were grafted: those of `l0`, and the run's first element
/// where it hangs.
pub(crate) proof fn lemma_run_members<T>(l0: List<T>, l: List<T>, parent: Parent, k: nat, i: int, side: Side, z: usize)
    requires
        run_grafted(l0, l, parent, k),
        0 <= i < l0.nodes@.len(),
    ensures
        children_of(l.nodes@, i, side).contains(z) <==> children_of(l0.nodes@, i, side).contains(z)
            || (k > 0 && targets(l0, parent, i, side) && z == l0.nodes@.len()),
        l.root.right_children@.contains(z) <==> l0.root.right_children@.contains(z)
            || (k > 0 && parent == Parent::Root && z == l0.nodes@.len()),
        k == 0 || !targets(l0, parent, i, side) ==> children_of(l.nodes@, i, side) == children_of(l0.nodes@, i, side),
        k == 0 || parent !is Root ==> l.root.right_children@ == l0.root.right_children@,
{
    reveal(hung);
    let h = l0.nodes@.len() as usize;
    if k > 0 {
        match parent {
            Parent::Root => {
                assert(left_of(l.nodes@, i) == left_of(l0.nodes@, i));
                let j = choose|j: int| 0 <= j <= l0.root.right_children@.len()
                    && l.root.right_children@ == #[trigger] l0.root.right_children@.insert(j, h);
                lemma_insert_contains(l0.root.right_children@, j, h, z);
            },
            Parent::Node { id, side: s } => {
                let p = l0.index_of(id)->0;
                if i == p {
                    if s == side {
                        let j = choose|j: int| 0 <= j <= children_of(l0.nodes@, p, s).len()
                            && children_of(l.nodes@, p, s) == #[trigger] children_of(l0.nodes@, p, s).insert(j, h);
                        lemma_insert_contains(children_of(l0.nodes@, p, s), j, h, z);
                    }
                } else {
                    assert(left_of(l.nodes@, i) == left_of(l0.nodes@, i));
                }
            },
        }
    }
}

/// The root's children after the first `k` elements of a run were grafted:
/// those of `l0`, and the run's first element if it hangs under the root.
pub(crate) proof fn lemma_run_root_members<T>(l0: List<T>, l: List<T>, parent: Parent, k: nat, z: usize)
    requires
        run_grafted(l0, l, parent, k),
    ensures
        l.root.right_children@.contains(z) <==> l0.root.right_children@.contains(z)
            || (k > 0 && parent == Parent::Root && z == l0.nodes@.len()),
{
    reveal(hung);
    let h = l0.nodes@.len() as usize;
    if k > 0 {
        if parent == Parent::Root {
            let j = choose|j: int| 0 <= j <= l0.root.right_children@.len()
                && l.root.right_children@ == #[trigger] l0.root.right_children@.insert(j, h);
            lemma_insert_contains(l0.root.right_children@, j, h, z);
        }
    }
}

/// The children of the `k`-th element of a run grafted whole.
pub(crate) proof fn lemma_run_chain<T>(l0: List<T>, l: List<T>, parent: Parent, len: nat, x: int)
    requires
        run_grafted(l0, l, parent, len),
        l0.nodes@.len() <= x < l0.nodes@.len() + len,
    ensures
        left_of(l.nodes@, x) == Seq::<usize>::empty(),
        right_of(l.nodes@, x) == if x + 1 < l0.nodes@.len() + len { seq![(x + 1) as usize] } else { Seq::<usize>::empty() },
{
    assert(left_of(l.nodes@, x).len() == 0);
    assert(left_of(l.nodes@, x) =~= Seq::<usize>::empty());
}

/// A grafted run leaves the nodes that were there hanging where they hung,
/// and its own elements hang on something, but for a first element under the root.
pub(crate) proof fn lemma_run_hangs<T>(l0: List<T>, l: List<T>, parent: Parent, len: nat, x: int)
    requires
        run_grafted(l0, l, parent, len),
        0 <= x < l0.nodes@.len() + len,
    ensures
        x < l0.nodes@.len() ==> l.nodes@[x].parent_index == l0.nodes@[x].parent_index,
        x > l0.nodes@.len() ==> l.nodes@[x].parent_index is Some,
        x == l0.nodes@.len() && parent !is Root ==> l.nodes@[x].parent_index is Some,
{
    reveal(hung);
}

/// A grafted run adds as many nodes as it has elements.
pub(crate) proof fn lemma_run_len<T>(l0: List<T>, l: List<T>, parent: Parent, len: nat)
    requires
        run_grafted(l0, l, parent, len),
    ensures
        l.nodes@.len() == l0.nodes@.len() + len,
        l.nodes@.len() <= usize::MAX,
        len == 0 ==> l.nodes@ == l0.nodes@ && l.root == l0.root,
{
}

/// Two lists of children that both run by increasing id and hold the same
/// nodes are the same list.
pub(crate) proof fn lemma_sorted_unique<T>(nodes: Seq<Node<T>>, s1: Seq<usize>, s2: Seq<usize>)
    requires
        ids_sorted(nodes, s1),
        ids_sorted(nodes, s2),
        forall|y: usize| s1.contains(y) <==> s2.contains(y),
    ensures
        s1 == s2,
    decreases s1.len(),
{
    if s1.len() == 0 {
        if s2.len() > 0 {
            assert(s2.contains(s2[0]));
        }
    } else {
        assert(s1.contains(s1[0]));
        assert(s2.contains(s2[0]));
        let a = choose|m: int| 0 <= m < s2.len() && s2[m] == s1[0];
        let b = choose|m: int| 0 <= m < s1.len() && s1[m] == s2[0];
        if a > 0 && b > 0 {
            assert(element_id_lt(nodes[s2[0] as int].id, nodes[s2[a] as int].id));
            assert(element_id_lt(nodes[s1[0] as int].id, nodes[s1[b] as int].id));
            lemma_element_id_order(nodes[s1[0] as int].id, nodes[s2[0] as int].id, nodes[s1[0] as int].id);
        }
        if a == 0 {
            assert(s1[0] == s2[0]);
        } else {
            assert(s1[0] == s2[0]);
        }
        let t1 = s1.subrange(1, s1.len() as int);
        let t2 = s2.subrange(1, s2.len() as int);
        assert forall|y: usize| t1.contains(y) <==> t2.contains(y) by {
            if t1.contains(y) {
                let m = choose|m: int| 0 <= m < t1.len() && t1[m] == y;
                assert(s1[m + 1] == y);
                assert(s2.contains(y));
                let m2 = choose|m2: int| 0 <= m2 < s2.len() && s2[m2] == y;
                if m2 == 0 {
                    assert(element_id_lt(nodes[s1[0] as int].id, nodes[s1[m + 1] as int].id));
                    lemma_element_id_order(nodes[y as int].id, nodes[y as int].id, nodes[y as int].id);
                }
                assert(t2[m2 - 1] == y);
            }
            if t2.contains(y) {
                let m = choose|m: int| 0 <= m < t2.len() && t2[m] == y;
                assert(s2[m + 1] == y);
                assert(s1.contains(y));
                let m1 = choose|m1: int| 0 <= m1 < s1.len() && s1[m1] == y;
                if m1 == 0 {
                    assert(element_id_lt(nodes[s2[0] as int].id, nodes[s2[m + 1] as int].id));
                    lemma_element_id_order(nodes[y as int].id, nodes[y as int].id, nodes[y as int].id);
                }
                assert(t1[m1 - 1] == y);
            }
        }
        assert forall|x: int, z: int| 0 <= x < z < t1.len() implies element_id_lt(#[trigger] nodes[t1[x] as int].id, #[trigger] nodes[t1[z] as int].id) by {
            assert(t1[x] == s1[x + 1] && t1[z] == s1[z + 1]);
        }
        assert forall|x: int, z: int| 0 <= x < z < t2.len() implies element_id_lt(#[trigger] nodes[t2[x] as int].id, #[trigger] nodes[t2[z] as int].id) by {
            assert(t2[x] == s2[x + 1] && t2[z] == s2[z + 1]);
        }
        lemma_sorted_unique(nodes, t1, t2);
        assert(s1 == seq![s1[0]] + t1);
        assert(s2 == seq![s2[0]] + t2);
    }
}

} // verus!
