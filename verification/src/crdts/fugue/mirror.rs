//! Two trees that match node for node, under a renaming of the nodes, spell
//! the same document.

use vstd::prelude::*;
use crate::crdts::walker;
use super::{Node, tree_ok, left_of, right_of, docs, Side};
use super::seqs::flat;
use super::tree::{lemma_tree_at, lemma_child_shorter};
use super::siblings::ids_sorted;
use super::graft::lemma_sorted_unique;
use crate::crdts::id::element_id_lt;

verus! {

/// The nodes `bn` match the nodes `an` under the renaming `f`: each node of
/// `an` has its content, visibility and children (renamed) at `f` of it in `bn`.
pub(crate) open spec fn mirrors<T>(an: Seq<Node<T>>, bn: Seq<Node<T>>, f: spec_fn(usize) -> usize) -> bool {
    &&& bn.len() == an.len()
    &&& forall|x: int| 0 <= x < an.len() ==> {
        &&& #[trigger] f(x as usize) < bn.len()
        &&& bn[f(x as usize) as int].content == an[x].content
        &&& bn[f(x as usize) as int].effect_deleted == an[x].effect_deleted
        &&& bn[f(x as usize) as int].prepare_state == an[x].prepare_state
        &&& left_of(bn, f(x as usize) as int) == left_of(an, x).map_values(f)
        &&& right_of(bn, f(x as usize) as int) == right_of(an, x).map_values(f)
    }
}

/// Flattening renamed children over matching spans gives the renamed flattening.
proof fn lemma_flat_map(sa: Seq<Seq<usize>>, sb: Seq<Seq<usize>>, cs: Seq<usize>, f: spec_fn(usize) -> usize)
    requires
        forall|k: int| 0 <= k < cs.len() ==> sb[f(#[trigger] cs[k]) as int] == sa[cs[k] as int].map_values(f),
    ensures
        flat(sb, cs.map_values(f)) == flat(sa, cs).map_values(f),
    decreases cs.len(),
{
    if cs.len() > 0 {
        let d = cs.drop_last();
        assert(cs.map_values(f).drop_last() == d.map_values(f));
        assert forall|k: int| 0 <= k < d.len() implies sb[f(#[trigger] d[k]) as int] == sa[d[k] as int].map_values(f) by {
            assert(d[k] == cs[k]);
        }
        lemma_flat_map(sa, sb, d, f);
        assert(cs.map_values(f).last() == f(cs.last()));
        assert(sb[f(cs[cs.len() - 1]) as int] == sa[cs[cs.len() - 1] as int].map_values(f));
        assert((flat(sa, d) + sa[cs.last() as int]).map_values(f) == flat(sa, d).map_values(f) + sa[cs.last() as int].map_values(f));
    } else {
        assert(cs.map_values(f) == Seq::<usize>::empty());
        assert(flat(sa, cs).map_values(f) == Seq::<usize>::empty());
    }
}

/// The span of a node, renamed, is the span of its match.
proof fn lemma_mirror_span<T>(an: Seq<Node<T>>, sa: Seq<Seq<usize>>, bn: Seq<Node<T>>, sb: Seq<Seq<usize>>, f: spec_fn(usize) -> usize, x: usize)
    requires
        tree_ok(an, sa),
        tree_ok(bn, sb),
        mirrors(an, bn, f),
        x < an.len(),
    ensures
        sb[f(x) as int] == sa[x as int].map_values(f),
    decreases sa[x as int].len(),
{
    lemma_tree_at(an, sa, x as int);
    assert(f((x as int) as usize) < bn.len());
    lemma_tree_at(bn, sb, f(x) as int);
    let l = left_of(an, x as int);
    let r = right_of(an, x as int);
    assert forall|k: int| 0 <= k < l.len() implies sb[f(#[trigger] l[k]) as int] == sa[l[k] as int].map_values(f) by {
        assert(super::node_links_ok(an, x as int));
        assert(super::child_link(an, x as int, l[k], Side::Left));
        lemma_child_shorter(an, sa, x, Side::Left, k);
        lemma_mirror_span(an, sa, bn, sb, f, l[k]);
    }
    assert forall|k: int| 0 <= k < r.len() implies sb[f(#[trigger] r[k]) as int] == sa[r[k] as int].map_values(f) by {
        assert(super::node_links_ok(an, x as int));
        assert(super::child_link(an, x as int, r[k], Side::Right));
        lemma_child_shorter(an, sa, x, Side::Right, k);
        lemma_mirror_span(an, sa, bn, sb, f, r[k]);
    }
    lemma_flat_map(sa, sb, l, f);
    lemma_flat_map(sa, sb, r, f);
    assert(left_of(bn, f(x) as int) == l.map_values(f));
    assert(right_of(bn, f(x) as int) == r.map_values(f));
    assert((flat(sa, l) + seq![x] + flat(sa, r)).map_values(f)
        == flat(sa, l).map_values(f) + seq![f(x)] + flat(sa, r).map_values(f));
}

/// The document of renamed nodes is the document of the nodes they match.
proof fn lemma_docs_map<T>(an: Seq<Node<T>>, bn: Seq<Node<T>>, o: Seq<usize>, f: spec_fn(usize) -> usize, v: walker::View)
    requires
        mirrors(an, bn, f),
        forall|k: int| 0 <= k < o.len() ==> #[trigger] o[k] < an.len(),
    ensures
        docs(bn, o.map_values(f), v) == docs(an, o, v),
    decreases o.len(),
{
    if o.len() > 0 {
        let d = o.drop_last();
        assert(o.map_values(f).drop_last() == d.map_values(f));
        assert forall|k: int| 0 <= k < d.len() implies #[trigger] d[k] < an.len() by {
            assert(d[k] == o[k]);
        }
        lemma_docs_map(an, bn, d, f, v);
        let y = o.last();
        assert(o[o.len() - 1] < an.len());
        assert(f((y as int) as usize) < bn.len());
        assert(o.map_values(f).last() == f(y));
    }
}

/// Two well-formed trees that match under a renaming, down from the root's
/// children, spell the same document in every view.
pub(crate) proof fn lemma_mirror_docs<T>(an: Seq<Node<T>>, sa: Seq<Seq<usize>>, ra: Seq<usize>,
    bn: Seq<Node<T>>, sb: Seq<Seq<usize>>, rb: Seq<usize>, f: spec_fn(usize) -> usize)
    requires
        tree_ok(an, sa),
        tree_ok(bn, sb),
        mirrors(an, bn, f),
        rb == ra.map_values(f),
        super::root_core(an, ra),
    ensures
        forall|v: walker::View| docs(bn, flat(sb, rb), v) == docs(an, flat(sa, ra), v),
{
    assert forall|k: int| 0 <= k < ra.len() implies sb[f(#[trigger] ra[k]) as int] == sa[ra[k] as int].map_values(f) by {
        lemma_mirror_span(an, sa, bn, sb, f, ra[k]);
    }
    lemma_flat_map(sa, sb, ra, f);
    let o = flat(sa, ra);
    super::tree::lemma_order_nodup(an, sa, ra);
    assert forall|v: walker::View| docs(bn, flat(sb, rb), v) == docs(an, flat(sa, ra), v) by {
        lemma_docs_map(an, bn, o, f, v);
    }
}

/// A sorted list of children that is a sorted list of `an` renamed: the
/// same nodes but for at most two, which the renaming moves.
pub(crate) proof fn lemma_list_mirror<T>(an: Seq<Node<T>>, bn: Seq<Node<T>>, s0: Seq<usize>, sa: Seq<usize>, sb: Seq<usize>,
    f: spec_fn(usize) -> usize, ca: bool, ha: usize, hb: usize, cg: bool, ga: usize, gb: usize)
    requires
        ids_sorted(an, sa),
        ids_sorted(bn, sb),
        forall|z: usize| sa.contains(z) <==> s0.contains(z) || (ca && z == ha) || (cg && z == ga),
        forall|z: usize| sb.contains(z) <==> s0.contains(z) || (ca && z == hb) || (cg && z == gb),
        forall|z: usize| #[trigger] s0.contains(z) ==> f(z) == z,
        ca ==> f(ha) == hb,
        cg ==> f(ga) == gb,
        forall|k: int| 0 <= k < sa.len() ==> bn[f(#[trigger] sa[k]) as int].id == an[sa[k] as int].id,
    ensures
        sb == sa.map_values(f),
{
    let m = sa.map_values(f);
    assert forall|a: int, b: int| 0 <= a < b < m.len() implies element_id_lt(#[trigger] bn[m[a] as int].id, #[trigger] bn[m[b] as int].id) by {
        assert(m[a] == f(sa[a]) && m[b] == f(sa[b]));
        assert(element_id_lt(an[sa[a] as int].id, an[sa[b] as int].id));
    }
    assert forall|z: usize| m.contains(z) <==> sb.contains(z) by {
        if m.contains(z) {
            let k = choose|k: int| 0 <= k < m.len() && m[k] == z;
            let w = sa[k];
            assert(sa.contains(w));
            assert(m[k] == f(w));
        }
        if sb.contains(z) {
            if s0.contains(z) {
                assert(sa.contains(z));
                let k = choose|k: int| 0 <= k < sa.len() && sa[k] == z;
                assert(m[k] == f(z));
            } else if ca && z == hb {
                assert(sa.contains(ha));
                let k = choose|k: int| 0 <= k < sa.len() && sa[k] == ha;
                assert(m[k] == f(ha));
            } else {
                assert(sa.contains(ga));
                let k = choose|k: int| 0 <= k < sa.len() && sa[k] == ga;
                assert(m[k] == f(ga));
            }
        }
    }
    lemma_sorted_unique(bn, m, sb);
}

} // verus!
