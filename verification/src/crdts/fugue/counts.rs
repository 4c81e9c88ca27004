//! Facts about counting and collecting the visible nodes of a sequence.

use vstd::prelude::*;
use super::{Node, cnt, docs, visible};
use crate::crdts::walker;

verus! {

pub(crate) proof fn lemma_cnt_concat<T>(nodes: Seq<Node<T>>, a: Seq<usize>, b: Seq<usize>, v: walker::View)
    ensures
        cnt(nodes, a + b, v) == cnt(nodes, a, v) + cnt(nodes, b, v),
        docs(nodes, a + b, v) == docs(nodes, a, v) + docs(nodes, b, v),
    decreases b.len(),
{
    if b.len() == 0 {
        assert(a + b == a);
        assert(docs(nodes, a, v) + Seq::<T>::empty() == docs(nodes, a, v));
    } else {
        lemma_cnt_concat(nodes, a, b.drop_last(), v);
        assert((a + b).drop_last() == a + b.drop_last());
        assert((a + b).last() == b.last());
        let x = if visible(nodes[b.last() as int], v) { seq![nodes[b.last() as int].content] } else { Seq::<T>::empty() };
        assert(docs(nodes, a, v) + docs(nodes, b.drop_last(), v) + x == docs(nodes, a, v) + (docs(nodes, b.drop_last(), v) + x));
    }
}

pub(crate) proof fn lemma_cnt_single<T>(nodes: Seq<Node<T>>, i: usize, v: walker::View)
    ensures
        cnt(nodes, seq![i], v) == if visible(nodes[i as int], v) { 1nat } else { 0nat },
        docs(nodes, seq![i], v) == if visible(nodes[i as int], v) { seq![nodes[i as int].content] } else { Seq::<T>::empty() },
{
    assert(seq![i].drop_last() == Seq::<usize>::empty());
    assert(cnt(nodes, Seq::<usize>::empty(), v) == 0);
    assert(docs(nodes, Seq::<usize>::empty(), v) == Seq::<T>::empty());
    let x = if visible(nodes[i as int], v) { seq![nodes[i as int].content] } else { Seq::<T>::empty() };
    assert(Seq::<T>::empty() + x == x);
}

pub(crate) proof fn lemma_cnt_bounds<T>(nodes: Seq<Node<T>>, s: Seq<usize>, v: walker::View)
    ensures
        cnt(nodes, s, v) <= s.len(),
        docs(nodes, s, v).len() == cnt(nodes, s, v),
    decreases s.len(),
{
    if s.len() > 0 {
        lemma_cnt_bounds(nodes, s.drop_last(), v);
    }
}

/// Counts and contents depend only on the nodes the sequence names.
pub(crate) proof fn lemma_cnt_frame<T>(n1: Seq<Node<T>>, n2: Seq<Node<T>>, s: Seq<usize>, v: walker::View)
    requires
        forall|k: int| 0 <= k < s.len() ==> visible(n1[s[k] as int], v) == visible(n2[s[k] as int], v)
            && n1[s[k] as int].content == n2[s[k] as int].content,
    ensures
        cnt(n1, s, v) == cnt(n2, s, v),
        docs(n1, s, v) == docs(n2, s, v),
    decreases s.len(),
{
    if s.len() > 0 {
        lemma_cnt_frame(n1, n2, s.drop_last(), v);
        assert(s.last() == s[s.len() - 1]);
    }
}

/// Changing the visibility of one node that `s` holds exactly once moves the
/// count by one.
pub(crate) proof fn lemma_cnt_flip<T>(n1: Seq<Node<T>>, n2: Seq<Node<T>>, s: Seq<usize>, v: walker::View, n: usize)
    requires
        s.no_duplicates(),
        forall|k: int| 0 <= k < s.len() && s[k] != n ==> visible(n1[s[k] as int], v) == visible(n2[s[k] as int], v),
    ensures
        !s.contains(n) ==> cnt(n1, s, v) == cnt(n2, s, v),
        s.contains(n) ==> cnt(n2, s, v) as int == cnt(n1, s, v) as int
            + (if visible(n2[n as int], v) { 1int } else { 0int }) - (if visible(n1[n as int], v) { 1int } else { 0int }),
    decreases s.len(),
{
    if s.len() > 0 {
        let d = s.drop_last();
        assert forall|k: int| 0 <= k < d.len() && d[k] != n implies visible(n1[d[k] as int], v) == visible(n2[d[k] as int], v) by {
            assert(d[k] == s[k]);
        }
        lemma_cnt_flip(n1, n2, d, v, n);
        assert(s.last() == s[s.len() - 1]);
        if s.last() == n {
            assert(!d.contains(n)) by {
                if d.contains(n) {
                    let j = choose|j: int| 0 <= j < d.len() && d[j] == n;
                    assert(s[j] == s[s.len() - 1]);
                }
            }
        } else {
            if s.contains(n) {
                let j = choose|j: int| 0 <= j < s.len() && s[j] == n;
                assert(d[j] == n);
            }
            if d.contains(n) {
                let j = choose|j: int| 0 <= j < d.len() && d[j] == n;
                assert(s[j] == n);
            }
        }
    }
}

} // verus!
