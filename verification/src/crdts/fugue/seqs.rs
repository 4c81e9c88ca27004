//! Facts about sequences of node indices used by the list proofs: the
//! concatenation of child spans, and counts over a visibility predicate.

use vstd::prelude::*;

verus! {

/// The concatenation of `spans[c]` for each `c` of `cs`, in order.
pub open spec fn flat(spans: Seq<Seq<usize>>, cs: Seq<usize>) -> Seq<usize>
    decreases cs.len(),
{
    if cs.len() == 0 {
        Seq::empty()
    } else {
        flat(spans, cs.drop_last()) + spans[cs.last() as int]
    }
}

pub proof fn lemma_flat_concat(spans: Seq<Seq<usize>>, a: Seq<usize>, b: Seq<usize>)
    ensures
        flat(spans, a + b) == flat(spans, a) + flat(spans, b),
    decreases b.len(),
{
    if b.len() == 0 {
        assert(a + b == a);
    } else {
        lemma_flat_concat(spans, a, b.drop_last());
        assert((a + b).drop_last() == a + b.drop_last());
        assert((a + b).last() == b.last());
    }
}

pub proof fn lemma_flat_single(spans: Seq<Seq<usize>>, c: usize)
    ensures
        flat(spans, seq![c]) == spans[c as int],
{
    assert(seq![c].drop_last() == Seq::<usize>::empty());
    assert(flat(spans, Seq::<usize>::empty()) == Seq::<usize>::empty());
    assert(Seq::<usize>::empty() + spans[c as int] == spans[c as int]);
}

/// `flat(cs)` splits around the span of its `k`-th member.
pub proof fn lemma_flat_split(spans: Seq<Seq<usize>>, cs: Seq<usize>, k: int)
    requires
        0 <= k < cs.len(),
    ensures
        flat(spans, cs) == flat(spans, cs.take(k)) + spans[cs[k] as int] + flat(spans, cs.skip(k + 1)),
{
    assert(cs == cs.take(k) + (seq![cs[k]] + cs.skip(k + 1)));
    lemma_flat_concat(spans, cs.take(k), seq![cs[k]] + cs.skip(k + 1));
    lemma_flat_concat(spans, seq![cs[k]], cs.skip(k + 1));
    lemma_flat_single(spans, cs[k]);
}

/// `y` is in `flat(cs)` exactly when it is in the span of some member.
pub proof fn lemma_flat_contains(spans: Seq<Seq<usize>>, cs: Seq<usize>, y: usize)
    ensures
        flat(spans, cs).contains(y) <==> exists|k: int| 0 <= k < cs.len() && #[trigger] spans[cs[k] as int].contains(y),
    decreases cs.len(),
{
    if cs.len() > 0 {
        lemma_flat_contains(spans, cs.drop_last(), y);
        let f = flat(spans, cs.drop_last());
        let l = spans[cs.last() as int];
        if (f + l).contains(y) {
            let j = choose|j: int| 0 <= j < (f + l).len() && (f + l)[j] == y;
            if j < f.len() {
                assert(f[j] == y);
                assert(f.contains(y));
                let k = choose|k: int| 0 <= k < cs.drop_last().len() && #[trigger] spans[cs.drop_last()[k] as int].contains(y);
                assert(cs[k] == cs.drop_last()[k]);
            } else {
                assert(l[j - f.len()] == y);
                assert(spans[cs[cs.len() - 1] as int].contains(y));
            }
        }
        if exists|k: int| 0 <= k < cs.len() && #[trigger] spans[cs[k] as int].contains(y) {
            let k = choose|k: int| 0 <= k < cs.len() && #[trigger] spans[cs[k] as int].contains(y);
            if k < cs.len() - 1 {
                assert(cs.drop_last()[k] == cs[k]);
                assert(f.contains(y));
                let j = choose|j: int| 0 <= j < f.len() && f[j] == y;
                assert((f + l)[j] == y);
            } else {
                let j = choose|j: int| 0 <= j < l.len() && l[j] == y;
                assert((f + l)[f.len() + j] == y);
            }
        }
    }
}

/// The span of a member of `cs` is no longer than `flat(cs)`.
pub proof fn lemma_flat_member_len(spans: Seq<Seq<usize>>, cs: Seq<usize>, k: int)
    requires
        0 <= k < cs.len(),
    ensures
        spans[cs[k] as int].len() <= flat(spans, cs).len(),
{
    lemma_flat_split(spans, cs, k);
}

/// Replacing the spans of indices outside `cs` does not change `flat(cs)`.
pub proof fn lemma_flat_frame(s1: Seq<Seq<usize>>, s2: Seq<Seq<usize>>, cs: Seq<usize>)
    requires
        forall|k: int| 0 <= k < cs.len() ==> 0 <= cs[k] < s1.len() && cs[k] < s2.len() && s1[cs[k] as int] == s2[cs[k] as int],
    ensures
        flat(s1, cs) == flat(s2, cs),
    decreases cs.len(),
{
    if cs.len() > 0 {
        lemma_flat_frame(s1, s2, cs.drop_last());
    }
}

/// `flat(cs)` repeats no index when `cs` repeats none, no span repeats an
/// index, and the spans of distinct members are disjoint.
pub proof fn lemma_flat_nodup(spans: Seq<Seq<usize>>, cs: Seq<usize>)
    requires
        cs.no_duplicates(),
        forall|k: int| 0 <= k < cs.len() ==> #[trigger] spans[cs[k] as int].no_duplicates(),
        forall|k1: int, k2: int, y: usize|
            0 <= k1 < cs.len() && 0 <= k2 < cs.len() && k1 != k2 && #[trigger] spans[cs[k1] as int].contains(y)
                ==> !#[trigger] spans[cs[k2] as int].contains(y),
    ensures
        flat(spans, cs).no_duplicates(),
    decreases cs.len(),
{
    if cs.len() > 0 {
        let d = cs.drop_last();
        assert forall|k1: int, k2: int, y: usize|
            0 <= k1 < d.len() && 0 <= k2 < d.len() && k1 != k2 && #[trigger] spans[d[k1] as int].contains(y)
                implies !#[trigger] spans[d[k2] as int].contains(y) by {
            assert(d[k1] == cs[k1] && d[k2] == cs[k2]);
        }
        lemma_flat_nodup(spans, d);
        let f = flat(spans, d);
        let l = spans[cs.last() as int];
        assert(spans[cs[cs.len() - 1] as int].no_duplicates());
        assert forall|i: int, j: int| 0 <= i < f.len() && 0 <= j < l.len() implies f[i] != l[j] by {
            if f[i] == l[j] {
                let y = f[i];
                assert(f.contains(y));
                lemma_flat_contains(spans, d, y);
                let k = choose|k: int| 0 <= k < d.len() && #[trigger] spans[d[k] as int].contains(y);
                assert(d[k] == cs[k]);
                assert(l.contains(y));
                assert(spans[cs[cs.len() - 1] as int].contains(y));
            }
        }
        vstd::seq_lib::lemma_no_dup_in_concat(f, l);
    }
}

/// A sequence of distinct indices below `n` has at most `n` members.
pub proof fn lemma_nodup_bounded_len(s: Seq<usize>, n: nat)
    requires
        s.no_duplicates(),
        forall|k: int| 0 <= k < s.len() ==> #[trigger] s[k] < n,
    ensures
        s.len() <= n,
{
    let m = s.map_values(|x: usize| x as int);
    assert forall|i: int, j: int| 0 <= i < m.len() && 0 <= j < m.len() && i != j implies m[i] != m[j] by {
        assert(s[i] != s[j]);
    }
    m.unique_seq_to_set();
    vstd::set_lib::lemma_int_range(0, n as int);
    assert forall|x: int| m.to_set().contains(x) implies vstd::set_lib::set_int_range(0, n as int).contains(x) by {
        let k = choose|k: int| 0 <= k < m.len() && m[k] == x;
        assert(s[k] < n);
    }
    vstd::set_lib::lemma_len_subset(m.to_set(), vstd::set_lib::set_int_range(0, n as int));
}

/// Inserting `c` into `cs` at `j` inserts its span into `flat(cs)` at the
/// length of the flat prefix.
pub proof fn lemma_flat_insert(spans: Seq<Seq<usize>>, cs: Seq<usize>, j: int, c: usize)
    requires
        0 <= j <= cs.len(),
    ensures
        flat(spans, cs) == flat(spans, cs.take(j)) + flat(spans, cs.skip(j)),
        flat(spans, cs.insert(j, c)) == flat(spans, cs.take(j)) + spans[c as int] + flat(spans, cs.skip(j)),
{
    assert(cs == cs.take(j) + cs.skip(j));
    lemma_flat_concat(spans, cs.take(j), cs.skip(j));
    assert(cs.insert(j, c) == cs.take(j) + (seq![c] + cs.skip(j)));
    lemma_flat_concat(spans, cs.take(j), seq![c] + cs.skip(j));
    lemma_flat_concat(spans, seq![c], cs.skip(j));
    lemma_flat_single(spans, c);
}

/// `flat(cs)` with the span of one member `cs[k]` replaced: the flat sequence
/// changes only in that member's stretch.
pub proof fn lemma_flat_replace(s1: Seq<Seq<usize>>, s2: Seq<Seq<usize>>, cs: Seq<usize>, k: int)
    requires
        0 <= k < cs.len(),
        cs.no_duplicates(),
        s1.len() == s2.len(),
        forall|i: int| 0 <= i < cs.len() ==> 0 <= #[trigger] cs[i] < s1.len(),
        forall|i: int| 0 <= i < s1.len() && i != cs[k] ==> s1[i] == s2[i],
    ensures
        flat(s1, cs) == flat(s1, cs.take(k)) + s1[cs[k] as int] + flat(s1, cs.skip(k + 1)),
        flat(s2, cs) == flat(s1, cs.take(k)) + s2[cs[k] as int] + flat(s1, cs.skip(k + 1)),
{
    lemma_flat_split(s1, cs, k);
    lemma_flat_split(s2, cs, k);
    let t = cs.take(k);
    assert forall|i: int| 0 <= i < t.len() implies 0 <= #[trigger] t[i] < s1.len() && t[i] < s2.len()
        && s1[t[i] as int] == s2[t[i] as int] by {
        assert(t[i] == cs[i]);
        assert(cs[i] != cs[k]);
    }
    lemma_flat_frame(s1, s2, cs.take(k));
    let u = cs.skip(k + 1);
    assert forall|i: int| 0 <= i < u.len() implies 0 <= #[trigger] u[i] < s1.len() && u[i] < s2.len()
        && s1[u[i] as int] == s2[u[i] as int] by {
        assert(u[i] == cs[i + k + 1]);
        assert(cs[i + k + 1] != cs[k]);
    }
    lemma_flat_frame(s1, s2, cs.skip(k + 1));
}

} // verus!
