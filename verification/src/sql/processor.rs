//! How the processor admits entries: each peer's cursor is the index of the
//! next entry of its log to apply, and an entry is applied only when it is
//! exactly that one, so every entry is applied once.

use vstd::prelude::*;

verus! {

/// What admission decides for an entry delivered for a peer.
#[derive(Debug, Clone, Copy, PartialEq, Eq, Structural)]
pub enum Admission {
    /// The entry was applied before: it is dropped.
    Duplicate,
    /// Entries before it are missing: it is refused.
    Gap { expected_idx: u64, actual_idx: u64 },
    /// The entry is the next one: it is applied.
    Apply,
}

/// Whether a delivery led to new work.
#[derive(Debug, Clone, Copy, PartialEq, Eq, Structural)]
pub struct Applied {
    pub new: bool,
}

/// How an ingest that was attempted ended.
#[derive(Debug, Clone, Copy, PartialEq, Eq, Structural)]
pub enum IngestOutcome {
    /// The batch committed.
    Committed,
    /// The batch hit a unique-key conflict and rolled back: the entry was
    /// already recorded.
    AlreadyRecorded,
    /// The batch failed otherwise.
    Failed,
}

/// The cursor of `peer` in the table: its next index, 0 for a peer not seen.
pub open spec fn cursor_of(m: Map<u128, u64>, peer: u128) -> u64 {
    if m.dom().contains(peer) {
        m[peer]
    } else {
        0
    }
}

/// What admission decides for entry `index` of `peer` at cursor `cursor`.
pub open spec fn admission_spec(cursor: u64, index: u64) -> Admission {
    if index < cursor {
        Admission::Duplicate
    } else if index > cursor {
        Admission::Gap { expected_idx: cursor, actual_idx: index }
    } else {
        Admission::Apply
    }
}

/// The table after raising `peer`'s cursor to `next`: cursors never go back.
pub open spec fn advance_spec(m: Map<u128, u64>, peer: u128, next: u64) -> Map<u128, u64> {
    if next > cursor_of(m, peer) {
        m.insert(peer, next)
    } else if m.dom().contains(peer) {
        m
    } else {
        m.insert(peer, 0)
    }
}

/// The per-peer cursors, the processor's in-memory version vector.
pub struct PeerCursors {
    entries: Vec<(u128, u64)>,
}

impl View for PeerCursors {
    type V = Map<u128, u64>;

    closed spec fn view(&self) -> Map<u128, u64> {
        Map::new(
            |p: u128| exists|i: int| 0 <= i < self.entries@.len() && self.entries@[i].0 == p,
            |p: u128| self.entries@[choose|i: int| 0 <= i < self.entries@.len() && self.entries@[i].0 == p].1,
        )
    }
}

impl PeerCursors {
    /// Each peer has one entry.
    pub closed spec fn wf(&self) -> bool {
        forall|i: int, j: int| 0 <= i < j < self.entries@.len() ==> self.entries@[i].0 != self.entries@[j].0
    }

    /// No cursor yet.
    pub fn new() -> (c: Self)
        ensures
            c.wf(),
            c@ == Map::<u128, u64>::empty(),
    {
        let c = PeerCursors { entries: Vec::new() };
        proof {
            assert(c@ =~= Map::<u128, u64>::empty());
        }
        c
    }

    fn find(&self, peer: u128) -> (r: Option<usize>)
        requires
            self.wf(),
        ensures
            match r {
                Some(i) => i < self.entries@.len() && self.entries@[i as int].0 == peer,
                None => !self@.dom().contains(peer),
            },
    {
        let mut i: usize = 0;
        while i < self.entries.len()
            invariant
                i <= self.entries@.len(),
                forall|j: int| 0 <= j < i ==> self.entries@[j].0 != peer,
            decreases self.entries@.len() - i,
        {
            if self.entries[i].0 == peer {
                return Some(i);
            }
            i += 1;
        }
        None
    }

    proof fn lemma_at(&self, i: int)
        requires
            self.wf(),
            0 <= i < self.entries@.len(),
        ensures
            self@.dom().contains(self.entries@[i].0),
            self@[self.entries@[i].0] == self.entries@[i].1,
    {
        let p = self.entries@[i].0;
        let j = choose|j: int| 0 <= j < self.entries@.len() && self.entries@[j].0 == p;
        if j != i {
            if j < i {
                assert(self.entries@[j].0 != self.entries@[i].0);
            } else {
                assert(self.entries@[i].0 != self.entries@[j].0);
            }
        }
    }

    /// The cursor of `peer`: the index of its next entry, 0 if unseen.
    pub fn get(&self, peer: u128) -> (c: u64)
        requires
            self.wf(),
        ensures
            c == cursor_of(self@, peer),
    {
        match self.find(peer) {
            Some(i) => {
                proof {
                    self.lemma_at(i as int);
                }
                self.entries[i].1
            },
            None => 0,
        }
    }

    /// Raises `peer`'s cursor to `next` if that is further; returns whether it moved.
    pub fn advance(&mut self, peer: u128, next: u64) -> (moved: bool)
        requires
            old(self).wf(),
        ensures
            final(self).wf(),
            moved == (next > cursor_of(old(self)@, peer)),
            final(self)@ == advance_spec(old(self)@, peer, next),
    {
        match self.find(peer) {
            Some(i) => {
                proof {
                    self.lemma_at(i as int);
                }
                if next > self.entries[i].1 {
                    let ghost before = self.entries@;
                    self.entries.set(i, (peer, next));
                    proof {
                        assert forall|a: int, b: int| 0 <= a < b < self.entries@.len() implies self.entries@[a].0
                            != self.entries@[b].0 by {
                            assert(before[a].0 == self.entries@[a].0 && before[b].0 == self.entries@[b].0);
                        }
                        assert forall|p: u128| #[trigger] self@.dom().contains(p) <==> old(self)@.insert(peer, next).dom().contains(p) by {
                            if old(self)@.dom().contains(p) {
                                let j = choose|j: int| 0 <= j < before.len() && before[j].0 == p;
                                assert(self.entries@[j].0 == p);
                            }
                            if self@.dom().contains(p) {
                                let j = choose|j: int| 0 <= j < self.entries@.len() && self.entries@[j].0 == p;
                                assert(before[j].0 == p);
                            }
                        }
                        assert forall|p: u128| #[trigger] self@.dom().contains(p) implies self@[p] == old(self)@.insert(peer, next)[p] by {
                            let j = choose|j: int| 0 <= j < self.entries@.len() && self.entries@[j].0 == p;
                            self.lemma_at(j);
                            if p != peer {
                                assert(before[j] == self.entries@[j]);
                                old(self).lemma_at(j);
                            } else {
                                assert(j == i);
                            }
                        }
                        assert(self@ =~= old(self)@.insert(peer, next));
                    }
                    true
                } else {
                    false
                }
            },
            None => {
                let ghost before = self.entries@;
                self.entries.push((peer, if next > 0 { next } else { 0 }));
                proof {
                    let v = if next > 0 { next } else { 0u64 };
                    assert forall|a: int, b: int| 0 <= a < b < self.entries@.len() implies self.entries@[a].0
                        != self.entries@[b].0 by {
                        if b == self.entries@.len() - 1 {
                            assert(self.entries@[a] == before[a]);
                            assert(old(self)@.dom().contains(before[a].0) ==> before[a].0 != peer);
                            if before[a].0 == peer {
                                assert(old(self)@.dom().contains(peer));
                            }
                        } else {
                            assert(self.entries@[a] == before[a] && self.entries@[b] == before[b]);
                        }
                    }
                    assert forall|p: u128| #[trigger] self@.dom().contains(p) <==> old(self)@.insert(peer, v).dom().contains(p) by {
                        if old(self)@.dom().contains(p) {
                            let j = choose|j: int| 0 <= j < before.len() && before[j].0 == p;
                            assert(self.entries@[j].0 == p);
                        }
                        if self@.dom().contains(p) && p != peer {
                            let j = choose|j: int| 0 <= j < self.entries@.len() && self.entries@[j].0 == p;
                            assert(before[j].0 == p);
                        }
                        if p == peer {
                            assert(self.entries@[self.entries@.len() - 1].0 == peer);
                        }
                    }
                    assert forall|p: u128| #[trigger] self@.dom().contains(p) implies self@[p] == old(self)@.insert(peer, v)[p] by {
                        let j = choose|j: int| 0 <= j < self.entries@.len() && self.entries@[j].0 == p;
                        self.lemma_at(j);
                        if p != peer {
                            assert(before[j] == self.entries@[j]);
                            old(self).lemma_at(j);
                        } else {
                            self.lemma_at(self.entries@.len() - 1);
                        }
                    }
                    assert(self@ =~= old(self)@.insert(peer, v));
                }
                next > 0
            },
        }
    }

    /// What admission decides for entry `index` of `peer`: a re-delivery is
    /// dropped, an entry past the next one is refused, the next one applied.
    pub fn decide(&self, peer: u128, index: u64) -> (a: Admission)
        requires
            self.wf(),
        ensures
            a == admission_spec(cursor_of(self@, peer), index),
    {
        let cursor = self.get(peer);
        if index < cursor {
            Admission::Duplicate
        } else if index > cursor {
            Admission::Gap { expected_idx: cursor, actual_idx: index }
        } else {
            Admission::Apply
        }
    }
}

/// What a delivery reports once its ingest ended: new work when it
/// committed, none when it was already recorded; a failure is an error.
pub fn applied_of(outcome: IngestOutcome) -> (r: Option<Applied>)
    ensures
        r == match outcome {
            IngestOutcome::Committed => Some(Applied { new: true }),
            IngestOutcome::AlreadyRecorded => Some(Applied { new: false }),
            IngestOutcome::Failed => None::<Applied>,
        },
{
    match outcome {
        IngestOutcome::Committed => Some(Applied { new: true }),
        IngestOutcome::AlreadyRecorded => Some(Applied { new: false }),
        IngestOutcome::Failed => None,
    }
}

/// Cursors never go back: advancing leaves every cursor at least where it was.
pub proof fn law_cursors_monotone(m: Map<u128, u64>, peer: u128, next: u64, other: u128)
    ensures
        cursor_of(advance_spec(m, peer, next), other) >= cursor_of(m, other),
        cursor_of(advance_spec(m, peer, next), peer) >= next,
{
}

/// Every entry is applied once: once the entry admission let through has been
/// applied and the cursor advanced past it, every later delivery of it, or of
/// any earlier entry, is a duplicate.
pub proof fn law_applied_once(m: Map<u128, u64>, peer: u128, index: u64, later: u64)
    requires
        admission_spec(cursor_of(m, peer), index) == Admission::Apply,
        index < u64::MAX,
        later <= index,
    ensures
        admission_spec(cursor_of(advance_spec(m, peer, (index + 1) as u64), peer), later) == Admission::Duplicate,
{
}

/// Admission lets through exactly the next entry: applying entries in order
/// from the cursor, each in turn is applied.
pub proof fn law_next_entry_applies(m: Map<u128, u64>, peer: u128)
    requires
        cursor_of(m, peer) < u64::MAX,
    ensures
        admission_spec(cursor_of(m, peer), cursor_of(m, peer)) == Admission::Apply,
        admission_spec(
            cursor_of(advance_spec(m, peer, (cursor_of(m, peer) + 1) as u64), peer),
            (cursor_of(m, peer) + 1) as u64,
        ) == Admission::Apply,
{
}

/// Admission applies exactly the entry at the cursor: a later entry is
/// refused as a gap that names the cursor and the entry, an earlier one is
/// dropped as a re-delivery.
pub proof fn law_admission_by_cursor(cursor: u64, index: u64)
    ensures
        admission_spec(cursor, index) == Admission::Apply <==> index == cursor,
        index > cursor ==> admission_spec(cursor, index) == (Admission::Gap { expected_idx: cursor, actual_idx: index }),
        admission_spec(cursor, index) == Admission::Duplicate <==> index < cursor,
        admission_spec(cursor, index) matches Admission::Gap { expected_idx, actual_idx }
            ==> expected_idx == cursor && actual_idx == index && index > cursor,
{
}

/// Advancing a peer's cursor leaves it at the larger of where it was and the
/// new position, and every other peer's cursor where it was.
pub proof fn law_advance_cursor(m: Map<u128, u64>, peer: u128, next: u64, other: u128)
    ensures
        cursor_of(advance_spec(m, peer, next), peer) == if next > cursor_of(m, peer) { next } else { cursor_of(m, peer) },
        other != peer ==> cursor_of(advance_spec(m, peer, next), other) == cursor_of(m, other),
{
}

} // verus!
