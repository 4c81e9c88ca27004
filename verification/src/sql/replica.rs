//! The decisions of the replica between its database round trips: whether a
//! local write starts a stream or continues one, where a segment read from a
//! pack goes, and how far a placed segment's entries commit.

use vstd::prelude::*;
use vstd::string::StringExecFns;
use crate::text::{dec, push_decimal};

verus! {

/// Whether two chain hashes are the same.
fn same_hash(a: &[u8; 32], b: &[u8; 32]) -> (r: bool)
    ensures
        r == (a@ == b@),
{
    let mut i: usize = 0;
    while i < 32
        invariant
            i <= 32,
            a@.len() == 32,
            b@.len() == 32,
            forall|j: int| 0 <= j < i ==> a@[j] == b@[j],
        decreases 32 - i,
    {
        if a[i] != b[i] {
            return false;
        }
        i += 1;
    }
    proof {
        assert(a@ =~= b@);
    }
    true
}

// ---------------------------------------------------------------------------
// A local write
// ---------------------------------------------------------------------------

/// The stream row a local write reads: its id, head and commit positions.
pub struct StreamRow {
    pub id: i64,
    pub head_size: u64,
    pub head_hash: [u8; 32],
    pub has_head_status: bool,
    pub has_head_cipher: bool,
    pub commit_size: u64,
    pub commit_ok: bool,
}

/// How a local write proceeds.
#[derive(Debug)]
pub enum ExecPlan {
    /// No stream yet: one is created, starting empty, and the write goes on it.
    CreateStream,
    /// The write goes after the stream's head; it also commits when the
    /// stream's commit is not stalled.
    Continue { stream_id: i64, head_size: u64, head_hash: [u8; 32], commit_ok: bool },
}

/// The message of a stream whose commit is not stalled but lags its head.
pub open spec fn size_mismatch_message(head: u64, commit: u64) -> Seq<char> {
    "commit status is okay but head "@ + dec(head as nat) + " and commit "@ + dec(commit as nat)
        + " sizes do not match"@
}

/// How a local write proceeds, given the rows of its stream (at most one; a
/// fork, a head status or a cipher are not handled). A stream whose commit
/// is not stalled must have committed up to its head.
pub fn plan_exec(rows: &Vec<StreamRow>) -> (r: Result<ExecPlan, String>)
    requires
        rows@.len() <= 1,
        rows@.len() == 1 ==> !rows@[0].has_head_status && !rows@[0].has_head_cipher,
    ensures
        rows@.len() == 0 ==> r matches Ok(ExecPlan::CreateStream),
        rows@.len() == 1 && rows@[0].commit_ok && rows@[0].commit_size != rows@[0].head_size ==> (
        r matches Err(m) && m@ == size_mismatch_message(rows@[0].head_size, rows@[0].commit_size)),
        rows@.len() == 1 && !(rows@[0].commit_ok && rows@[0].commit_size != rows@[0].head_size) ==> (
        r matches Ok(ExecPlan::Continue { stream_id, head_size, head_hash, commit_ok })
            && stream_id == rows@[0].id && head_size == rows@[0].head_size
            && head_hash@ == rows@[0].head_hash@ && commit_ok == rows@[0].commit_ok),
{
    if rows.len() == 0 {
        return Ok(ExecPlan::CreateStream);
    }
    let row = &rows[0];
    if row.commit_ok && row.commit_size != row.head_size {
        let mut m = String::from_str("commit status is okay but head ");
        push_decimal(&mut m, row.head_size);
        m.append(" and commit ");
        push_decimal(&mut m, row.commit_size);
        m.append(" sizes do not match");
        return Err(m);
    }
    Ok(ExecPlan::Continue {
        stream_id: row.id,
        head_size: row.head_size,
        head_hash: row.head_hash,
        commit_ok: row.commit_ok,
    })
}

// ---------------------------------------------------------------------------
// Placing a segment read from a pack
// ---------------------------------------------------------------------------

/// What placement reads of a stream: its head position and whether its head
/// is in error.
pub struct StreamHead {
    pub head_size: u64,
    pub head_hash: [u8; 32],
    pub has_head_err: bool,
}

/// Where a segment covering entries `start..end` goes.
#[derive(Debug)]
pub enum Placement {
    /// The peer has no stream for the log yet; whether the segment starts it.
    NoStreams { starts_log: bool },
    /// A stream ends where the segment starts, with the hash it continues: it
    /// goes right there, on the stream at this index.
    PlaceDirect(usize),
    /// A stream already reaches past the segment: it is taken as held.
    AlreadyHave,
    /// No stream can take it yet.
    Pending,
    /// These streams overlap its start and may take part of it.
    Candidates(Vec<usize>),
}

/// The spec form of a placement.
pub enum PlacementSpec {
    NoStreams { starts_log: bool },
    PlaceDirect(int),
    AlreadyHave,
    Pending,
    Candidates(Seq<usize>),
}

/// Placement after looking at streams `k..` with the candidates `cands` found
/// before: streams in error are passed over; a stream whose head is the
/// segment's end is too; one past it means the segment is held; one whose head
/// is the segment's start takes it if its hash is the one the segment
/// continues; one past the start is a candidate.
pub open spec fn scan_spec(s: Seq<StreamHead>, start: u64, end: u64, prev: Seq<u8>, k: int, cands: Seq<usize>) -> PlacementSpec
    decreases s.len() - k,
{
    if k < 0 || k >= s.len() {
        if cands.len() == 0 {
            PlacementSpec::Pending
        } else {
            PlacementSpec::Candidates(cands)
        }
    } else {
        let h = s[k];
        if h.has_head_err || h.head_size == end {
            scan_spec(s, start, end, prev, k + 1, cands)
        } else if h.head_size > end {
            PlacementSpec::AlreadyHave
        } else if h.head_size == start {
            if h.head_hash@ == prev {
                PlacementSpec::PlaceDirect(k)
            } else {
                scan_spec(s, start, end, prev, k + 1, cands)
            }
        } else if h.head_size > start {
            scan_spec(s, start, end, prev, k + 1, cands.push(k as usize))
        } else {
            scan_spec(s, start, end, prev, k + 1, cands)
        }
    }
}

/// Where a segment goes among the streams of its log.
pub open spec fn placement_spec(s: Seq<StreamHead>, start: u64, end: u64, prev: Seq<u8>) -> PlacementSpec {
    if s.len() == 0 {
        PlacementSpec::NoStreams { starts_log: start == 0 }
    } else {
        scan_spec(s, start, end, prev, 0, Seq::empty())
    }
}

/// The spec form of an exec placement.
pub open spec fn placement_view(p: Placement) -> PlacementSpec {
    match p {
        Placement::NoStreams { starts_log } => PlacementSpec::NoStreams { starts_log },
        Placement::PlaceDirect(i) => PlacementSpec::PlaceDirect(i as int),
        Placement::AlreadyHave => PlacementSpec::AlreadyHave,
        Placement::Pending => PlacementSpec::Pending,
        Placement::Candidates(c) => PlacementSpec::Candidates(c@),
    }
}

/// Where a segment covering entries `start..end` and continuing the chain
/// hash `prev_chain` goes among the streams of its log.
pub fn plan_placement(streams: &Vec<StreamHead>, start: u64, end: u64, prev_chain: &[u8; 32]) -> (p: Placement)
    ensures
        placement_view(p) == placement_spec(streams@, start, end, prev_chain@),
{
    if streams.len() == 0 {
        return Placement::NoStreams { starts_log: start == 0 };
    }
    let mut cands: Vec<usize> = Vec::new();
    let mut k: usize = 0;
    while k < streams.len()
        invariant
            k <= streams@.len(),
            streams@.len() > 0,
            scan_spec(streams@, start, end, prev_chain@, 0, Seq::empty()) == scan_spec(
                streams@,
                start,
                end,
                prev_chain@,
                k as int,
                cands@,
            ),
        decreases streams@.len() - k,
    {
        let h = &streams[k];
        if h.has_head_err || h.head_size == end {
        } else if h.head_size > end {
            return Placement::AlreadyHave;
        } else if h.head_size == start {
            if same_hash(&h.head_hash, prev_chain) {
                return Placement::PlaceDirect(k);
            }
        } else if h.head_size > start {
            cands.push(k);
        }
        k += 1;
    }
    if cands.len() == 0 {
        Placement::Pending
    } else {
        Placement::Candidates(cands)
    }
}

/// The stream `h` takes the segment `start..end` right at its head: it has no
/// head error, its head is the segment's start (which comes before its end),
/// with the hash the segment continues.
pub open spec fn continues_at(h: StreamHead, start: u64, end: u64, prev: Seq<u8>) -> bool {
    !h.has_head_err && h.head_size == start && start < end && h.head_hash@ == prev
}

/// The stream `h` has no head error and its head is past the segment's end.
pub open spec fn reaches_past(h: StreamHead, end: u64) -> bool {
    !h.has_head_err && h.head_size > end
}

/// The stream `h` has no head error and its head lies strictly inside the
/// segment `start..end`.
pub open spec fn overlaps(h: StreamHead, start: u64, end: u64) -> bool {
    !h.has_head_err && start < h.head_size && h.head_size < end
}

proof fn lemma_scan_first_stop(s: Seq<StreamHead>, start: u64, end: u64, prev: Seq<u8>, k: int, cands: Seq<usize>, j: int)
    requires
        0 <= k <= j < s.len(),
        forall|i: int| k <= i < j ==> !continues_at(#[trigger] s[i], start, end, prev) && !reaches_past(s[i], end),
        continues_at(s[j], start, end, prev) || reaches_past(s[j], end),
    ensures
        scan_spec(s, start, end, prev, k, cands) == if reaches_past(s[j], end) {
            PlacementSpec::AlreadyHave
        } else {
            PlacementSpec::PlaceDirect(j)
        },
    decreases j - k,
{
    if k < j {
        assert(!continues_at(s[k], start, end, prev) && !reaches_past(s[k], end));
        lemma_scan_first_stop(s, start, end, prev, k + 1, cands, j);
        lemma_scan_first_stop(s, start, end, prev, k + 1, cands.push(k as usize), j);
    }
}

proof fn lemma_scan_no_stop(s: Seq<StreamHead>, start: u64, end: u64, prev: Seq<u8>, k: int, cands: Seq<usize>)
    requires
        0 <= k <= s.len(),
        s.len() <= usize::MAX,
        forall|i: int| k <= i < s.len() ==> !continues_at(#[trigger] s[i], start, end, prev) && !reaches_past(s[i], end),
        forall|a: int, b: int| 0 <= a < b < cands.len() ==> cands[a] < cands[b],
        forall|a: int| 0 <= a < cands.len() ==> cands[a] < k,
    ensures
        ({
            let r = scan_spec(s, start, end, prev, k, cands);
            &&& r is Pending <==> cands.len() == 0 && forall|i: int| k <= i < s.len() ==> !overlaps(#[trigger] s[i], start, end)
            &&& r is Pending || r is Candidates
            &&& r matches PlacementSpec::Candidates(c) ==> {
                &&& forall|x: usize| c.contains(x) <==> cands.contains(x) || (k <= x < s.len() && overlaps(s[x as int], start, end))
                &&& forall|a: int, b: int| 0 <= a < b < c.len() ==> c[a] < c[b]
            }
        }),
    decreases s.len() - k,
{
    if k < s.len() {
        let h = s[k];
        assert(!continues_at(h, start, end, prev) && !reaches_past(h, end));
        if overlaps(h, start, end) {
            let c2 = cands.push(k as usize);
            assert forall|a: int, b: int| 0 <= a < b < c2.len() implies c2[a] < c2[b] by {
                if b == cands.len() {
                    assert(cands[a] < k);
                }
            }
            lemma_scan_no_stop(s, start, end, prev, k + 1, c2);
            assert forall|x: usize| c2.contains(x) <==> cands.contains(x) || x == k by {
                if c2.contains(x) {
                    let m = choose|m: int| 0 <= m < c2.len() && c2[m] == x;
                    if m < cands.len() {
                        assert(cands[m] == x);
                    }
                }
                if cands.contains(x) {
                    let m = choose|m: int| 0 <= m < cands.len() && cands[m] == x;
                    assert(c2[m] == x);
                }
                if x == k {
                    assert(c2[cands.len() as int] == x);
                }
            }
        } else {
            lemma_scan_no_stop(s, start, end, prev, k + 1, cands);
        }
    }
}

/// A segment goes directly onto the first stream that ends at its start with
/// the hash it continues, when no stream before that one reaches past the
/// segment or takes it; streams merely overlapping it before do not matter.
pub proof fn law_place_direct(s: Seq<StreamHead>, start: u64, end: u64, prev: Seq<u8>, j: int)
    requires
        0 <= j < s.len(),
        continues_at(s[j], start, end, prev),
        forall|i: int| 0 <= i < j ==> !continues_at(#[trigger] s[i], start, end, prev) && !reaches_past(s[i], end),
    ensures
        placement_spec(s, start, end, prev) == PlacementSpec::PlaceDirect(j),
{
    lemma_scan_first_stop(s, start, end, prev, 0, Seq::empty(), j);
}

/// A segment is taken as held when a stream without head error reaches past
/// its end before any stream could take it.
pub proof fn law_already_have(s: Seq<StreamHead>, start: u64, end: u64, prev: Seq<u8>, j: int)
    requires
        0 <= j < s.len(),
        reaches_past(s[j], end),
        forall|i: int| 0 <= i < j ==> !continues_at(#[trigger] s[i], start, end, prev) && !reaches_past(s[i], end),
    ensures
        placement_spec(s, start, end, prev) == PlacementSpec::AlreadyHave,
{
    lemma_scan_first_stop(s, start, end, prev, 0, Seq::empty(), j);
}

/// Without streams, a segment starts the log exactly when it starts at entry
/// zero. When no stream takes the segment or reaches past it, it waits when no
/// stream overlaps it, and otherwise the candidates are exactly the streams
/// that overlap it, in order.
pub proof fn law_pending_or_candidates(s: Seq<StreamHead>, start: u64, end: u64, prev: Seq<u8>)
    requires
        s.len() <= usize::MAX,
    ensures
        s.len() == 0 ==> placement_spec(s, start, end, prev) == (PlacementSpec::NoStreams { starts_log: start == 0 }),
        s.len() > 0 && (forall|i: int| 0 <= i < s.len() ==> !continues_at(#[trigger] s[i], start, end, prev) && !reaches_past(s[i], end))
            ==> {
            let r = placement_spec(s, start, end, prev);
            &&& r is Pending <==> forall|i: int| 0 <= i < s.len() ==> !overlaps(#[trigger] s[i], start, end)
            &&& r is Pending || r is Candidates
            &&& r matches PlacementSpec::Candidates(c) ==> {
                &&& forall|x: usize| c.contains(x) <==> (x < s.len() && overlaps(s[x as int], start, end))
                &&& forall|a: int, b: int| 0 <= a < b < c.len() ==> c[a] < c[b]
            }
        },
{
    if s.len() > 0 && (forall|i: int| 0 <= i < s.len() ==> !continues_at(#[trigger] s[i], start, end, prev) && !reaches_past(s[i], end)) {
        lemma_scan_no_stop(s, start, end, prev, 0, Seq::empty());
    }
}

// ---------------------------------------------------------------------------
// Committing a placed segment
// ---------------------------------------------------------------------------

/// The kind of an entry of a placed segment.
#[derive(Debug, Clone, Copy, PartialEq, Eq, Structural)]
pub enum EntryKind {
    /// A batch of ops: decoded and applied.
    OpBatch,
    /// A switch to an encryption key: commit stalls there.
    UseKey,
    /// An expunged entry: it only advances the commit.
    Expunged,
    /// A signature: not an indexed entry.
    Signature,
}

/// What committing does with one entry, and the commit size after it.
#[derive(Debug, Clone, Copy, PartialEq, Eq, Structural)]
pub enum CommitStep {
    Apply { commit_size: u64 },
    Skip { commit_size: u64 },
    Stall { commit_size: u64 },
}

/// The steps for entries `k..` from commit size `size`: each indexed entry
/// advances the commit by one; a key switch stalls it and ends the walk.
pub open spec fn commit_steps_spec(es: Seq<EntryKind>, k: int, size: int) -> Seq<CommitStep>
    decreases es.len() - k,
{
    if k < 0 || k >= es.len() {
        Seq::empty()
    } else {
        match es[k] {
            EntryKind::Signature => commit_steps_spec(es, k + 1, size),
            EntryKind::OpBatch => seq![CommitStep::Apply { commit_size: (size + 1) as u64 }]
                + commit_steps_spec(es, k + 1, size + 1),
            EntryKind::Expunged => seq![CommitStep::Skip { commit_size: (size + 1) as u64 }]
                + commit_steps_spec(es, k + 1, size + 1),
            EntryKind::UseKey => seq![CommitStep::Stall { commit_size: (size + 1) as u64 }],
        }
    }
}

/// How the entries of a segment just placed on a stream commit: nothing when
/// the stream's commit is stalled; else, from the commit size (which then
/// equals the head size), one step per indexed entry up to a key switch.
pub fn plan_commit(commit_stalled: bool, commit_size: u64, head_size: u64, entries: &Vec<EntryKind>) -> (steps: Vec<CommitStep>)
    requires
        !commit_stalled ==> commit_size == head_size,
        commit_size + entries@.len() <= u64::MAX,
    ensures
        commit_stalled ==> steps@.len() == 0,
        !commit_stalled ==> steps@ == commit_steps_spec(entries@, 0, commit_size as int),
{
    let mut steps: Vec<CommitStep> = Vec::new();
    if commit_stalled {
        return steps;
    }
    let mut size: u64 = commit_size;
    let mut k: usize = 0;
    while k < entries.len()
        invariant
            k <= entries@.len(),
            !commit_stalled,
            size <= commit_size + k,
            commit_size + entries@.len() <= u64::MAX,
            commit_steps_spec(entries@, 0, commit_size as int) == steps@ + commit_steps_spec(
                entries@,
                k as int,
                size as int,
            ),
        decreases entries@.len() - k,
    {
        let ghost before = steps@;
        match entries[k] {
            EntryKind::Signature => {},
            EntryKind::OpBatch => {
                size = size + 1;
                steps.push(CommitStep::Apply { commit_size: size });
                proof {
                    assert(steps@ + commit_steps_spec(entries@, k + 1, size as int) =~= before
                        + commit_steps_spec(entries@, k as int, size - 1));
                }
            },
            EntryKind::Expunged => {
                size = size + 1;
                steps.push(CommitStep::Skip { commit_size: size });
                proof {
                    assert(steps@ + commit_steps_spec(entries@, k + 1, size as int) =~= before
                        + commit_steps_spec(entries@, k as int, size - 1));
                }
            },
            EntryKind::UseKey => {
                size = size + 1;
                steps.push(CommitStep::Stall { commit_size: size });
                proof {
                    assert(steps@ =~= before + commit_steps_spec(entries@, k as int, size - 1));
                }
                return steps;
            },
        }
        k += 1;
    }
    proof {
        assert(steps@ + Seq::<CommitStep>::empty() =~= steps@);
    }
    steps
}

// ---------------------------------------------------------------------------
// Starting a replica
// ---------------------------------------------------------------------------

/// The database id of the replica's own row in the peers table.
pub const SELF_DB_ID: i64 = 0;

/// The message for a stored peer id of `len` bytes.
pub open spec fn peer_id_length_message(len: nat) -> Seq<char> {
    "invalid peer id length: "@ + dec(len)
}

/// The replica's own peer id from the bytes its row stores, which must be
/// 16 bytes long.
pub fn stored_peer_id(bytes: &Vec<u8>) -> (r: Result<[u8; 16], String>)
    ensures
        r is Ok <==> bytes@.len() == 16,
        r matches Ok(id) ==> id@ == bytes@,
        r matches Err(m) ==> m@ == peer_id_length_message(bytes@.len()),
{
    if bytes.len() != 16 {
        let mut m = String::from_str("invalid peer id length: ");
        push_decimal(&mut m, bytes.len() as u64);
        return Err(m);
    }
    let mut id = [0u8; 16];
    let mut i: usize = 0;
    while i < 16
        invariant
            i <= 16,
            bytes@.len() == 16,
            id@.len() == 16,
            forall|j: int| 0 <= j < i ==> id@[j] == bytes@[j],
        decreases 16 - i,
    {
        id[i] = bytes[i];
        i += 1;
    }
    proof {
        assert(id@ =~= bytes@);
    }
    Ok(id)
}

/// A signed integer in decimal.
pub open spec fn signed_dec(x: int) -> Seq<char> {
    if x < 0 { "-"@ + dec((-x) as nat) } else { dec(x as nat) }
}

/// The message for the replica's own row inserted with the id `got`.
pub open spec fn self_db_id_message(got: int) -> Seq<char> {
    "self_db_id mismatch: got "@ + signed_dec(got) + ", expected 0"@
}

/// Checks the id the database gave the replica's own row when it was
/// inserted: it must be [`SELF_DB_ID`].
pub fn check_self_db_id(got: i64) -> (r: Result<(), String>)
    ensures
        r is Ok <==> got == SELF_DB_ID,
        r matches Err(m) ==> m@ == self_db_id_message(got as int),
{
    if got == SELF_DB_ID {
        return Ok(());
    }
    let mut m = String::from_str("self_db_id mismatch: got ");
    if got < 0 {
        m.append("-");
        let mag: u64 = (-(got as i128)) as u64;
        push_decimal(&mut m, mag);
    } else {
        push_decimal(&mut m, got as u64);
    }
    m.append(", expected 0");
    proof {
        reveal_strlit("self_db_id mismatch: got ");
        reveal_strlit("-");
        reveal_strlit(", expected 0");
    }
    Err(m)
}

/// The commit size a step leaves.
pub open spec fn step_size(c: CommitStep) -> u64 {
    match c {
        CommitStep::Apply { commit_size } => commit_size,
        CommitStep::Skip { commit_size } => commit_size,
        CommitStep::Stall { commit_size } => commit_size,
    }
}

proof fn lemma_steps_shift(es: Seq<EntryKind>, k: int, size: int)
    requires
        es.len() > 0,
        0 <= k,
    ensures
        commit_steps_spec(es, k + 1, size) == commit_steps_spec(es.drop_first(), k, size),
    decreases es.len() - k,
{
    if k + 1 < es.len() {
        assert(es[k + 1] == es.drop_first()[k]);
        lemma_steps_shift(es, k + 1, size);
        lemma_steps_shift(es, k + 1, size + 1);
    }
}

proof fn lemma_steps_front(es: Seq<EntryKind>, size: int)
    requires
        es.len() > 0,
    ensures
        commit_steps_spec(es, 0, size) == match es[0] {
            EntryKind::Signature => commit_steps_spec(es.drop_first(), 0, size),
            EntryKind::OpBatch => seq![CommitStep::Apply { commit_size: (size + 1) as u64 }]
                + commit_steps_spec(es.drop_first(), 0, size + 1),
            EntryKind::Expunged => seq![CommitStep::Skip { commit_size: (size + 1) as u64 }]
                + commit_steps_spec(es.drop_first(), 0, size + 1),
            EntryKind::UseKey => seq![CommitStep::Stall { commit_size: (size + 1) as u64 }],
        },
{
    lemma_steps_shift(es, 0, size);
    lemma_steps_shift(es, 0, size + 1);
}

/// Committing counts up one by one from the commit size, one step per entry
/// at most, and stalls only at its last step.
pub proof fn law_commit_counts_up(es: Seq<EntryKind>, size: int)
    requires
        0 <= size,
        size + es.len() <= u64::MAX,
    ensures
        commit_steps_spec(es, 0, size).len() <= es.len(),
        forall|i: int| 0 <= i < commit_steps_spec(es, 0, size).len()
            ==> step_size(#[trigger] commit_steps_spec(es, 0, size)[i]) == size + i + 1,
        forall|i: int| 0 <= i < commit_steps_spec(es, 0, size).len() - 1
            ==> !(#[trigger] commit_steps_spec(es, 0, size)[i] is Stall),
    decreases es.len(),
{
    if es.len() > 0 {
        lemma_steps_front(es, size);
        let rest = es.drop_first();
        let st = commit_steps_spec(es, 0, size);
        match es[0] {
            EntryKind::Signature => {
                law_commit_counts_up(rest, size);
            },
            EntryKind::UseKey => {},
            _ => {
                law_commit_counts_up(rest, size + 1);
                let r = commit_steps_spec(rest, 0, size + 1);
                assert forall|i: int| 0 <= i < st.len() implies step_size(#[trigger] st[i]) == size + i + 1 by {
                    if i > 0 {
                        assert(st[i] == r[i - 1]);
                    }
                }
                assert forall|i: int| 0 <= i < st.len() - 1 implies !(#[trigger] st[i] is Stall) by {
                    if i > 0 {
                        assert(st[i] == r[i - 1]);
                    }
                }
            },
        }
    }
}

/// Without signatures or key switches, every entry gives one step: a batch
/// of ops is applied and an expunged entry skipped.
pub proof fn law_commit_each_entry(es: Seq<EntryKind>, size: int)
    requires
        forall|i: int| 0 <= i < es.len() ==> #[trigger] es[i] != EntryKind::Signature && es[i] != EntryKind::UseKey,
    ensures
        commit_steps_spec(es, 0, size).len() == es.len(),
        forall|i: int| 0 <= i < es.len() ==> (#[trigger] commit_steps_spec(es, 0, size)[i] is Apply <==> es[i] == EntryKind::OpBatch),
        forall|i: int| 0 <= i < es.len() ==> (#[trigger] commit_steps_spec(es, 0, size)[i] is Skip <==> es[i] == EntryKind::Expunged),
    decreases es.len(),
{
    if es.len() > 0 {
        lemma_steps_front(es, size);
        let rest = es.drop_first();
        assert forall|i: int| 0 <= i < rest.len() implies #[trigger] rest[i] != EntryKind::Signature && rest[i] != EntryKind::UseKey by {
            assert(rest[i] == es[i + 1]);
        }
        law_commit_each_entry(rest, size + 1);
        let st = commit_steps_spec(es, 0, size);
        let r = commit_steps_spec(rest, 0, size + 1);
        assert forall|i: int| 0 <= i < es.len() implies (#[trigger] st[i] is Apply <==> es[i] == EntryKind::OpBatch)
            && (st[i] is Skip <==> es[i] == EntryKind::Expunged) by {
            if i > 0 {
                assert(st[i] == r[i - 1]);
                assert(rest[i - 1] == es[i]);
            }
        }
    }
}

/// A signature is not an indexed entry: inserting one anywhere leaves the
/// steps as they were.
pub proof fn law_commit_ignores_signatures(es: Seq<EntryKind>, i: int, size: int)
    requires
        0 <= i <= es.len(),
    ensures
        commit_steps_spec(es.insert(i, EntryKind::Signature), 0, size) == commit_steps_spec(es, 0, size),
    decreases es.len(),
{
    let es2 = es.insert(i, EntryKind::Signature);
    lemma_steps_front(es2, size);
    if i == 0 {
        assert(es2.drop_first() =~= es);
    } else {
        lemma_steps_front(es, size);
        assert(es2.drop_first() =~= es.drop_first().insert(i - 1, EntryKind::Signature));
        law_commit_ignores_signatures(es.drop_first(), i - 1, size);
        law_commit_ignores_signatures(es.drop_first(), i - 1, size + 1);
    }
}

/// Committing ends at the first key switch: what follows it is not looked
/// at, and the key switch stalls the commit.
pub proof fn law_commit_stops_at_key(es: Seq<EntryKind>, j: int, size: int)
    requires
        0 <= j < es.len(),
        es[j] == EntryKind::UseKey,
        forall|i: int| 0 <= i < j ==> #[trigger] es[i] != EntryKind::UseKey,
    ensures
        commit_steps_spec(es, 0, size) == commit_steps_spec(es.take(j + 1), 0, size),
        commit_steps_spec(es, 0, size).len() > 0,
        commit_steps_spec(es, 0, size).last() is Stall,
    decreases j,
{
    let t = es.take(j + 1);
    lemma_steps_front(es, size);
    lemma_steps_front(t, size);
    if j > 0 {
        let rest = es.drop_first();
        assert(t.drop_first() =~= rest.take(j));
        assert forall|i: int| 0 <= i < j - 1 implies #[trigger] rest[i] != EntryKind::UseKey by {
            assert(rest[i] == es[i + 1]);
        }
        law_commit_stops_at_key(rest, j - 1, size);
        law_commit_stops_at_key(rest, j - 1, size + 1);
    }
}

} // verus!
