//! The decisions of the log writer: where to resume after a restart, and when
//! a segment or a batch is sealed.

use vstd::prelude::*;
use crate::fs::batches::BatchInfo;
use crate::fs::segments::MAX_SEGMENT_SIZE;

verus! {

/// A batch whose segments hold more bytes than this is sealed.
pub const BATCH_ROLLOVER_SIZE: usize = 33554432;

/// A batch with more segments than this is sealed.
pub const BATCH_ROLLOVER_FILE_COUNT: u64 = 2048;

/// Where a writer resumes, judged from the batches of its directory.
#[derive(Debug, Clone, Copy, PartialEq, Eq, Structural)]
pub enum Resume {
    /// No batch yet: the first write creates one at entry 0.
    Fresh,
    /// The last batch is sealed: the next write starts a new batch here.
    AfterSealed { next_entry_index: u64 },
    /// The last batch is still open: its segments decide.
    OpenBatch,
}

/// How a writer resumes inside an open batch.
#[derive(Debug, Clone, Copy, PartialEq, Eq, Structural)]
pub struct OpenBatchResume {
    /// The index the next entry gets.
    pub next_entry_index: u64,
    /// Whether the batch is full and is sealed before anything more is written.
    pub seal_batch: bool,
    /// The bytes the batch's segments hold.
    pub batch_size: usize,
    /// The number of segments in the batch.
    pub segment_count: u64,
}

/// Where a writer resumes after the batches `batches` (oldest first).
pub open spec fn resume_spec(batches: Seq<BatchInfo>) -> Resume {
    if batches.len() == 0 {
        Resume::Fresh
    } else {
        match batches.last().sealed_info {
            Some(s) => Resume::AfterSealed { next_entry_index: (s.end_index + 1) as u64 },
            None => Resume::OpenBatch,
        }
    }
}

/// Where a writer resumes after the batches `batches`, oldest first. The entry
/// after a sealed batch's last one comes next.
pub fn resume_from_batches(batches: &Vec<BatchInfo>) -> (r: Resume)
    requires
        batches@.len() > 0 ==> (batches@.last().sealed_info matches Some(s) ==> s.end_index
            < u64::MAX),
    ensures
        r == resume_spec(batches@),
{
    if batches.len() == 0 {
        return Resume::Fresh;
    }
    match &batches[batches.len() - 1].sealed_info {
        Some(s) => Resume::AfterSealed { next_entry_index: s.end_index + 1 },
        None => Resume::OpenBatch,
    }
}

/// The inclusive index of the last entry of an unsealed segment that starts at
/// `start_index` and holds `count` entries, with which it is sealed; `None`
/// when it holds no entry, for such a segment is removed rather than sealed.
pub fn unsealed_segment_end(start_index: u64, count: u64) -> (e: Option<u64>)
    requires
        start_index + count - 1 <= u64::MAX,
    ensures
        e == if count == 0 { None } else { Some((start_index + count - 1) as u64) },
{
    if count == 0 {
        None
    } else {
        Some(start_index + (count - 1))
    }
}

/// The index the writer gives its next entry after an unsealed segment that
/// starts at `start_index` and holds `count` entries: the one after its last
/// entry, or its own start index when it holds none.
pub fn unsealed_segment_next(start_index: u64, count: u64) -> (n: u64)
    requires
        start_index + count <= u64::MAX,
    ensures
        n == start_index + count,
{
    start_index + count
}

/// Whether a batch with `segment_count` segments of `batch_size` bytes is full.
pub open spec fn batch_full(segment_count: u64, batch_size: usize) -> bool {
    segment_count > BATCH_ROLLOVER_FILE_COUNT || batch_size > BATCH_ROLLOVER_SIZE
}

/// The sum of the sizes.
pub open spec fn total(sizes: Seq<usize>) -> int
    decreases sizes.len(),
{
    if sizes.len() == 0 {
        0
    } else {
        total(sizes.drop_last()) + sizes.last()
    }
}

proof fn lemma_total_nonneg(sizes: Seq<usize>)
    ensures
        total(sizes) >= 0,
    decreases sizes.len(),
{
    if sizes.len() > 0 {
        lemma_total_nonneg(sizes.drop_last());
    }
}

proof fn lemma_total_prefix(sizes: Seq<usize>, i: int)
    requires
        0 <= i <= sizes.len(),
    ensures
        total(sizes.take(i)) <= total(sizes),
    decreases sizes.len() - i,
{
    if i < sizes.len() {
        lemma_total_prefix(sizes, i + 1);
        assert(sizes.take(i + 1).drop_last() =~= sizes.take(i));
    } else {
        assert(sizes.take(i) =~= sizes);
    }
}

/// How a writer resumes in an open batch that starts at `batch_start` and whose
/// segments have the sizes `sizes`; `next_after_last` is the index that
/// follows the entries of its last segment.
pub open spec fn open_batch_spec(batch_start: u64, sizes: Seq<usize>, next_after_last: u64) -> OpenBatchResume {
    if sizes.len() == 0 {
        OpenBatchResume { next_entry_index: batch_start, seal_batch: false, batch_size: 0, segment_count: 0 }
    } else {
        OpenBatchResume {
            next_entry_index: next_after_last,
            seal_batch: batch_full(sizes.len() as u64, total(sizes) as usize),
            batch_size: total(sizes) as usize,
            segment_count: sizes.len() as u64,
        }
    }
}

/// How a writer resumes in an open batch: with no segment it starts at the
/// batch's first index; otherwise at `next_after_last`, the index that follows
/// the last segment's entries, and the batch is sealed first when it is full.
pub fn resume_open_batch(batch_start: u64, sizes: &Vec<usize>, next_after_last: u64) -> (r: OpenBatchResume)
    requires
        total(sizes@) <= usize::MAX,
    ensures
        r == open_batch_spec(batch_start, sizes@, next_after_last),
{
    if sizes.len() == 0 {
        return OpenBatchResume { next_entry_index: batch_start, seal_batch: false, batch_size: 0, segment_count: 0 };
    }
    let mut sum: usize = 0;
    let mut i: usize = 0;
    while i < sizes.len()
        invariant
            i <= sizes@.len(),
            sum == total(sizes@.take(i as int)),
            total(sizes@) <= usize::MAX,
        decreases sizes@.len() - i,
    {
        proof {
            assert(sizes@.take(i as int + 1).drop_last() =~= sizes@.take(i as int));
            lemma_total_prefix(sizes@, i as int + 1);
        }
        sum = sum + sizes[i];
        i += 1;
    }
    proof {
        assert(sizes@.take(sizes@.len() as int) =~= sizes@);
    }
    let count = sizes.len() as u64;
    OpenBatchResume {
        next_entry_index: next_after_last,
        seal_batch: count > BATCH_ROLLOVER_FILE_COUNT || sum > BATCH_ROLLOVER_SIZE,
        batch_size: sum,
        segment_count: count,
    }
}

/// Whether the active segment, if there is one, is sealed now: always when
/// forced, else once it has grown past the segment size limit.
pub fn should_seal_segment(active_size: Option<usize>, force: bool) -> (b: bool)
    ensures
        b == (active_size matches Some(size) && (force || size > MAX_SEGMENT_SIZE)),
{
    match active_size {
        Some(size) => force || size > MAX_SEGMENT_SIZE,
        None => false,
    }
}

/// Whether the batch is sealed after one of its segments was.
pub fn should_seal_batch(segment_count: u64, batch_size: usize) -> (b: bool)
    ensures
        b == batch_full(segment_count, batch_size),
{
    segment_count > BATCH_ROLLOVER_FILE_COUNT || batch_size > BATCH_ROLLOVER_SIZE
}

/// Whether an idle writer seals its active segment: only when there is one
/// and it has been idle for longer than the threshold.
pub fn should_seal_idle(has_active_segment: bool, idle_ms: u64, threshold_ms: u64) -> (b: bool)
    ensures
        b == (has_active_segment && idle_ms > threshold_ms),
{
    has_active_segment && idle_ms > threshold_ms
}

/// A writer resumes fresh exactly when there is no batch; after a sealed last
/// batch, compressed or not, it resumes right after that batch's last entry;
/// it reopens the last batch only when that batch is not sealed.
pub proof fn law_resume_after_last_batch(batches: Seq<BatchInfo>)
    ensures
        resume_spec(batches) == Resume::Fresh <==> batches.len() == 0,
        batches.len() > 0 ==> (resume_spec(batches) == Resume::OpenBatch <==> batches.last().sealed_info is None),
        batches.len() > 0 && batches.last().sealed_info is Some && batches.last().sealed_info->0.end_index < u64::MAX
            ==> resume_spec(batches) == (Resume::AfterSealed {
                next_entry_index: (batches.last().sealed_info->0.end_index + 1) as u64 }),
        resume_spec(batches) matches Resume::AfterSealed { next_entry_index } ==> batches.len() > 0
            && batches.last().sealed_info is Some
            && next_entry_index == (batches.last().sealed_info->0.end_index + 1) as u64,
{
}

/// In an open batch without segments the writer starts at the batch's first
/// index and seals nothing; with segments it goes on after the last one,
/// counting the segments and their bytes, and seals the batch first exactly
/// when there are more than 2048 segments or more than 32 MiB. One more
/// segment adds its bytes and never unseals a full batch.
pub proof fn law_open_batch_resume(batch_start: u64, sizes: Seq<usize>, next_after_last: u64, more: usize)
    requires
        total(sizes.push(more)) <= usize::MAX,
        sizes.len() < u64::MAX,
    ensures
        sizes.len() == 0 ==> open_batch_spec(batch_start, sizes, next_after_last)
            == (OpenBatchResume { next_entry_index: batch_start, seal_batch: false, batch_size: 0, segment_count: 0 }),
        sizes.len() > 0 ==> {
            let r = open_batch_spec(batch_start, sizes, next_after_last);
            &&& r.next_entry_index == next_after_last
            &&& r.segment_count == sizes.len()
            &&& r.seal_batch <==> (sizes.len() > 2048 || r.batch_size > 33554432)
        },
        open_batch_spec(batch_start, sizes.push(more), next_after_last).batch_size
            == open_batch_spec(batch_start, sizes, next_after_last).batch_size + more,
        open_batch_spec(batch_start, sizes, next_after_last).seal_batch
            ==> open_batch_spec(batch_start, sizes.push(more), next_after_last).seal_batch,
{
    lemma_total_nonneg(sizes);
    lemma_total_nonneg(sizes.push(more));
    assert(sizes.push(more).drop_last() =~= sizes);
}

} // verus!
