//! Reading a peer's log back: which batches and segments to open for a
//! reader that wants the entries from a given index on.

use vstd::prelude::*;
use vstd::string::StringExecFns;
use crate::fs::batches::BatchInfo;

verus! {

/// Reads decoded entries from the peer log directories under `root`; every
/// segment opened must start with `magic`.
pub struct FsLogSource {
    root: String,
    magic: Vec<u8>,
}

/// What a reader does with one batch of the listing.
#[derive(Debug, Clone, Copy, PartialEq, Eq, Structural)]
pub enum BatchRead {
    /// The batch ends before the wanted index: nothing in it is read.
    Skip,
    /// The batch is a single `.gz` pack, decompressed and decoded as one stream.
    Compressed,
    /// The batch's segment files are listed and decoded one by one.
    Segments,
}

/// What a reader does with one decoded entry.
#[derive(Debug, Clone, Copy, PartialEq, Eq, Structural)]
pub enum EntryRead {
    /// The entry precedes the wanted index: it only advances the index.
    Skip,
    /// The entry is handed to the consumer with its index.
    Consume,
}

impl FsLogSource {
    /// The directory the peer directories are in.
    pub closed spec fn root_spec(&self) -> Seq<char> {
        self.root@
    }

    /// The magic every segment must start with.
    pub closed spec fn magic_spec(&self) -> Seq<u8> {
        self.magic@
    }

    /// A source reading the peer directories under `root`, checking `magic`.
    pub fn new(root: &str, magic: &[u8]) -> (s: Self)
        ensures
            s.root_spec() == root@,
            s.magic_spec() == magic@,
    {
        let mut m: Vec<u8> = Vec::new();
        let mut i: usize = 0;
        while i < magic.len()
            invariant
                i <= magic@.len(),
                m@ == magic@.take(i as int),
            decreases magic@.len() - i,
        {
            m.push(magic[i]);
            proof {
                assert(magic@.take(i as int + 1) =~= magic@.take(i as int).push(magic@[i as int]));
            }
            i += 1;
        }
        proof {
            assert(magic@.take(magic@.len() as int) =~= magic@);
        }
        FsLogSource { root: String::from_str(root), magic: m }
    }

    /// The directory the peer directories are in.
    pub fn root(&self) -> (r: &str)
        ensures
            r@ == self.root_spec(),
    {
        self.root.as_str()
    }

    /// The magic every segment must start with.
    pub fn magic(&self) -> (m: &[u8])
        ensures
            m@ == self.magic_spec(),
    {
        self.magic.as_slice()
    }
}

/// What is done with `batch` for a reader that wants the entries from
/// `start_index` on.
pub open spec fn batch_read_spec(batch: BatchInfo, start_index: u64) -> BatchRead {
    match batch.sealed_info {
        Some(s) => if s.end_index < start_index {
            BatchRead::Skip
        } else if s.compressed {
            BatchRead::Compressed
        } else {
            BatchRead::Segments
        },
        None => BatchRead::Segments,
    }
}

/// What is done with `batch` for a reader that wants the entries from
/// `start_index` on: a sealed batch that ends before it is skipped, a sealed
/// pack is decompressed, anything else is read segment by segment.
pub fn batch_read(batch: &BatchInfo, start_index: u64) -> (r: BatchRead)
    ensures
        r == batch_read_spec(*batch, start_index),
{
    match &batch.sealed_info {
        Some(s) => {
            if s.end_index < start_index {
                BatchRead::Skip
            } else if s.compressed {
                BatchRead::Compressed
            } else {
                BatchRead::Segments
            }
        },
        None => BatchRead::Segments,
    }
}

/// What is done with the entry at index `idx` for a reader that wants the
/// entries from `start_index` on.
pub fn entry_read(idx: u64, start_index: u64) -> (r: EntryRead)
    ensures
        r == if idx < start_index { EntryRead::Skip } else { EntryRead::Consume },
{
    if idx < start_index {
        EntryRead::Skip
    } else {
        EntryRead::Consume
    }
}

/// Where a reader inside a segment goes on after the entry at `idx`, dealt
/// with as `read`: at the next index, unless the consumer it was handed to
/// asked to stop (`stopped`), which ends the reading.
pub fn entry_next(idx: u64, read: EntryRead, stopped: bool) -> (r: Option<u64>)
    requires
        idx < u64::MAX,
    ensures
        r == if read == EntryRead::Consume && stopped { None } else { Some((idx + 1) as u64) },
{
    match read {
        EntryRead::Consume => {
            if stopped {
                None
            } else {
                Some(idx + 1)
            }
        },
        EntryRead::Skip => Some(idx + 1),
    }
}

/// A reader skips exactly the sealed batches that end before the index it
/// wants, decompresses the other sealed, compressed ones, and reads every
/// other batch segment by segment; a batch skipped for one index is skipped
/// for every later one.
pub proof fn law_batch_read(batch: BatchInfo, start_index: u64, later: u64)
    ensures
        batch_read_spec(batch, start_index) == BatchRead::Skip
            <==> batch.sealed_info is Some && batch.sealed_info->0.end_index < start_index,
        batch_read_spec(batch, start_index) == BatchRead::Compressed
            <==> batch.sealed_info is Some && batch.sealed_info->0.end_index >= start_index && batch.sealed_info->0.compressed,
        batch_read_spec(batch, start_index) == BatchRead::Segments
            <==> batch.sealed_info is None || (batch.sealed_info->0.end_index >= start_index && !batch.sealed_info->0.compressed),
        batch_read_spec(batch, start_index) == BatchRead::Skip && start_index <= later
            ==> batch_read_spec(batch, later) == BatchRead::Skip,
{
}

} // verus!
