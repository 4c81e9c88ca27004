//! Batches: directories of segments, named by the index of their first
//! entry and, once sealed, of their last; sealed batches may be compacted
//! into a single `.gz` pack.

use vstd::prelude::*;
use vstd::string::StringExecFns;
use crate::text::{dec, split_on, parse_u64_spec, strip_gz_spec, split_dash, parse_u64, strip_gz, push_decimal,
    lemma_parse_dec, lemma_split_none, lemma_split_append, gz_suffix};
use crate::fs::paths::{joined, join_path};

verus! {

/// What a sealed batch records of its end.
pub struct SealedBatchInfo {
    pub end_index: u64,
    pub end_ts: String,
    /// Whether the batch is a `.gz` pack file rather than a directory of
    /// segment files.
    pub compressed: bool,
}

/// A batch found in a peer's directory.
pub struct BatchInfo {
    pub start_index: u64,
    pub start_ts: String,
    pub sealed_info: Option<SealedBatchInfo>,
    pub path: String,
}

/// A batch as the plain values its name holds: start index, start time,
/// and for a sealed batch its end index, end time and whether it is packed.
pub type BatchFields = (u64, Seq<char>, Option<(u64, Seq<char>, bool)>);

/// The plain values of a batch.
pub open spec fn batch_fields(b: BatchInfo) -> BatchFields {
    (b.start_index, b.start_ts@, match b.sealed_info {
        None => None,
        Some(s) => Some((s.end_index, s.end_ts@, s.compressed)),
    })
}

/// What a directory entry named `name` (a directory if `is_dir`) is as a
/// batch, if it is one: a directory `{start}-{start_ts}` (active), a
/// directory `{start}-{end}-{start_ts}-{end_ts}` (sealed), or a file of that
/// sealed name plus `.gz` (compressed).
pub open spec fn parsed_batch(name: Seq<char>, is_dir: bool) -> Option<BatchFields> {
    let compressed = strip_gz_spec(name) is Some;
    let base = match strip_gz_spec(name) {
        Some(b) => b,
        None => name,
    };
    let parts = split_on(base, '-');
    if is_dir == compressed {
        None
    } else if parts.len() == 2 && !compressed {
        match parse_u64_spec(parts[0]) {
            Some(s) => Some((s, parts[1], None)),
            None => None,
        }
    } else if parts.len() == 4 {
        match (parse_u64_spec(parts[0]), parse_u64_spec(parts[1])) {
            (Some(s), Some(e)) => Some((s, parts[2], Some((e, parts[3], compressed)))),
            _ => None,
        }
    } else {
        None
    }
}

/// Which of several batches with one start index is read: a compressed one
/// before a sealed one before an active one.
pub open spec fn batch_priority(f: BatchFields) -> nat {
    match f.2 {
        Some((_, _, true)) => 0,
        Some(_) => 1,
        None => 2,
    }
}

/// Parses one directory entry of `dir` as a batch.
fn parse_batch(dir: &str, name: &str, is_dir: bool) -> (r: Option<BatchInfo>)
    ensures
        match r {
            Some(b) => parsed_batch(name@, is_dir) == Some(batch_fields(b)) && b.path@ == joined(dir@, name@),
            None => parsed_batch(name@, is_dir) is None,
        },
{
    let stripped = strip_gz(name);
    let compressed = stripped.is_some();
    let base = match stripped {
        Some(b) => b,
        None => String::from_str(name),
    };
    if is_dir == compressed {
        return None;
    }
    let parts = split_dash(base.as_str());
    if parts.len() == 2 && !compressed {
        let start = match parse_u64(parts[0].as_str()) {
            Some(s) => s,
            None => return None,
        };
        Some(BatchInfo {
            start_index: start,
            start_ts: parts[1].clone(),
            sealed_info: None,
            path: join_path(dir, name),
        })
    } else if parts.len() == 4 {
        let start = match parse_u64(parts[0].as_str()) {
            Some(s) => s,
            None => return None,
        };
        let end = match parse_u64(parts[1].as_str()) {
            Some(e) => e,
            None => return None,
        };
        Some(BatchInfo {
            start_index: start,
            start_ts: parts[2].clone(),
            sealed_info: Some(SealedBatchInfo { end_index: end, end_ts: parts[3].clone(), compressed }),
            path: join_path(dir, name),
        })
    } else {
        None
    }
}

/// The priority of a batch, as `batch_priority` of its plain values.
fn priority(b: &BatchInfo) -> (p: u8)
    ensures
        p == batch_priority(batch_fields(*b)),
{
    match &b.sealed_info {
        Some(info) => if info.compressed { 0 } else { 1 },
        None => 2,
    }
}

/// The batches are in strictly increasing order of start index.
pub open spec fn strictly_sorted(r: Seq<BatchInfo>) -> bool {
    forall|i: int, j: int| 0 <= i < j < r.len() ==> #[trigger] r[i].start_index < #[trigger] r[j].start_index
}

/// Some batch of `r` has the start index of `f` and a priority at least as
/// high.
pub open spec fn represented(r: Seq<BatchInfo>, f: BatchFields) -> bool {
    exists|i: int| 0 <= i < r.len() && #[trigger] r[i].start_index == f.0 && batch_priority(batch_fields(r[i])) <= batch_priority(f)
}

/// The batch `b` comes from entry `k` of `entries`, listed in `dir`.
pub open spec fn from_entry(dir: Seq<char>, entries: Seq<(String, bool)>, b: BatchInfo, k: int) -> bool {
    &&& 0 <= k < entries.len()
    &&& parsed_batch(entries[k].0@, entries[k].1) == Some(batch_fields(b))
    &&& b.path@ == joined(dir, entries[k].0@)
}

/// The batch `b` comes from some entry of `entries`, listed in `dir`.
pub open spec fn has_source(dir: Seq<char>, entries: Seq<(String, bool)>, b: BatchInfo) -> bool {
    exists|k: int| #[trigger] from_entry(dir, entries, b, k)
}

/// Adds the batch `b` to the sorted batches `r`: in its place by start
/// index, or in place of the batch with its start index if `b` has a higher
/// priority.
fn add_batch(r: &mut Vec<BatchInfo>, b: BatchInfo)
    requires
        strictly_sorted(old(r)@),
    ensures
        strictly_sorted(final(r)@),
        represented(final(r)@, batch_fields(b)),
        forall|i: int| 0 <= i < old(r)@.len() ==> represented(final(r)@, batch_fields(#[trigger] old(r)@[i])),
        forall|i: int| 0 <= i < final(r)@.len() ==> #[trigger] final(r)@[i] == b || old(r)@.contains(final(r)@[i]),
{
    let mut k: usize = 0;
    while k < r.len() && r[k].start_index < b.start_index
        invariant
            k <= r@.len(),
            r@ == old(r)@,
            forall|i: int| 0 <= i < k ==> #[trigger] r@[i].start_index < b.start_index,
        decreases r@.len() - k,
    {
        k += 1;
    }
    let ghost r0 = r@;
    if k < r.len() && r[k].start_index == b.start_index {
        if priority(&b) < priority(&r[k]) {
            r.remove(k);
            r.insert(k, b);
            proof {
                assert(r@ == r0.update(k as int, b));
                assert(r@[k as int] == b);
                assert forall|i: int| 0 <= i < r0.len() implies represented(r@, batch_fields(#[trigger] r0[i])) by {
                    if i == k {
                        assert(r@[k as int].start_index == r0[i].start_index);
                    } else {
                        assert(r@[i] == r0[i]);
                    }
                }
                assert forall|i: int| 0 <= i < r@.len() implies #[trigger] r@[i] == b || r0.contains(r@[i]) by {
                    if i != k {
                        assert(r@[i] == r0[i]);
                    }
                }
            }
        } else {
            proof {
                assert(r@[k as int].start_index == b.start_index);
                assert forall|i: int| 0 <= i < r0.len() implies represented(r@, batch_fields(#[trigger] r0[i])) by {
                    assert(r@[i] == r0[i]);
                }
                assert forall|i: int| 0 <= i < r@.len() implies #[trigger] r@[i] == b || r0.contains(r@[i]) by {
                    assert(r0[i] == r@[i]);
                }
            }
        }
    } else {
        r.insert(k, b);
        proof {
            assert(r@ == r0.insert(k as int, b));
            assert(r@[k as int] == b);
            assert forall|i: int, j: int| 0 <= i < j < r@.len() implies #[trigger] r@[i].start_index < #[trigger] r@[j].start_index by {
                if j < k {
                    assert(r@[i] == r0[i] && r@[j] == r0[j]);
                } else if j == k {
                    assert(r@[i] == r0[i]);
                } else if i < k {
                    assert(r@[i] == r0[i] && r@[j] == r0[j - 1]);
                    if k < r0.len() {
                        assert(r0[k as int].start_index > b.start_index);
                    }
                } else if i == k {
                    assert(r@[j] == r0[j - 1]);
                    assert(r0[k as int].start_index > b.start_index);
                    if j - 1 > k {
                        assert(r0[k as int].start_index < r0[j - 1].start_index);
                    }
                } else {
                    assert(r@[i] == r0[i - 1] && r@[j] == r0[j - 1]);
                }
            }
            assert forall|i: int| 0 <= i < r0.len() implies represented(r@, batch_fields(#[trigger] r0[i])) by {
                if i < k {
                    assert(r@[i] == r0[i]);
                } else {
                    assert(r@[i + 1] == r0[i]);
                }
            }
            assert forall|i: int| 0 <= i < r@.len() implies #[trigger] r@[i] == b || r0.contains(r@[i]) by {
                if i < k {
                    assert(r@[i] == r0[i]);
                } else if i > k {
                    assert(r@[i] == r0[i - 1]);
                }
            }
        }
    }
}

/// The batches among the entries `(name, is_dir)` of the directory `dir`,
/// in order of start index, one per start index: where several share one,
/// a compressed batch wins over a sealed one, and a sealed one over an
/// active one. Entries that are no batch are left out.
pub fn parse_batches(dir: &str, entries: &Vec<(String, bool)>) -> (r: Vec<BatchInfo>)
    ensures
        strictly_sorted(r@),
        forall|i: int| 0 <= i < r@.len() ==> #[trigger] has_source(dir@, entries@, r@[i]),
        forall|k: int| 0 <= k < entries@.len() && #[trigger] parsed_batch(entries@[k].0@, entries@[k].1) is Some
            ==> represented(r@, parsed_batch(entries@[k].0@, entries@[k].1)->0),
{
    let mut r: Vec<BatchInfo> = Vec::new();
    let mut j: usize = 0;
    while j < entries.len()
        invariant
            j <= entries@.len(),
            strictly_sorted(r@),
            forall|i: int| 0 <= i < r@.len() ==> #[trigger] has_source(dir@, entries@, r@[i]),
            forall|k: int| 0 <= k < j && #[trigger] parsed_batch(entries@[k].0@, entries@[k].1) is Some
                ==> represented(r@, parsed_batch(entries@[k].0@, entries@[k].1)->0),
        decreases entries@.len() - j,
    {
        let (name, is_dir) = &entries[j];
        match parse_batch(dir, name.as_str(), *is_dir) {
            Some(b) => {
                let ghost r0 = r@;
                let ghost bb = b;
                proof {
                    assert(from_entry(dir@, entries@, bb, j as int));
                }
                add_batch(&mut r, b);
                proof {
                    assert forall|i: int| 0 <= i < r@.len() implies #[trigger] has_source(dir@, entries@, r@[i]) by {
                        if r@[i] == bb {
                            assert(from_entry(dir@, entries@, r@[i], j as int));
                        } else {
                            assert(r0.contains(r@[i]));
                            let w = choose|w: int| 0 <= w < r0.len() && r0[w] == r@[i];
                            assert(has_source(dir@, entries@, r0[w]));
                        }
                    }
                    assert forall|k: int| 0 <= k < j + 1 && #[trigger] parsed_batch(entries@[k].0@, entries@[k].1) is Some
                        implies represented(r@, parsed_batch(entries@[k].0@, entries@[k].1)->0) by {
                        if k < j {
                            let f = parsed_batch(entries@[k].0@, entries@[k].1)->0;
                            assert(represented(r0, f));
                            let w = choose|w: int| 0 <= w < r0.len() && #[trigger] r0[w].start_index == f.0 && batch_priority(batch_fields(r0[w])) <= batch_priority(f);
                            assert(represented(r@, batch_fields(r0[w])));
                            let v = choose|v: int| 0 <= v < r@.len() && #[trigger] r@[v].start_index == batch_fields(r0[w]).0
                                && batch_priority(batch_fields(r@[v])) <= batch_priority(batch_fields(r0[w]));
                            assert(r@[v].start_index == f.0);
                        }
                    }
                }
            }
            None => {}
        }
        j += 1;
    }
    r
}

/// The name `{start}-{start_date}` of an active batch directory.
pub open spec fn active_name(start_idx: u64, start_date: Seq<char>) -> Seq<char> {
    dec(start_idx as nat) + seq!['-'] + start_date
}

/// The name `{start}-{end}-{start_date}-{end_date}` of a sealed batch
/// directory.
pub open spec fn sealed_name(start_idx: u64, end_idx: u64, start_date: Seq<char>, end_date: Seq<char>) -> Seq<char> {
    dec(start_idx as nat) + seq!['-'] + dec(end_idx as nat) + seq!['-'] + start_date + seq!['-'] + end_date
}

/// Name of an active batch directory: `{start_idx}-{start_date}`, no end
/// yet because the batch still takes segments.
pub fn active_batch_name(start_idx: u64, start_date: &str) -> (s: String)
    ensures
        s@ == active_name(start_idx, start_date@),
{
    let mut s = String::new();
    push_decimal(&mut s, start_idx);
    proof {
        reveal_strlit("-");
    }
    s.append("-");
    s.append(start_date);
    proof {
        assert(Seq::<char>::empty() + dec(start_idx as nat) == dec(start_idx as nat));
    }
    s
}

/// Name of a sealed batch directory:
/// `{start_idx}-{end_idx}-{start_date}-{end_date}`, closed to new segments
/// but not compressed yet.
pub fn sealed_batch_name(start_idx: u64, end_idx: u64, start_date: &str, end_date: &str) -> (s: String)
    ensures
        s@ == sealed_name(start_idx, end_idx, start_date@, end_date@),
{
    let mut s = String::new();
    push_decimal(&mut s, start_idx);
    proof {
        reveal_strlit("-");
    }
    s.append("-");
    push_decimal(&mut s, end_idx);
    s.append("-");
    s.append(start_date);
    s.append("-");
    s.append(end_date);
    proof {
        assert(Seq::<char>::empty() + dec(start_idx as nat) == dec(start_idx as nat));
    }
    s
}

/// A name whose last part has no `.gz` at its end has none at all, if that
/// part follows a `-`.
proof fn lemma_no_gz(pre: Seq<char>, last: Seq<char>)
    requires
        strip_gz_spec(last) is None,
        pre.len() > 0,
        pre.last() == '-',
    ensures
        strip_gz_spec(pre + last) is None,
{
    let s = pre + last;
    if s.len() >= 3 && s.subrange(s.len() - 3, s.len() as int) == gz_suffix() {
        let t = s.subrange(s.len() - 3, s.len() as int);
        if last.len() >= 3 {
            assert(last.subrange(last.len() - 3, last.len() as int) == t);
        } else if last.len() == 2 {
            assert(t[0] == pre.last());
        } else if last.len() == 1 {
            assert(t[1] == pre.last());
        } else {
            assert(t[2] == pre.last());
        }
    }
}

/// The name of an active batch directory reads back as the batch it names.
pub proof fn law_active_batch_name(start_idx: u64, start_date: Seq<char>)
    requires
        !start_date.contains('-'),
        strip_gz_spec(start_date) is None,
    ensures
        parsed_batch(active_name(start_idx, start_date), true) == Some((start_idx, start_date, None::<(u64, Seq<char>, bool)>)),
{
    let d = dec(start_idx as nat);
    lemma_parse_dec(start_idx);
    lemma_no_gz(d + seq!['-'], start_date);
    assert(active_name(start_idx, start_date) == (d + seq!['-']) + start_date);
    lemma_split_none(d, '-');
    lemma_split_append(d, start_date, '-');
}

/// The name of a sealed batch directory reads back as the batch it names,
/// and so does that name plus `.gz` for a compressed batch file.
pub proof fn law_sealed_batch_name(start_idx: u64, end_idx: u64, start_date: Seq<char>, end_date: Seq<char>)
    requires
        !start_date.contains('-'),
        !end_date.contains('-'),
        strip_gz_spec(end_date) is None,
    ensures
        parsed_batch(sealed_name(start_idx, end_idx, start_date, end_date), true)
            == Some((start_idx, start_date, Some((end_idx, end_date, false)))),
        parsed_batch(sealed_name(start_idx, end_idx, start_date, end_date) + gz_suffix(), false)
            == Some((start_idx, start_date, Some((end_idx, end_date, true)))),
{
    let d1 = dec(start_idx as nat);
    let d2 = dec(end_idx as nat);
    lemma_parse_dec(start_idx);
    lemma_parse_dec(end_idx);
    let name = sealed_name(start_idx, end_idx, start_date, end_date);
    let a = d1 + seq!['-'] + d2 + seq!['-'] + start_date + seq!['-'];
    assert(name == a + end_date);
    lemma_no_gz(a, end_date);
    lemma_split_none(d1, '-');
    lemma_split_append(d1, d2, '-');
    lemma_split_append(d1 + seq!['-'] + d2, start_date, '-');
    lemma_split_append(d1 + seq!['-'] + d2 + seq!['-'] + start_date, end_date, '-');
    let g = name + gz_suffix();
    assert(g.subrange(g.len() - 3, g.len() as int) == gz_suffix());
    assert(g.subrange(0, g.len() - 3) == name);
}

} // verus!
