//! Segments: append-only files of log entries, named by the index of their
//! first entry and, once sealed, of their last.

use vstd::prelude::*;
use vstd::string::StringExecFns;
use crate::text::{dec, split_on, parse_u64_spec, split_dash, parse_u64, push_decimal, lemma_parse_dec, lemma_split_none,
    lemma_split_append};
use crate::fs::paths::{joined, join_path};
use crate::fs::timestamp::{format_timestamp, format_timestamp_spec};

verus! {

/// What a sealed segment records of its end.
pub struct SealedSegmentInfo {
    pub end_index: u64,
    pub end_ts: String,
}

/// A segment found in a batch directory.
pub struct SegmentInfo {
    pub start_index: u64,
    pub start_ts: String,
    pub sealed_info: Option<SealedSegmentInfo>,
    pub path: String,
    pub size: usize,
}

/// A segment as the plain values its name holds: start index, start time,
/// and for a sealed segment its end index and end time.
pub type SegmentFields = (u64, Seq<char>, Option<(u64, Seq<char>)>);

/// The plain values of a segment's name.
pub open spec fn segment_fields(s: SegmentInfo) -> SegmentFields {
    (s.start_index, s.start_ts@, match s.sealed_info {
        None => None,
        Some(i) => Some((i.end_index, i.end_ts@)),
    })
}

/// What a directory entry named `name` (a directory if `is_dir`) is as a
/// segment, if it is one: a file `{start}-{start_ts}` (active) or a file
/// `{start}-{end}-{start_ts}-{end_ts}` (sealed).
pub open spec fn parsed_segment(name: Seq<char>, is_dir: bool) -> Option<SegmentFields> {
    let parts = split_on(name, '-');
    if is_dir {
        None
    } else if parts.len() == 2 {
        match parse_u64_spec(parts[0]) {
            Some(s) => Some((s, parts[1], None)),
            None => None,
        }
    } else if parts.len() == 4 {
        match (parse_u64_spec(parts[0]), parse_u64_spec(parts[1])) {
            (Some(s), Some(e)) => Some((s, parts[2], Some((e, parts[3])))),
            _ => None,
        }
    } else {
        None
    }
}

/// Which of several segments with one start index is read: a sealed one
/// before an active one.
pub open spec fn segment_priority(f: SegmentFields) -> nat {
    if f.2 is Some { 0 } else { 1 }
}

/// Parses one directory entry of `dir`, of size `size`, as a segment.
fn parse_segment(dir: &str, name: &str, is_dir: bool, size: usize) -> (r: Option<SegmentInfo>)
    ensures
        match r {
            Some(s) => parsed_segment(name@, is_dir) == Some(segment_fields(s)) && s.path@ == joined(dir@, name@)
                && s.size == size,
            None => parsed_segment(name@, is_dir) is None,
        },
{
    if is_dir {
        return None;
    }
    let parts = split_dash(name);
    if parts.len() == 2 {
        let start = match parse_u64(parts[0].as_str()) {
            Some(s) => s,
            None => return None,
        };
        Some(SegmentInfo {
            start_index: start,
            start_ts: parts[1].clone(),
            sealed_info: None,
            path: join_path(dir, name),
            size,
        })
    } else if parts.len() == 4 {
        let start = match parse_u64(parts[0].as_str()) {
            Some(s) => s,
            None => return None,
        };
        let end = match parse_u64(parts[1].as_str()) {
            Some(e) => e,
            None => return None,
        };
        Some(SegmentInfo {
            start_index: start,
            start_ts: parts[2].clone(),
            sealed_info: Some(SealedSegmentInfo { end_index: end, end_ts: parts[3].clone() }),
            path: join_path(dir, name),
            size,
        })
    } else {
        None
    }
}

/// The priority of a segment, as `segment_priority` of its plain values.
fn priority(s: &SegmentInfo) -> (p: u8)
    ensures
        p == segment_priority(segment_fields(*s)),
{
    if s.sealed_info.is_some() { 0 } else { 1 }
}

/// The segments are in strictly increasing order of start index.
pub open spec fn strictly_sorted(r: Seq<SegmentInfo>) -> bool {
    forall|i: int, j: int| 0 <= i < j < r.len() ==> #[trigger] r[i].start_index < #[trigger] r[j].start_index
}

/// Some segment of `r` has the start index of `f` and a priority at least
/// as high.
pub open spec fn represented(r: Seq<SegmentInfo>, f: SegmentFields) -> bool {
    exists|i: int| 0 <= i < r.len() && #[trigger] r[i].start_index == f.0 && segment_priority(segment_fields(r[i])) <= segment_priority(f)
}

/// The segment `s` comes from entry `k` of `entries`, listed in `dir`.
pub open spec fn from_entry(dir: Seq<char>, entries: Seq<(String, bool, usize)>, s: SegmentInfo, k: int) -> bool {
    &&& 0 <= k < entries.len()
    &&& parsed_segment(entries[k].0@, entries[k].1) == Some(segment_fields(s))
    &&& s.path@ == joined(dir, entries[k].0@)
    &&& s.size == entries[k].2
}

/// The segment `s` comes from some entry of `entries`, listed in `dir`.
pub open spec fn has_source(dir: Seq<char>, entries: Seq<(String, bool, usize)>, s: SegmentInfo) -> bool {
    exists|k: int| #[trigger] from_entry(dir, entries, s, k)
}

/// Adds the segment `s` to the sorted segments `r`: in its place by start
/// index, or in place of the segment with its start index if `s` has a
/// higher priority.
fn add_segment(r: &mut Vec<SegmentInfo>, s: SegmentInfo)
    requires
        strictly_sorted(old(r)@),
    ensures
        strictly_sorted(final(r)@),
        represented(final(r)@, segment_fields(s)),
        forall|i: int| 0 <= i < old(r)@.len() ==> represented(final(r)@, segment_fields(#[trigger] old(r)@[i])),
        forall|i: int| 0 <= i < final(r)@.len() ==> #[trigger] final(r)@[i] == s || old(r)@.contains(final(r)@[i]),
{
    let mut k: usize = 0;
    while k < r.len() && r[k].start_index < s.start_index
        invariant
            k <= r@.len(),
            r@ == old(r)@,
            forall|i: int| 0 <= i < k ==> #[trigger] r@[i].start_index < s.start_index,
        decreases r@.len() - k,
    {
        k += 1;
    }
    let ghost r0 = r@;
    if k < r.len() && r[k].start_index == s.start_index {
        if priority(&s) < priority(&r[k]) {
            r.remove(k);
            r.insert(k, s);
            proof {
                assert(r@ == r0.update(k as int, s));
                assert(r@[k as int] == s);
                assert forall|i: int| 0 <= i < r0.len() implies represented(r@, segment_fields(#[trigger] r0[i])) by {
                    if i == k {
                        assert(r@[k as int].start_index == r0[i].start_index);
                    } else {
                        assert(r@[i] == r0[i]);
                    }
                }
                assert forall|i: int| 0 <= i < r@.len() implies #[trigger] r@[i] == s || r0.contains(r@[i]) by {
                    if i != k {
                        assert(r@[i] == r0[i]);
                    }
                }
            }
        } else {
            proof {
                assert(r@[k as int].start_index == s.start_index);
                assert forall|i: int| 0 <= i < r0.len() implies represented(r@, segment_fields(#[trigger] r0[i])) by {
                    assert(r@[i] == r0[i]);
                }
                assert forall|i: int| 0 <= i < r@.len() implies #[trigger] r@[i] == s || r0.contains(r@[i]) by {
                    assert(r0[i] == r@[i]);
                }
            }
        }
    } else {
        r.insert(k, s);
        proof {
            assert(r@ == r0.insert(k as int, s));
            assert(r@[k as int] == s);
            assert forall|i: int, j: int| 0 <= i < j < r@.len() implies #[trigger] r@[i].start_index < #[trigger] r@[j].start_index by {
                if j < k {
                    assert(r@[i] == r0[i] && r@[j] == r0[j]);
                } else if j == k {
                    assert(r@[i] == r0[i]);
                } else if i < k {
                    assert(r@[i] == r0[i] && r@[j] == r0[j - 1]);
                    if k < r0.len() {
                        assert(r0[k as int].start_index > s.start_index);
                    }
                } else if i == k {
                    assert(r@[j] == r0[j - 1]);
                    assert(r0[k as int].start_index > s.start_index);
                    if j - 1 > k {
                        assert(r0[k as int].start_index < r0[j - 1].start_index);
                    }
                } else {
                    assert(r@[i] == r0[i - 1] && r@[j] == r0[j - 1]);
                }
            }
            assert forall|i: int| 0 <= i < r0.len() implies represented(r@, segment_fields(#[trigger] r0[i])) by {
                if i < k {
                    assert(r@[i] == r0[i]);
                } else {
                    assert(r@[i + 1] == r0[i]);
                }
            }
            assert forall|i: int| 0 <= i < r@.len() implies #[trigger] r@[i] == s || r0.contains(r@[i]) by {
                if i < k {
                    assert(r@[i] == r0[i]);
                } else if i > k {
                    assert(r@[i] == r0[i - 1]);
                }
            }
        }
    }
}

/// The segments among the entries `(name, is_dir, size)` of the directory
/// `dir`, in order of start index, one per start index: where two share
/// one, a sealed segment wins over an active one. Entries that are no
/// segment are left out.
pub fn parse_segments(dir: &str, entries: &Vec<(String, bool, usize)>) -> (r: Vec<SegmentInfo>)
    ensures
        strictly_sorted(r@),
        forall|i: int| 0 <= i < r@.len() ==> #[trigger] has_source(dir@, entries@, r@[i]),
        forall|k: int| 0 <= k < entries@.len() && #[trigger] parsed_segment(entries@[k].0@, entries@[k].1) is Some
            ==> represented(r@, parsed_segment(entries@[k].0@, entries@[k].1)->0),
{
    let mut r: Vec<SegmentInfo> = Vec::new();
    let mut j: usize = 0;
    while j < entries.len()
        invariant
            j <= entries@.len(),
            strictly_sorted(r@),
            forall|i: int| 0 <= i < r@.len() ==> #[trigger] has_source(dir@, entries@, r@[i]),
            forall|k: int| 0 <= k < j && #[trigger] parsed_segment(entries@[k].0@, entries@[k].1) is Some
                ==> represented(r@, parsed_segment(entries@[k].0@, entries@[k].1)->0),
        decreases entries@.len() - j,
    {
        let (name, is_dir, size) = &entries[j];
        match parse_segment(dir, name.as_str(), *is_dir, *size) {
            Some(s) => {
                let ghost r0 = r@;
                let ghost ss = s;
                proof {
                    assert(from_entry(dir@, entries@, ss, j as int));
                }
                add_segment(&mut r, s);
                proof {
                    assert forall|i: int| 0 <= i < r@.len() implies #[trigger] has_source(dir@, entries@, r@[i]) by {
                        if r@[i] == ss {
                            assert(from_entry(dir@, entries@, r@[i], j as int));
                        } else {
                            assert(r0.contains(r@[i]));
                            let w = choose|w: int| 0 <= w < r0.len() && r0[w] == r@[i];
                            assert(has_source(dir@, entries@, r0[w]));
                        }
                    }
                    assert forall|k: int| 0 <= k < j + 1 && #[trigger] parsed_segment(entries@[k].0@, entries@[k].1) is Some
                        implies represented(r@, parsed_segment(entries@[k].0@, entries@[k].1)->0) by {
                        if k < j {
                            let f = parsed_segment(entries@[k].0@, entries@[k].1)->0;
                            assert(represented(r0, f));
                            let w = choose|w: int| 0 <= w < r0.len() && #[trigger] r0[w].start_index == f.0 && segment_priority(segment_fields(r0[w])) <= segment_priority(f);
                            assert(represented(r@, segment_fields(r0[w])));
                            let v = choose|v: int| 0 <= v < r@.len() && #[trigger] r@[v].start_index == segment_fields(r0[w]).0
                                && segment_priority(segment_fields(r@[v])) <= segment_priority(segment_fields(r0[w]));
                            assert(r@[v].start_index == f.0);
                        }
                    }
                }
            }
            None => {}
        }
        j += 1;
    }
    r
}

/// The name `{start}-{start_date}` of an active segment file.
pub open spec fn active_name(start_idx: u64, start_date: Seq<char>) -> Seq<char> {
    dec(start_idx as nat) + seq!['-'] + start_date
}

/// The name `{start}-{end}-{start_date}-{end_date}` of a sealed segment file.
pub open spec fn sealed_name(start_idx: u64, end_idx: u64, start_date: Seq<char>, end_date: Seq<char>) -> Seq<char> {
    dec(start_idx as nat) + seq!['-'] + dec(end_idx as nat) + seq!['-'] + start_date + seq!['-'] + end_date
}

/// Name of an active segment file: `{start_idx}-{start_date}`.
pub fn active_segment_name(start_idx: u64, start_date: &str) -> (s: String)
    ensures
        s@ == active_name(start_idx, start_date@),
{
    let mut s = String::new();
    push_decimal(&mut s, start_idx);
    proof {
        reveal_strlit("-");
    }
    s.append("-");
    s.append(start_date);
    proof {
        assert(Seq::<char>::empty() + dec(start_idx as nat) == dec(start_idx as nat));
    }
    s
}

/// Name of a sealed segment file: `{start_idx}-{end_idx}-{start_date}-{end_date}`.
pub fn sealed_segment_name(start_idx: u64, end_idx: u64, start_date: &str, end_date: &str) -> (s: String)
    ensures
        s@ == sealed_name(start_idx, end_idx, start_date@, end_date@),
{
    let mut s = String::new();
    push_decimal(&mut s, start_idx);
    proof {
        reveal_strlit("-");
    }
    s.append("-");
    push_decimal(&mut s, end_idx);
    s.append("-");
    s.append(start_date);
    s.append("-");
    s.append(end_date);
    proof {
        assert(Seq::<char>::empty() + dec(start_idx as nat) == dec(start_idx as nat));
    }
    s
}

/// The names of segment files read back as the segments they name.
pub proof fn law_segment_names(start_idx: u64, end_idx: u64, start_date: Seq<char>, end_date: Seq<char>)
    requires
        !start_date.contains('-'),
        !end_date.contains('-'),
    ensures
        parsed_segment(active_name(start_idx, start_date), false) == Some((start_idx, start_date, None::<(u64, Seq<char>)>)),
        parsed_segment(sealed_name(start_idx, end_idx, start_date, end_date), false)
            == Some((start_idx, start_date, Some((end_idx, end_date)))),
{
    let d1 = dec(start_idx as nat);
    let d2 = dec(end_idx as nat);
    lemma_parse_dec(start_idx);
    lemma_parse_dec(end_idx);
    lemma_split_none(d1, '-');
    lemma_split_append(d1, start_date, '-');
    lemma_split_append(d1, d2, '-');
    lemma_split_append(d1 + seq!['-'] + d2, start_date, '-');
    lemma_split_append(d1 + seq!['-'] + d2 + seq!['-'] + start_date, end_date, '-');
}

/// Segments seal once they grow past this many bytes.
pub const MAX_SEGMENT_SIZE: usize = 1048576;

/// How a segment is sealed at its last entry `end_idx`, written at
/// `end_ts_millis`: the name it takes and what it records, its last index and
/// its end time; the error of the time's formatting when it has none.
pub fn sealed_segment(info: &SegmentInfo, end_idx: u64, end_ts_millis: u64) -> (r: Result<(String, SealedSegmentInfo), String>)
    ensures
        match format_timestamp_spec(end_ts_millis) {
            Ok(ts) => r matches Ok((name, s)) && name@ == sealed_name(info.start_index, end_idx, info.start_ts@, ts)
                && s.end_index == end_idx && s.end_ts@ == ts,
            Err(e) => r matches Err(m) && m@ == e,
        },
{
    match format_timestamp(end_ts_millis) {
        Ok(ts) => {
            let name = sealed_segment_name(info.start_index, end_idx, info.start_ts.as_str(), ts.as_str());
            Ok((name, SealedSegmentInfo { end_index: end_idx, end_ts: ts }))
        },
        Err(e) => Err(e),
    }
}

} // verus!
