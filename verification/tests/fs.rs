use ubiquisync::fs::batches::{active_batch_name, parse_batches, sealed_batch_name, BatchInfo, SealedBatchInfo};
use ubiquisync::fs::pack::{PackFileName, PackReadState, PackRef};
use ubiquisync::fs::peers::{peer_dir, peer_dir_name, peer_from_name, peers_from_entries};
use ubiquisync::fs::segments::{active_segment_name, parse_segments, sealed_segment, sealed_segment_name, SegmentInfo};
use ubiquisync::fs::sink::{
    resume_from_batches, resume_open_batch, should_seal_batch, should_seal_idle, should_seal_segment,
    unsealed_segment_end, unsealed_segment_next, Resume,
};
use ubiquisync::fs::source::{batch_read, entry_next, entry_read, BatchRead, EntryRead, FsLogSource};
use ubiquisync::fs::timestamp::format_timestamp;

const START_DATE: &str = "20260421120000";
const END_DATE: &str = "20260421130000";

fn active(start: u64) -> (String, bool) {
    (active_batch_name(start, START_DATE), true)
}
fn sealed(start: u64, end: u64) -> (String, bool) {
    (sealed_batch_name(start, end, START_DATE, END_DATE), true)
}
fn compressed_batch_name(start: u64, end: u64, start_date: &str, end_date: &str) -> String {
    format!("{}-{}-{}-{}.gz", start, end, start_date, end_date)
}
fn compressed(start: u64, end: u64) -> (String, bool) {
    (compressed_batch_name(start, end, START_DATE, END_DATE), false)
}
fn active_seg(start: u64) -> (String, bool, usize) {
    (active_segment_name(start, START_DATE), false, 0)
}
fn sealed_seg(start: u64, end: u64) -> (String, bool, usize) {
    (sealed_segment_name(start, end, START_DATE, END_DATE), false, 0)
}

#[test]
fn parses_the_three_batch_states() {
    let entries = vec![active(1), sealed(2, 10), compressed(11, 20)];
    let batches = parse_batches("/fake", &entries);
    assert_eq!(batches.len(), 3);
    assert_eq!(batches[0].start_index, 1);
    assert!(batches[0].sealed_info.is_none());
    assert_eq!(batches[1].start_index, 2);
    let sealed_info = batches[1].sealed_info.as_ref().expect("sealed_info");
    assert_eq!(sealed_info.end_index, 10);
    assert_eq!(sealed_info.end_ts, END_DATE);
    assert!(!sealed_info.compressed);
    assert_eq!(batches[2].start_index, 11);
    let compressed_info = batches[2].sealed_info.as_ref().expect("sealed_info");
    assert_eq!(compressed_info.end_index, 20);
    assert!(compressed_info.compressed);
}

#[test]
fn dedup_prefers_compressed_over_sealed_at_same_start_index() {
    let entries = vec![sealed(5, 50), compressed(5, 50), sealed(20, 30)];
    let batches = parse_batches("/fake", &entries);
    assert_eq!(batches.len(), 2);
    assert_eq!(batches[0].start_index, 5);
    assert!(batches[0].sealed_info.as_ref().is_some_and(|s| s.compressed));
    assert_eq!(batches[1].start_index, 20);
    assert!(batches[1].sealed_info.as_ref().is_some_and(|s| !s.compressed));
}

#[test]
fn rejects_kind_mismatches_and_garbage_names() {
    let entries = vec![
        (compressed_batch_name(1, 10, START_DATE, END_DATE), true),
        (sealed_batch_name(2, 10, START_DATE, END_DATE), false),
        ("3-aaa-bbb".to_string(), true),
        ("notanumber-20260421".to_string(), true),
        active(99),
    ];
    let batches = parse_batches("/fake", &entries);
    assert_eq!(batches.len(), 1);
    assert_eq!(batches[0].start_index, 99);
    assert!(batches[0].sealed_info.is_none());
}

#[test]
fn parses_active_and_sealed_segments() {
    let entries = vec![active_seg(1), sealed_seg(2, 10)];
    let segments = parse_segments("/fake", &entries);
    assert_eq!(segments.len(), 2);
    assert_eq!(segments[0].start_index, 1);
    assert!(segments[0].sealed_info.is_none());
    assert_eq!(segments[1].start_index, 2);
    let sealed_info = segments[1].sealed_info.as_ref().expect("sealed_info");
    assert_eq!(sealed_info.end_index, 10);
    assert_eq!(sealed_info.end_ts, END_DATE);
}

#[test]
fn rejects_directories_and_garbage_names() {
    let entries = vec![
        (active_segment_name(1, START_DATE), true, 0),
        ("3-aaa-bbb".to_string(), false, 0),
        ("notanumber-20260421".to_string(), false, 0),
        sealed_seg(99, 150),
    ];
    let segments = parse_segments("/fake", &entries);
    assert_eq!(segments.len(), 1);
    assert_eq!(segments[0].start_index, 99);
    let sealed_info = segments[0].sealed_info.as_ref().expect("sealed_info");
    assert_eq!(sealed_info.end_index, 150);
}

#[test]
fn batch_paths_join_the_directory() {
    let batches = parse_batches("/fake/", &vec![active(3)]);
    assert_eq!(batches[0].path, format!("/fake/{}", active_batch_name(3, START_DATE)));
    assert_eq!(active_batch_name(3, START_DATE), "3-20260421120000");
    assert_eq!(sealed_batch_name(3, 9, START_DATE, END_DATE), "3-9-20260421120000-20260421130000");
}

fn pack(start: u64, end: u64, id: u64, generation: u64) -> PackFileName {
    PackFileName { seqs: start..end, id, generation }
}

#[test]
fn pack_file_name_display() {
    assert_eq!(pack(0, 1, 0xabcdef, 0).to_string(), "0000-0001-0000000000abcdef-00");
    assert_eq!(pack(0xffff, 0xa0000, 0x12345, 0x100).to_string(), "ffff-a0000-0000000000012345-100");
}

#[test]
fn pack_ref_is_id_and_end() {
    assert_eq!(pack(3, 9, 42, 1).get_ref(), PackRef { id: 42, end_seq: 9 });
}

#[test]
fn pack_read_state_keeps_consumed_and_orders_the_rest() {
    let state = PackReadState {
        consumed: vec![PackRef { id: 1, end_seq: 10 }, PackRef { id: 9, end_seq: 99 }],
        blocked: vec![],
    };
    let cur = vec![
        pack(0, 30, 5, 0),
        pack(0, 10, 1, 0),
        pack(0, 20, 7, 0),
        pack(0, 20, 6, 0),
        pack(0, 10, 1, 1),
        pack(0, 5, 8, 0),
    ];
    let res = state.update(0, &cur);
    assert_eq!(res.new_state.consumed, vec![PackRef { id: 1, end_seq: 10 }]);
    let order: Vec<u64> = res.to_read.iter().map(|f| f.id).collect();
    assert_eq!(order, vec![8, 7, 6, 5]);
    assert!(res.new_state.blocked.is_empty());
}

#[test]
fn peer_dir_names_round_trip() {
    let zero = [0u8; 16];
    assert_eq!(peer_dir_name(&zero), "AAAAAAAAAAAAAAAAAAAAAA");
    let seq: [u8; 16] = [0, 1, 2, 3, 4, 5, 6, 7, 8, 9, 10, 11, 12, 13, 14, 15];
    assert_eq!(peer_dir_name(&seq), "AAECAwQFBgcICQoLDA0ODw");
    assert_eq!(peer_from_name(&peer_dir_name(&seq)), Some(seq));
    let odd = [0xfb, 0xff, 0xfb, 0xff, 0xfb, 0xff, 0xfb, 0xff, 0xfb, 0xff, 0xfb, 0xff, 0xfb, 0xff, 0xfb, 0xff];
    assert_eq!(peer_dir_name(&odd), "-__7__v_-__7__v_-__7_w");
    assert_eq!(peer_dir("/root", &zero), "/root/AAAAAAAAAAAAAAAAAAAAAA");
    assert_eq!(peer_from_name("AAAA"), None);
    assert_eq!(peer_from_name("not base64!"), None);
}

#[test]
fn peers_are_directories_with_sixteen_byte_names() {
    let entries = vec![
        ("AAECAwQFBgcICQoLDA0ODw".to_string(), true),
        ("AAAAAAAAAAAAAAAAAAAAAA".to_string(), false),
        ("AAAA".to_string(), true),
        ("AAAAAAAAAAAAAAAAAAAAAA".to_string(), true),
    ];
    let peers = peers_from_entries(&entries);
    assert_eq!(peers, vec![[0, 1, 2, 3, 4, 5, 6, 7, 8, 9, 10, 11, 12, 13, 14, 15], [0u8; 16]]);
}

#[test]
fn timestamps_format_compactly_in_utc() {
    assert_eq!(format_timestamp(0).unwrap(), "19700101000000");
    assert_eq!(format_timestamp(1776772800000).unwrap(), "20260421120000");
    assert_eq!(format_timestamp(1776772800999).unwrap(), "20260421120000");
    let err = format_timestamp(300_000_000_000_000).unwrap_err();
    assert!(err.starts_with("invalid timestamp 300000000000000 ms: "), "{err}");
}

fn batch(start: u64, sealed: Option<(u64, bool)>) -> BatchInfo {
    BatchInfo {
        start_index: start,
        start_ts: START_DATE.to_string(),
        sealed_info: sealed.map(|(end_index, compressed)| SealedBatchInfo {
            end_index,
            end_ts: END_DATE.to_string(),
            compressed,
        }),
        path: "/fake/b".to_string(),
    }
}

#[test]
fn writer_resume_points() {
    assert_eq!(resume_from_batches(&vec![]), Resume::Fresh);
    assert_eq!(
        resume_from_batches(&vec![batch(0, Some((9, false))), batch(10, Some((19, true)))]),
        Resume::AfterSealed { next_entry_index: 20 }
    );
    assert_eq!(resume_from_batches(&vec![batch(0, Some((9, false))), batch(10, None)]), Resume::OpenBatch);

    let empty = resume_open_batch(10, &vec![], 0);
    assert_eq!((empty.next_entry_index, empty.seal_batch, empty.batch_size, empty.segment_count), (10, false, 0, 0));
    let small = resume_open_batch(10, &vec![100, 200], 15);
    assert_eq!((small.next_entry_index, small.seal_batch, small.batch_size, small.segment_count), (15, false, 300, 2));
    let big = resume_open_batch(10, &vec![33554432, 1], 15);
    assert!(big.seal_batch);
    assert_eq!(unsealed_segment_end(100, 0), None);
    assert_eq!(unsealed_segment_end(100, 3), Some(102));
    assert_eq!(unsealed_segment_next(100, 3), 103);
}

#[test]
fn empty_tail_segment_resumes_at_its_start() {
    // An unsealed segment at index 0 that holds no entry: nothing is sealed,
    // and the next entry takes index 0 itself.
    assert_eq!(unsealed_segment_end(0, 0), None);
    let next = unsealed_segment_next(0, 0);
    assert_eq!(next, 0);
    let r = resume_open_batch(0, &vec![5], next);
    assert_eq!(r.next_entry_index, 0);
    // Two entries in the segment: sealed at 1, resumed at 2.
    assert_eq!(unsealed_segment_end(0, 2), Some(1));
    assert_eq!(resume_open_batch(0, &vec![5], unsealed_segment_next(0, 2)).next_entry_index, 2);
}

#[test]
fn seal_decisions() {
    assert!(!should_seal_segment(None, true));
    assert!(should_seal_segment(Some(0), true));
    assert!(!should_seal_segment(Some(1048576), false));
    assert!(should_seal_segment(Some(1048577), false));
    assert!(should_seal_batch(2049, 0));
    assert!(!should_seal_batch(2048, 33554432));
    assert!(should_seal_batch(1, 33554433));
    assert!(should_seal_idle(true, 11, 10));
    assert!(!should_seal_idle(true, 10, 10));
    assert!(!should_seal_idle(false, 100, 10));
}

#[test]
fn reader_plans() {
    assert_eq!(batch_read(&batch(0, Some((9, true))), 10), BatchRead::Skip);
    assert_eq!(batch_read(&batch(0, Some((9, true))), 9), BatchRead::Compressed);
    assert_eq!(batch_read(&batch(0, Some((9, false))), 0), BatchRead::Segments);
    assert_eq!(batch_read(&batch(0, None), 1000), BatchRead::Segments);
    assert_eq!(entry_read(4, 5), EntryRead::Skip);
    assert_eq!(entry_read(5, 5), EntryRead::Consume);
    let src = FsLogSource::new("/data", b"MAGIC");
    assert_eq!(src.root(), "/data");
    assert_eq!(src.magic(), b"MAGIC");
}

#[test]
fn sealing_a_segment_names_it_by_its_range() {
    let info = SegmentInfo {
        start_index: 3,
        start_ts: "20240101000000".to_string(),
        sealed_info: None,
        path: "b/3-20240101000000".to_string(),
        size: 10,
    };
    let (name, sealed) = sealed_segment(&info, 7, 0).unwrap();
    assert_eq!(name, sealed_segment_name(3, 7, "20240101000000", "19700101000000"));
    assert_eq!(sealed.end_index, 7);
    assert_eq!(sealed.end_ts, "19700101000000");
}

#[test]
fn segment_reading_advances_and_stops() {
    assert_eq!(entry_next(4, EntryRead::Skip, true), Some(5));
    assert_eq!(entry_next(4, EntryRead::Consume, false), Some(5));
    assert_eq!(entry_next(4, EntryRead::Consume, true), None);
}
