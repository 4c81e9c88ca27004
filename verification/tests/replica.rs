use ubiquisync::sql::processor::{applied_of, Applied, Admission, IngestOutcome, PeerCursors};
use ubiquisync::sql::replica::{
    check_self_db_id, plan_commit, plan_exec, plan_placement, stored_peer_id, CommitStep, EntryKind, ExecPlan,
    Placement, StreamHead, StreamRow, SELF_DB_ID,
};

#[test]
fn cursors_only_move_forward() {
    let mut c = PeerCursors::new();
    assert_eq!(c.get(7), 0);
    assert!(c.advance(7, 3));
    assert_eq!(c.get(7), 3);
    assert!(!c.advance(7, 2));
    assert_eq!(c.get(7), 3);
    assert!(!c.advance(9, 0));
    assert_eq!(c.get(9), 0);
    assert!(c.advance(9, 1));
    assert_eq!(c.get(9), 1);
    assert_eq!(c.get(7), 3);
}

#[test]
fn admission_applies_each_entry_once() {
    let mut c = PeerCursors::new();
    assert_eq!(c.decide(1, 0), Admission::Apply);
    assert_eq!(c.decide(1, 2), Admission::Gap { expected_idx: 0, actual_idx: 2 });
    c.advance(1, 1);
    assert_eq!(c.decide(1, 0), Admission::Duplicate);
    assert_eq!(c.decide(1, 1), Admission::Apply);
    assert_eq!(applied_of(IngestOutcome::Committed), Some(Applied { new: true }));
    assert_eq!(applied_of(IngestOutcome::AlreadyRecorded), Some(Applied { new: false }));
    assert_eq!(applied_of(IngestOutcome::Failed), None);
}

fn row(head_size: u64, commit_size: u64, commit_ok: bool) -> StreamRow {
    StreamRow {
        id: 4,
        head_size,
        head_hash: [1; 32],
        has_head_status: false,
        has_head_cipher: false,
        commit_size,
        commit_ok,
    }
}

#[test]
fn local_write_plans() {
    assert!(matches!(plan_exec(&vec![]), Ok(ExecPlan::CreateStream)));
    assert!(matches!(
        plan_exec(&vec![row(5, 5, true)]),
        Ok(ExecPlan::Continue { stream_id: 4, head_size: 5, commit_ok: true, .. })
    ));
    assert!(matches!(
        plan_exec(&vec![row(5, 3, false)]),
        Ok(ExecPlan::Continue { head_size: 5, commit_ok: false, .. })
    ));
    match plan_exec(&vec![row(12, 10, true)]) {
        Err(m) => assert_eq!(m, "commit status is okay but head 12 and commit 10 sizes do not match"),
        Ok(_) => panic!("expected the size mismatch"),
    }
}

fn head(size: u64, hash: u8, err: bool) -> StreamHead {
    StreamHead { head_size: size, head_hash: [hash; 32], has_head_err: err }
}

#[test]
fn segment_placement() {
    let prev = [7u8; 32];
    assert!(matches!(plan_placement(&vec![], 0, 5, &prev), Placement::NoStreams { starts_log: true }));
    assert!(matches!(plan_placement(&vec![], 3, 5, &prev), Placement::NoStreams { starts_log: false }));
    assert!(matches!(plan_placement(&vec![head(10, 0, true), head(3, 7, false)], 3, 5, &prev), Placement::PlaceDirect(1)));
    assert!(matches!(plan_placement(&vec![head(3, 8, false)], 3, 5, &prev), Placement::Pending));
    assert!(matches!(plan_placement(&vec![head(9, 0, false), head(3, 7, false)], 3, 5, &prev), Placement::AlreadyHave));
    assert!(matches!(plan_placement(&vec![head(1, 0, false)], 3, 5, &prev), Placement::Pending));
    match plan_placement(&vec![head(4, 0, false), head(5, 0, false), head(4, 0, false)], 3, 5, &prev) {
        Placement::Candidates(c) => assert_eq!(c, vec![0, 2]),
        _ => panic!("expected candidates"),
    }
}

#[test]
fn commit_plans() {
    let es = vec![EntryKind::Signature, EntryKind::OpBatch, EntryKind::Expunged, EntryKind::UseKey, EntryKind::OpBatch];
    assert!(plan_commit(true, 0, 9, &es).is_empty());
    assert_eq!(
        plan_commit(false, 9, 9, &es),
        vec![
            CommitStep::Apply { commit_size: 10 },
            CommitStep::Skip { commit_size: 11 },
            CommitStep::Stall { commit_size: 12 },
        ]
    );
    assert_eq!(plan_commit(false, 2, 2, &vec![EntryKind::Signature]), vec![]);
}

#[test]
fn stored_peer_id_takes_sixteen_bytes() {
    let bytes: Vec<u8> = (0u8..16).collect();
    let id = stored_peer_id(&bytes).unwrap();
    assert_eq!(id.to_vec(), bytes);
    assert_eq!(stored_peer_id(&vec![1u8, 2, 3]), Err("invalid peer id length: 3".to_string()));
    assert_eq!(stored_peer_id(&vec![0u8; 17]), Err("invalid peer id length: 17".to_string()));
}

#[test]
fn own_row_must_get_the_self_id() {
    assert_eq!(SELF_DB_ID, 0);
    assert_eq!(check_self_db_id(0), Ok(()));
    assert_eq!(check_self_db_id(5), Err("self_db_id mismatch: got 5, expected 0".to_string()));
    assert_eq!(check_self_db_id(-2), Err("self_db_id mismatch: got -2, expected 0".to_string()));
}
