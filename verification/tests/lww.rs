use ubiquisync::crdts::lww::{LwwMap, LwwRegister, Op};

fn writes() -> Vec<(u64, Vec<u8>)> {
    vec![(5, b"a".to_vec()), (3, b"z".to_vec()), (5, b"b".to_vec()), (5, b"ab".to_vec()), (4, vec![])]
}

#[test]
fn register_keeps_latest_then_greatest_bytes() {
    let mut r = LwwRegister::new();
    assert_eq!(r.timestamp(), 0);
    assert!(r.get().is_empty());
    r.apply(5, b"a".to_vec());
    r.apply(3, b"z".to_vec());
    assert_eq!((r.timestamp(), r.get().clone()), (5, b"a".to_vec()));
    r.apply(5, b"ab".to_vec());
    assert_eq!(r.get(), &b"ab".to_vec());
    r.apply(5, b"b".to_vec());
    assert_eq!(r.get(), &b"b".to_vec());
    r.apply(5, b"a".to_vec());
    assert_eq!(r.get(), &b"b".to_vec());
}

#[test]
fn registers_converge_whatever_the_order() {
    let ws = writes();
    let mut forward = LwwRegister::new();
    for (t, v) in ws.iter() {
        forward.apply(*t, v.clone());
    }
    let mut backward = LwwRegister::new();
    for (t, v) in ws.iter().rev() {
        backward.apply(*t, v.clone());
    }
    let mut twice = LwwRegister::new();
    for (t, v) in ws.iter().chain(ws.iter()) {
        twice.apply(*t, v.clone());
    }
    assert_eq!((forward.timestamp(), forward.get().clone()), (5, b"b".to_vec()));
    assert_eq!((backward.timestamp(), backward.get().clone()), (5, b"b".to_vec()));
    assert_eq!((twice.timestamp(), twice.get().clone()), (5, b"b".to_vec()));
}

#[test]
fn map_removal_is_a_write_of_no_value() {
    let mut m = LwwMap::new();
    m.apply(1, Op::Insert(7, b"x".to_vec()));
    assert_eq!(m.get(7), Some(&b"x".to_vec()));
    m.apply(2, Op::Remove(7));
    assert_eq!(m.get(7), None);
    m.apply(1, Op::Insert(7, b"late".to_vec()));
    assert_eq!(m.get(7), None);
    m.apply(2, Op::Insert(7, b"tie".to_vec()));
    assert_eq!(m.get(7), Some(&b"tie".to_vec()));
    assert_eq!(m.get(8), None);
}

#[test]
fn maps_converge_whatever_the_order() {
    let ops = || {
        vec![
            (3, Op::Insert(1, b"a".to_vec())),
            (4, Op::Remove(1)),
            (2, Op::Insert(2, b"b".to_vec())),
            (2, Op::Insert(2, b"c".to_vec())),
            (1, Op::Insert(3, b"d".to_vec())),
        ]
    };
    let mut a = LwwMap::new();
    for (t, op) in ops() {
        a.apply(t, op);
    }
    let mut b = LwwMap::new();
    for (t, op) in ops().into_iter().rev() {
        b.apply(t, op);
    }
    for k in 0..5u64 {
        assert_eq!(a.get(k), b.get(k));
    }
    assert_eq!(a.get(1), None);
    assert_eq!(a.get(2), Some(&b"c".to_vec()));
    assert_eq!(a.get(3), Some(&b"d".to_vec()));
}

#[test]
fn map_lists_present_entries() {
    let mut m = LwwMap::new();
    m.apply(1, Op::Insert(7, b"seven".to_vec()));
    m.apply(1, Op::Insert(3, b"three".to_vec()));
    m.apply(2, Op::Insert(9, b"nine".to_vec()));
    m.apply(3, Op::Remove(9));
    let mut entries: Vec<(u64, Vec<u8>)> = m.iter().into_iter().map(|(k, v)| (k, v.clone())).collect();
    entries.sort();
    assert_eq!(entries, vec![(3, b"three".to_vec()), (7, b"seven".to_vec())]);
    let mut keys = m.keys();
    keys.sort();
    assert_eq!(keys, vec![3, 7]);
    let mut values: Vec<Vec<u8>> = m.values().into_iter().cloned().collect();
    values.sort();
    assert_eq!(values, vec![b"seven".to_vec(), b"three".to_vec()]);
    assert!(LwwMap::new().iter().is_empty());
}
