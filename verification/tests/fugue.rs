use ubiquisync::crdts::fugue::{Delete, Insert, LogicalOp, LogicalOpError, List, Op, Parent, PrepareError, PrepareOp, Side};
use ubiquisync::crdts::id::{ElementId, EntryId};
use ubiquisync::crdts::walker::View;

fn id(peer: u64, entry: u64) -> ElementId {
    ElementId { op_id: EntryId { peer_alias: peer, entry_index: entry, hash: 0 }, index: 0 }
}

fn text(l: &List<char>) -> String {
    l.iter().into_iter().copied().collect()
}

fn insert_at(l: &mut List<char>, op_id: ElementId, offset: usize, s: &str) -> Op<char> {
    let ins = l.create_insert(View::Effect, offset, s.chars().collect()).unwrap();
    let op = Op::Insert(ubiquisync::crdts::fugue::Insert {
        parent: ins.parent,
        right_origin: ins.right_origin,
        content: ins.content.clone(),
    });
    l.apply_op(op_id, Op::Insert(ins)).unwrap();
    op
}

fn copy_op(op: &Op<char>) -> Op<char> {
    match op {
        Op::Insert(ins) => Op::Insert(ubiquisync::crdts::fugue::Insert {
            parent: ins.parent,
            right_origin: ins.right_origin,
            content: ins.content.clone(),
        }),
        Op::Delete(ds) => Op::Delete(ds.clone()),
    }
}

#[test]
fn local_inserts_land_at_their_offset() {
    let mut l: List<char> = List::new();
    insert_at(&mut l, id(1, 0), 0, "abc");
    assert_eq!(text(&l), "abc");
    insert_at(&mut l, id(1, 1), 1, "XY");
    assert_eq!(text(&l), "aXYbc");
    insert_at(&mut l, id(1, 2), 5, "!");
    assert_eq!(text(&l), "aXYbc!");
    insert_at(&mut l, id(1, 3), 0, ">");
    assert_eq!(text(&l), ">aXYbc!");
    assert_eq!(l.size(View::Effect), 7);
}

#[test]
fn insert_past_the_end_is_out_of_range() {
    let l: List<char> = List::new();
    assert!(matches!(l.create_insert(View::Effect, 1, vec!['a']), Err(LogicalOpError::OutOfRange)));
    assert!(l.create_insert(View::Effect, 0, vec!['a']).is_ok());
}

#[test]
fn local_delete_removes_the_range() {
    let mut l: List<char> = List::new();
    insert_at(&mut l, id(1, 0), 0, "abcdef");
    let ds = l.create_delete(View::Effect, 1, 3).unwrap();
    l.apply_op(id(1, 1), Op::Delete(ds)).unwrap();
    assert_eq!(text(&l), "aef");
    assert!(matches!(l.create_delete(View::Effect, 2, 2), Err(LogicalOpError::OutOfRange)));
    let none = l.create_delete(View::Effect, 3, 0).unwrap();
    assert!(none.is_empty());
}

#[test]
fn logical_ops_become_ops() {
    let mut l: List<char> = List::new();
    let op = l.logical_to_physical(View::Effect, LogicalOp::Insert { offset: 0, content: vec!['h', 'i'] }).unwrap();
    l.apply_op(id(2, 0), op).unwrap();
    assert_eq!(text(&l), "hi");
    let del = l.logical_to_physical(View::Effect, LogicalOp::Delete { offset: 0, count: 1 }).unwrap();
    l.apply_op(id(2, 1), del).unwrap();
    assert_eq!(text(&l), "i");
}

#[test]
fn replicas_converge_whatever_the_delivery_order() {
    // Two writers edit concurrently; a third replica and each writer apply
    // every op, in different orders that respect causality.
    let mut a: List<char> = List::new();
    let mut b: List<char> = List::new();
    let base = insert_at(&mut a, id(1, 0), 0, "hello");
    b.apply_op(id(1, 0), copy_op(&base)).unwrap();

    let op_a = insert_at(&mut a, id(1, 1), 5, " world");
    let op_b = insert_at(&mut b, id(2, 0), 0, "oh, ");
    let op_b2 = insert_at(&mut b, id(2, 1), 4, "HEY ");

    a.apply_op(id(2, 0), copy_op(&op_b)).unwrap();
    a.apply_op(id(2, 1), copy_op(&op_b2)).unwrap();
    b.apply_op(id(1, 1), copy_op(&op_a)).unwrap();

    let mut c: List<char> = List::new();
    c.apply_op(id(1, 0), copy_op(&base)).unwrap();
    c.apply_op(id(2, 0), copy_op(&op_b)).unwrap();
    c.apply_op(id(1, 1), copy_op(&op_a)).unwrap();
    c.apply_op(id(2, 1), copy_op(&op_b2)).unwrap();

    assert_eq!(text(&a), text(&b));
    assert_eq!(text(&a), text(&c));
    assert_eq!(text(&a), "oh, HEY hello world");
}

#[test]
fn concurrent_inserts_at_the_same_place_do_not_interleave() {
    let mut a: List<char> = List::new();
    let mut b: List<char> = List::new();
    let op_a = insert_at(&mut a, id(1, 0), 0, "aaa");
    let op_b = insert_at(&mut b, id(2, 0), 0, "bbb");
    a.apply_op(id(2, 0), copy_op(&op_b)).unwrap();
    b.apply_op(id(1, 0), copy_op(&op_a)).unwrap();
    assert_eq!(text(&a), text(&b));
    assert!(text(&a) == "aaabbb" || text(&a) == "bbbaaa");
}

#[test]
fn delete_before_its_insert_waits_for_it() {
    let mut a: List<char> = List::new();
    let ins = insert_at(&mut a, id(1, 0), 0, "xyz");
    let ds = a.create_delete(View::Effect, 0, 1).unwrap();
    let del = Op::Delete(ds.clone());
    a.apply_op(id(1, 1), Op::Delete(ds)).unwrap();
    assert_eq!(text(&a), "yz");

    let mut b: List<char> = List::new();
    b.apply_op(id(1, 1), copy_op(&del)).unwrap();
    assert_eq!(text(&b), "");
    b.apply_op(id(1, 0), copy_op(&ins)).unwrap();
    assert_eq!(text(&b), "yz");
}

#[test]
fn prepare_view_advances_and_retracts() {
    let mut l: List<char> = List::new();
    let ins = l.create_insert(View::Effect, 0, vec!['a', 'b']).unwrap();
    let prep = l.apply_op(id(1, 0), Op::Insert(ins)).unwrap();
    assert!(matches!(prep, PrepareOp::Insert { count: 2, .. }));
    assert_eq!(l.size(View::Prepare), 0);
    assert_eq!(l.iter_prepare().len(), 0);
    l.prepare_advance(&prep).unwrap();
    assert_eq!(l.size(View::Prepare), 2);
    assert_eq!(l.iter_prepare().into_iter().copied().collect::<String>(), "ab");
    l.prepare_retract(&prep).unwrap();
    assert_eq!(l.size(View::Prepare), 0);

    let del = PrepareOp::Delete(vec![Delete { id: id(9, 9), count: 1 }]);
    assert_eq!(l.prepare_advance(&del), Err(PrepareError::NodeNotFound));

    l.prepare_advance(&prep).unwrap();
    assert_eq!(l.prepare_advance(&prep), Err(PrepareError::InvalidState));
    assert_eq!(l.size(View::Prepare), 2);
}

struct XorShift(u64);

impl XorShift {
    fn next(&mut self) -> u64 {
        let mut x = self.0;
        x ^= x << 13;
        x ^= x >> 7;
        x ^= x << 17;
        self.0 = x;
        x
    }

    /// A number in `lo..hi` (`hi > lo`).
    fn range(&mut self, lo: usize, hi: usize) -> usize {
        lo + (self.next() % ((hi - lo) as u64)) as usize
    }
}

#[test]
fn sim_test() {
    const NUM_PEERS: usize = 5;
    const ROUNDS: usize = 200;
    let alphabet: Vec<char> = "abcdefghijklmnopqrstuvwxyzABCDEFGHIJKLMNOPQRSTUVWXYZ0123456789".chars().collect();
    let mut rng = XorShift(0x9e37_79b9_7f4a_7c15);
    let mut lists: Vec<List<char>> = (0..NUM_PEERS).map(|_| List::new()).collect();
    let mut oplog: Vec<Vec<(ElementId, Op<char>)>> = (0..NUM_PEERS).map(|_| Vec::new()).collect();
    let mut frontiers = [[0usize; NUM_PEERS]; NUM_PEERS];
    for _ in 0..ROUNDS {
        let peer = rng.range(0, NUM_PEERS);
        let size = lists[peer].size(View::Effect);
        let offset = if size == 0 { 0 } else { rng.range(0, size) };
        let content_size = rng.range(0, 16);
        let content: Vec<char> = (0..content_size).map(|_| alphabet[rng.range(0, alphabet.len())]).collect();
        let op_idx = oplog[peer].len();
        let op_id = id(peer as u64, op_idx as u64);
        let op = insert_at(&mut lists[peer], op_id, offset, &content.iter().collect::<String>());
        oplog[peer].push((op_id, op));
        frontiers[peer][peer] = op_idx + 1;

        for i in 0..NUM_PEERS {
            for j in 0..NUM_PEERS {
                if i == j {
                    continue;
                }
                let cur_read_size = frontiers[i][j];
                let available_size = oplog[j].len();
                if cur_read_size == available_size {
                    continue;
                }
                let new_read_size = rng.range(cur_read_size, available_size + 1);
                for (op_id, op) in oplog[j][cur_read_size..new_read_size].iter() {
                    lists[i].apply_op(*op_id, copy_op(op)).unwrap();
                }
                frontiers[i][j] = new_read_size;
            }
        }
    }

    for i in 0..NUM_PEERS {
        for j in 0..NUM_PEERS {
            if i == j {
                continue;
            }
            let cur_read_size = frontiers[i][j];
            for (op_id, op) in oplog[j][cur_read_size..].iter() {
                lists[i].apply_op(*op_id, copy_op(op)).unwrap();
            }
        }
    }

    let strings: Vec<String> = lists.iter().map(text).collect();
    for i in 1..NUM_PEERS {
        assert_eq!(strings[0], strings[i]);
    }
}

#[test]
fn concurrent_deletes_commute() {
    let mut base: List<char> = List::new();
    let ins = insert_at(&mut base, id(1, 0), 0, "abcdef");
    let d1 = base.create_delete(View::Effect, 1, 2).unwrap();
    let d2 = base.create_delete(View::Effect, 2, 3).unwrap();

    let mut a: List<char> = List::new();
    a.apply_op(id(1, 0), copy_op(&ins)).unwrap();
    a.apply_op(id(1, 1), Op::Delete(d1.clone())).unwrap();
    a.apply_op(id(2, 0), Op::Delete(d2.clone())).unwrap();

    let mut b: List<char> = List::new();
    b.apply_op(id(1, 0), copy_op(&ins)).unwrap();
    b.apply_op(id(2, 0), Op::Delete(d2)).unwrap();
    b.apply_op(id(1, 1), Op::Delete(d1)).unwrap();

    assert_eq!(text(&a), "af");
    assert_eq!(text(&a), text(&b));
}

#[test]
fn deletes_shrink_the_effect_view_once() {
    let mut l: List<char> = List::new();
    insert_at(&mut l, id(1, 0), 0, "abcd");
    let ds = l.create_delete(View::Effect, 1, 2).unwrap();
    let again = ds.clone();
    l.apply_op(id(1, 1), Op::Delete(ds)).unwrap();
    assert_eq!(text(&l), "ad");
    assert_eq!(l.size(View::Effect), 2);
    // The same deletes a second time remove nothing more.
    l.apply_op(id(1, 2), Op::Delete(again)).unwrap();
    assert_eq!(text(&l), "ad");
    assert_eq!(l.size(View::Effect), 2);
    // A delete of an id the list does not hold changes nothing shown.
    l.apply_op(id(1, 3), Op::Delete(vec![Delete { id: id(7, 7), count: 1 }])).unwrap();
    assert_eq!(l.size(View::Effect), 2);
}

#[test]
fn early_delete_keeps_its_element_hidden() {
    let mut a: List<char> = List::new();
    let ins = insert_at(&mut a, id(2, 0), 0, "pq");
    let mut b: List<char> = List::new();
    b.apply_op(id(2, 1), Op::Delete(vec![Delete { id: id(2, 0), count: 1 }])).unwrap();
    b.apply_op(id(2, 0), ins).unwrap();
    assert_eq!(text(&b), "q");
    assert_eq!(b.size(View::Effect), 1);
}

#[test]
fn retract_restores_the_prepare_view() {
    let mut l: List<char> = List::new();
    let ins = l.create_insert(View::Effect, 0, vec!['m', 'n']).unwrap();
    let prep = l.apply_op(id(3, 0), Op::Insert(ins)).unwrap();
    l.prepare_advance(&prep).unwrap();
    let ds = l.create_delete(View::Prepare, 0, 1).unwrap();
    let del = l.apply_op(id(3, 1), Op::Delete(ds)).unwrap();
    let before: String = l.iter_prepare().into_iter().copied().collect();
    let size = l.size(View::Prepare);
    l.prepare_advance(&del).unwrap();
    assert_eq!(l.iter_prepare().into_iter().copied().collect::<String>(), "n");
    l.prepare_retract(&del).unwrap();
    assert_eq!(l.iter_prepare().into_iter().copied().collect::<String>(), before);
    assert_eq!(l.size(View::Prepare), size);
    assert_eq!(text(&l), "n");
}

#[test]
fn stacked_deletes_hide_until_all_retract() {
    let mut l: List<char> = List::new();
    let ins = l.create_insert(View::Effect, 0, vec!['x']).unwrap();
    let prep = l.apply_op(id(4, 0), Op::Insert(ins)).unwrap();
    l.prepare_advance(&prep).unwrap();
    let d = PrepareOp::Delete(vec![Delete { id: id(4, 0), count: 1 }]);
    l.prepare_advance(&d).unwrap();
    l.prepare_advance(&d).unwrap();
    assert_eq!(l.size(View::Prepare), 0);
    l.prepare_retract(&d).unwrap();
    assert_eq!(l.size(View::Prepare), 0);
    assert!(l.iter_prepare().is_empty());
    l.prepare_retract(&d).unwrap();
    assert_eq!(l.size(View::Prepare), 1);
    assert_eq!(l.iter_prepare().into_iter().copied().collect::<String>(), "x");
    assert_eq!(l.prepare_retract(&d), Err(PrepareError::InvalidState));
}

#[test]
fn late_parent_takes_its_waiting_child() {
    let a = id(0, 0);
    let b = id(1, 0);
    let mut l: List<char> = List::new();
    l.apply_op(b, Op::Insert(Insert { parent: Parent::Node { id: a, side: Side::Right }, right_origin: None, content: vec!['b'] }))
        .unwrap();
    assert_eq!(l.size(View::Effect), 0);
    l.apply_op(a, Op::Insert(Insert { parent: Parent::Root, right_origin: None, content: vec!['a'] })).unwrap();
    assert_eq!(l.size(View::Effect), 2);
    assert_eq!(text(&l), "ab");
    assert_eq!(l.size(View::Prepare), 0);
}

fn root_run(s: &str) -> Op<char> {
    Op::Insert(Insert { parent: Parent::Root, right_origin: None, content: s.chars().collect() })
}

#[test]
fn root_runs_order_by_id_in_either_order() {
    let mut a: List<char> = List::new();
    a.apply_op(id(2, 0), root_run("xy")).unwrap();
    a.apply_op(id(1, 0), root_run("ab")).unwrap();
    let mut b: List<char> = List::new();
    b.apply_op(id(1, 0), root_run("ab")).unwrap();
    b.apply_op(id(2, 0), root_run("xy")).unwrap();
    assert_eq!(text(&a), "abxy");
    assert_eq!(text(&b), "abxy");
}

#[test]
fn siblings_under_one_parent_order_by_id() {
    let mut base: Vec<List<char>> = vec![List::new(), List::new()];
    for l in base.iter_mut() {
        l.apply_op(id(1, 0), root_run("p")).unwrap();
    }
    let under = |s: &str| Op::Insert(Insert {
        parent: Parent::Node { id: id(1, 0), side: Side::Right },
        right_origin: None,
        content: s.chars().collect(),
    });
    base[0].apply_op(id(3, 0), under("c")).unwrap();
    base[0].apply_op(id(2, 0), under("b")).unwrap();
    base[1].apply_op(id(2, 0), under("b")).unwrap();
    base[1].apply_op(id(3, 0), under("c")).unwrap();
    assert_eq!(text(&base[0]), text(&base[1]));
    assert_eq!(text(&base[0]), "pbc");
    assert_eq!(base[0].size(View::Effect), 3);
}
