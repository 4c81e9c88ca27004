//! Last-writer-wins registers and maps. A register keeps the write with the
//! greatest timestamp; writes with equal timestamps are ordered by their bytes,
//! so replicas that saw the same writes, in any order, hold the same value.

use vstd::prelude::*;

verus! {

/// The lexicographic order on byte strings (a proper prefix comes first).
pub open spec fn bytes_lt(a: Seq<u8>, b: Seq<u8>) -> bool
    decreases a.len(),
{
    if a.len() == 0 {
        b.len() > 0
    } else if b.len() == 0 {
        false
    } else if a[0] != b[0] {
        a[0] < b[0]
    } else {
        bytes_lt(a.skip(1), b.skip(1))
    }
}

/// The order on optional byte strings: absence first, then by bytes.
pub open spec fn opt_bytes_lt(a: Option<Seq<u8>>, b: Option<Seq<u8>>) -> bool {
    match (a, b) {
        (None, Some(_)) => true,
        (Some(x), Some(y)) => bytes_lt(x, y),
        _ => false,
    }
}

/// The lexicographic order on byte strings is a strict total order.
pub proof fn lemma_bytes_lt_order(a: Seq<u8>, b: Seq<u8>, c: Seq<u8>)
    ensures
        !bytes_lt(a, a),
        bytes_lt(a, b) ==> !bytes_lt(b, a),
        bytes_lt(a, b) && bytes_lt(b, c) ==> bytes_lt(a, c),
        a != b ==> bytes_lt(a, b) || bytes_lt(b, a),
    decreases a.len(),
{
    if a.len() > 0 && b.len() > 0 && c.len() > 0 {
        lemma_bytes_lt_order(a.skip(1), b.skip(1), c.skip(1));
    }
    if a.len() > 0 && b.len() > 0 {
        lemma_bytes_lt_order(a.skip(1), b.skip(1), b.skip(1));
        if a != b && a[0] == b[0] {
            assert(a =~= seq![a[0]] + a.skip(1));
            assert(b =~= seq![b[0]] + b.skip(1));
        }
    }
    if a.len() > 0 {
        lemma_bytes_lt_order(a.skip(1), a.skip(1), a.skip(1));
    }
    if a.len() == 0 && b.len() == 0 {
        assert(a =~= b);
    }
}

/// The order on optional byte strings is a strict total order.
pub proof fn lemma_opt_bytes_lt_order(a: Option<Seq<u8>>, b: Option<Seq<u8>>, c: Option<Seq<u8>>)
    ensures
        !opt_bytes_lt(a, a),
        opt_bytes_lt(a, b) ==> !opt_bytes_lt(b, a),
        opt_bytes_lt(a, b) && opt_bytes_lt(b, c) ==> opt_bytes_lt(a, c),
        a != b ==> opt_bytes_lt(a, b) || opt_bytes_lt(b, a),
{
    let x = match a { Some(s) => s, None => Seq::empty() };
    let y = match b { Some(s) => s, None => Seq::empty() };
    let z = match c { Some(s) => s, None => Seq::empty() };
    lemma_bytes_lt_order(x, y, z);
}

/// Whether `a` orders before `b` in the byte order.
fn bytes_less(a: &[u8], b: &[u8]) -> (r: bool)
    ensures
        r == bytes_lt(a@, b@),
{
    let mut i: usize = 0;
    proof {
        assert(a@.skip(0) =~= a@);
        assert(b@.skip(0) =~= b@);
    }
    while i < a.len() && i < b.len()
        invariant
            i <= a@.len(),
            i <= b@.len(),
            bytes_lt(a@, b@) == bytes_lt(a@.skip(i as int), b@.skip(i as int)),
        decreases a@.len() - i,
    {
        if a[i] != b[i] {
            proof {
                assert(a@.skip(i as int)[0] == a@[i as int]);
                assert(b@.skip(i as int)[0] == b@[i as int]);
            }
            return a[i] < b[i];
        }
        proof {
            assert(a@.skip(i as int).skip(1) =~= a@.skip(i as int + 1));
            assert(b@.skip(i as int).skip(1) =~= b@.skip(i as int + 1));
        }
        i += 1;
    }
    i == a.len() && i < b.len()
}

/// A register's state: the timestamp and the bytes of its winning write.
pub type RegisterState = (u64, Seq<u8>);

/// The state after a write: the greater of the state and the write, by
/// timestamp and then by bytes.
pub open spec fn merge(s: RegisterState, w: RegisterState) -> RegisterState {
    if s.0 < w.0 || (s.0 == w.0 && bytes_lt(s.1, w.1)) {
        w
    } else {
        s
    }
}

/// A register that keeps its last write by timestamp, ties broken by bytes.
pub struct LwwRegister {
    timestamp: u64,
    value: Vec<u8>,
}

impl View for LwwRegister {
    type V = RegisterState;

    closed spec fn view(&self) -> RegisterState {
        (self.timestamp, self.value@)
    }
}

impl Default for LwwRegister {
    /// The empty register: timestamp 0, no bytes.
    fn default() -> (r: Self)
        ensures
            r@ == (0u64, Seq::<u8>::empty()),
    {
        LwwRegister::new()
    }
}

impl LwwRegister {
    /// The empty register: timestamp 0, no bytes.
    pub fn new() -> (r: Self)
        ensures
            r@ == (0u64, Seq::<u8>::empty()),
    {
        LwwRegister { timestamp: 0, value: Vec::new() }
    }

    /// Applies a write: it wins if its timestamp is later, or equal with
    /// greater bytes.
    pub fn apply(&mut self, timestamp: u64, value: Vec<u8>)
        ensures
            final(self)@ == merge(old(self)@, (timestamp, value@)),
    {
        if self.timestamp < timestamp {
            self.timestamp = timestamp;
            self.value = value;
        } else if self.timestamp == timestamp {
            if bytes_less(self.value.as_slice(), value.as_slice()) {
                self.value = value;
            }
        }
    }

    /// The timestamp of the winning write.
    pub fn timestamp(&self) -> (t: u64)
        ensures
            t == self@.0,
    {
        self.timestamp
    }

    /// The bytes of the winning write.
    pub fn get(&self) -> (v: &Vec<u8>)
        ensures
            v@ == self@.1,
    {
        &self.value
    }
}

/// Writes commute: two registers that took the same two writes in either
/// order hold the same state.
pub proof fn law_register_writes_commute(s: RegisterState, a: RegisterState, b: RegisterState)
    ensures
        merge(merge(s, a), b) == merge(merge(s, b), a),
{
    lemma_bytes_lt_order(s.1, a.1, b.1);
    lemma_bytes_lt_order(s.1, b.1, a.1);
    lemma_bytes_lt_order(a.1, b.1, s.1);
    lemma_bytes_lt_order(a.1, s.1, b.1);
    lemma_bytes_lt_order(b.1, a.1, s.1);
    lemma_bytes_lt_order(b.1, s.1, a.1);
}

/// A write applied twice counts once.
pub proof fn law_register_write_idempotent(s: RegisterState, a: RegisterState)
    ensures
        merge(merge(s, a), a) == merge(s, a),
{
    lemma_bytes_lt_order(s.1, a.1, s.1);
    lemma_bytes_lt_order(a.1, s.1, a.1);
}

/// A map entry's register: the timestamp and the winning write, absent for a
/// removal.
pub type EntryState = (u64, Option<Seq<u8>>);

/// The entry after a write: the greater of the two, by timestamp and then by
/// value, a removal ordering before any value.
pub open spec fn merge_entry(s: EntryState, w: EntryState) -> EntryState {
    if s.0 < w.0 || (s.0 == w.0 && opt_bytes_lt(s.1, w.1)) {
        w
    } else {
        s
    }
}

/// An edit of a map.
pub enum Op {
    Insert(u64, Vec<u8>),
    Remove(u64),
}

/// The key of an edit and what it writes.
pub open spec fn op_write(op: Op) -> (u64, Option<Seq<u8>>) {
    match op {
        Op::Insert(k, v) => (k, Some(v@)),
        Op::Remove(k) => (k, None),
    }
}

/// The entries of a map after an edit at `timestamp`: the edited key's entry
/// (a fresh one starts at timestamp 0 with no value) merged with the write.
pub open spec fn map_after(m: Map<u64, EntryState>, timestamp: u64, op: Op) -> Map<u64, EntryState> {
    let (k, w) = op_write(op);
    let cur = if m.dom().contains(k) { m[k] } else { (0u64, None::<Seq<u8>>) };
    m.insert(k, merge_entry(cur, (timestamp, w)))
}

/// Each key of the map that has a value, with that value.
pub open spec fn present(m: Map<u64, EntryState>) -> Map<u64, Seq<u8>> {
    Map::new(|k: u64| m.dom().contains(k) && m[k].1 is Some, |k: u64| m[k].1->0)
}

/// Whether `ks` lists the keys of `p`, each once.
pub open spec fn lists(p: Map<u64, Seq<u8>>, ks: Seq<u64>) -> bool {
    &&& forall|a: int, b: int| 0 <= a < b < ks.len() ==> ks[a] != ks[b]
    &&& forall|a: int| 0 <= a < ks.len() ==> p.dom().contains(#[trigger] ks[a])
    &&& forall|k: u64| p.dom().contains(k) ==> ks.contains(k)
}

/// A map whose entries are last-writer-wins registers: a key's value is its
/// last write by timestamp; a removal is a write of no value.
pub struct LwwMap {
    entries: Vec<(u64, u64, Option<Vec<u8>>)>,
}

/// The register state of each key.
pub open spec fn entries_map(es: Seq<(u64, u64, Option<Vec<u8>>)>) -> Map<u64, EntryState>
    decreases es.len(),
{
    if es.len() == 0 {
        Map::empty()
    } else {
        let e = es.last();
        entries_map(es.drop_last()).insert(
            e.0,
            (e.1, match e.2 { Some(v) => Some(v@), None => None }),
        )
    }
}

/// No key has two entries.
pub open spec fn keys_distinct(es: Seq<(u64, u64, Option<Vec<u8>>)>) -> bool {
    forall|i: int, j: int| 0 <= i < j < es.len() ==> es[i].0 != es[j].0
}

proof fn lemma_entries_map_at(es: Seq<(u64, u64, Option<Vec<u8>>)>, i: int)
    requires
        keys_distinct(es),
        0 <= i < es.len(),
    ensures
        entries_map(es).dom().contains(es[i].0),
        entries_map(es)[es[i].0] == (es[i].1, match es[i].2 { Some(v) => Some(v@), None => None::<Seq<u8>> }),
    decreases es.len(),
{
    if i < es.len() - 1 {
        lemma_entries_map_at(es.drop_last(), i);
    }
}

proof fn lemma_entries_map_dom(es: Seq<(u64, u64, Option<Vec<u8>>)>, k: u64)
    ensures
        entries_map(es).dom().contains(k) <==> exists|i: int| 0 <= i < es.len() && es[i].0 == k,
    decreases es.len(),
{
    if es.len() > 0 {
        lemma_entries_map_dom(es.drop_last(), k);
        if entries_map(es.drop_last()).dom().contains(k) {
            let i = choose|i: int| 0 <= i < es.drop_last().len() && es.drop_last()[i].0 == k;
            assert(es[i].0 == k);
        }
        if exists|i: int| 0 <= i < es.len() && es[i].0 == k {
            let i = choose|i: int| 0 <= i < es.len() && es[i].0 == k;
            if i < es.len() - 1 {
                assert(es.drop_last()[i].0 == k);
            }
        }
    }
}

impl View for LwwMap {
    type V = Map<u64, EntryState>;

    closed spec fn view(&self) -> Map<u64, EntryState> {
        entries_map(self.entries@)
    }
}

impl Default for LwwMap {
    /// The empty map.
    fn default() -> (m: Self)
        ensures
            m.wf(),
            m@ == Map::<u64, EntryState>::empty(),
    {
        LwwMap::new()
    }
}

impl LwwMap {
    /// The entries hold each key once.
    pub closed spec fn wf(&self) -> bool {
        keys_distinct(self.entries@)
    }

    /// The empty map.
    pub fn new() -> (m: Self)
        ensures
            m.wf(),
            m@ == Map::<u64, EntryState>::empty(),
    {
        LwwMap { entries: Vec::new() }
    }

    fn find(&self, key: u64) -> (r: Option<usize>)
        requires
            self.wf(),
        ensures
            match r {
                Some(i) => i < self.entries@.len() && self.entries@[i as int].0 == key,
                None => forall|i: int| 0 <= i < self.entries@.len() ==> self.entries@[i].0 != key,
            },
    {
        let mut i: usize = 0;
        while i < self.entries.len()
            invariant
                i <= self.entries@.len(),
                forall|j: int| 0 <= j < i ==> self.entries@[j].0 != key,
            decreases self.entries@.len() - i,
        {
            if self.entries[i].0 == key {
                return Some(i);
            }
            i += 1;
        }
        None
    }

    /// Applies an edit made at `timestamp` to its key's register.
    pub fn apply(&mut self, timestamp: u64, op: Op)
        requires
            old(self).wf(),
        ensures
            final(self).wf(),
            final(self)@ == map_after(old(self)@, timestamp, op),
    {
        let ghost w = op_write(op);
        let (key, value) = match op {
            Op::Insert(k, v) => (k, Some(v)),
            Op::Remove(k) => (k, None),
        };
        proof {
            lemma_entries_map_dom(self.entries@, key);
        }
        match self.find(key) {
            Some(i) => {
                let ghost before = self.entries@;
                proof {
                    lemma_entries_map_at(before, i as int);
                }
                let (_, ts, old_value) = self.entries.remove(i);
                let ghost mid = self.entries@;
                let wins = ts < timestamp || (ts == timestamp && opt_less(&old_value, &value));
                let entry = if wins { (key, timestamp, value) } else { (key, ts, old_value) };
                self.entries.push(entry);
                proof {
                    let after = self.entries@;
                    assert(mid == before.remove(i as int));
                    assert(after.drop_last() =~= mid);
                    assert forall|a: int, b: int| 0 <= a < b < after.len() implies after[a].0 != after[b].0 by {
                        if b == after.len() - 1 {
                            if a >= i {
                                assert(after[a] == before[a + 1]);
                            } else {
                                assert(after[a] == before[a]);
                            }
                        } else {
                            let a0 = if a >= i { a + 1 } else { a };
                            let b0 = if b >= i { b + 1 } else { b };
                            assert(after[a] == before[a0]);
                            assert(after[b] == before[b0]);
                        }
                    }
                    lemma_map_replace(before, i as int, after);
                }
            },
            None => {
                let ghost before = self.entries@;
                self.entries.push((key, timestamp, value));
                proof {
                    let after = self.entries@;
                    assert(after.drop_last() == before);
                    assert forall|a: int, b: int| 0 <= a < b < after.len() implies after[a].0 != after[b].0 by {
                        if b < after.len() - 1 {
                            assert(after[a] == before[a] && after[b] == before[b]);
                        } else {
                            assert(after[a] == before[a]);
                        }
                    }
                    assert(!entries_map(before).dom().contains(key));
                    assert(entries_map(after) == entries_map(before).insert(key, (timestamp, w.1)));
                }
            },
        }
    }

    /// The value of `key`, if it has one (absent after a winning removal).
    pub fn get(&self, key: u64) -> (r: Option<&Vec<u8>>)
        requires
            self.wf(),
        ensures
            match r {
                Some(v) => self@.dom().contains(key) && self@[key].1 == Some(v@),
                None => !self@.dom().contains(key) || self@[key].1 is None,
            },
    {
        proof {
            lemma_entries_map_dom(self.entries@, key);
        }
        match self.find(key) {
            Some(i) => {
                proof {
                    lemma_entries_map_at(self.entries@, i as int);
                }
                match &self.entries[i].2 {
                    Some(v) => Some(v),
                    None => None,
                }
            },
            None => None,
        }
    }

    /// Each key that has a value, with that value, in no particular order.
    pub fn iter(&self) -> (r: Vec<(u64, &Vec<u8>)>)
        requires
            self.wf(),
        ensures
            lists(present(self@), r@.map_values(|e: (u64, &Vec<u8>)| e.0)),
            forall|i: int| 0 <= i < r@.len() ==> present(self@)[(#[trigger] r@[i]).0] == r@[i].1@,
    {
        let ghost es = self.entries@;
        let mut r: Vec<(u64, &Vec<u8>)> = Vec::new();
        let mut i: usize = 0;
        while i < self.entries.len()
            invariant
                es == self.entries@,
                keys_distinct(es),
                i <= es.len(),
                forall|m: int| 0 <= m < r@.len() ==> exists|j: int| 0 <= j < i && es[j].0 == (#[trigger] r@[m]).0
                    && es[j].2 == Some(*r@[m].1),
                forall|j: int| 0 <= j < i && (#[trigger] es[j]).2 is Some ==> exists|m: int| 0 <= m < r@.len()
                    && r@[m].0 == es[j].0,
                forall|a: int, b: int| 0 <= a < b < r@.len() ==> r@[a].0 != r@[b].0,
            decreases es.len() - i,
        {
            let ghost r0 = r@;
            match &self.entries[i].2 {
                Some(v) => {
                    r.push((self.entries[i].0, v));
                    proof {
                        assert forall|m: int| 0 <= m < r@.len() implies exists|j: int| 0 <= j < i + 1
                            && es[j].0 == (#[trigger] r@[m]).0 && es[j].2 == Some(*r@[m].1) by {
                            if m < r0.len() {
                                assert(r@[m] == r0[m]);
                            } else {
                                assert(es[i as int].0 == r@[m].0);
                            }
                        }
                        assert forall|j: int| 0 <= j < i + 1 && (#[trigger] es[j]).2 is Some implies exists|m: int|
                            0 <= m < r@.len() && r@[m].0 == es[j].0 by {
                            if j < i {
                                let m = choose|m: int| 0 <= m < r0.len() && r0[m].0 == es[j].0;
                                assert(r@[m] == r0[m]);
                            } else {
                                assert(r@[r0.len() as int].0 == es[j].0);
                            }
                        }
                        assert forall|a: int, b: int| 0 <= a < b < r@.len() implies r@[a].0 != r@[b].0 by {
                            if b == r0.len() {
                                assert(r@[a] == r0[a]);
                                let j = choose|j: int| 0 <= j < i && es[j].0 == r0[a].0 && es[j].2 == Some(*r0[a].1);
                            } else {
                                assert(r@[a] == r0[a] && r@[b] == r0[b]);
                            }
                        }
                    }
                },
                None => {},
            }
            i += 1;
        }
        proof {
            let ks = r@.map_values(|e: (u64, &Vec<u8>)| e.0);
            assert forall|m: int| 0 <= m < r@.len() implies present(self@).dom().contains((#[trigger] r@[m]).0)
                && present(self@)[r@[m].0] == r@[m].1@ by {
                let j = choose|j: int| 0 <= j < es.len() && es[j].0 == r@[m].0 && es[j].2 == Some(*r@[m].1);
                lemma_entries_map_at(es, j);
            }
            assert forall|k: u64| present(self@).dom().contains(k) implies ks.contains(k) by {
                lemma_entries_map_dom(es, k);
                let j = choose|j: int| 0 <= j < es.len() && es[j].0 == k;
                lemma_entries_map_at(es, j);
                let m = choose|m: int| 0 <= m < r@.len() && r@[m].0 == es[j].0;
                assert(ks[m] == k);
            }
            assert forall|a: int, b: int| 0 <= a < b < ks.len() implies ks[a] != ks[b] by {
                assert(r@[a].0 != r@[b].0);
            }
            assert forall|a: int| 0 <= a < ks.len() implies present(self@).dom().contains(#[trigger] ks[a]) by {
                assert(present(self@).dom().contains(r@[a].0));
            }
        }
        r
    }

    /// Each key that has a value, in no particular order.
    pub fn keys(&self) -> (r: Vec<u64>)
        requires
            self.wf(),
        ensures
            lists(present(self@), r@),
    {
        let entries = self.iter();
        let ghost ks = entries@.map_values(|e: (u64, &Vec<u8>)| e.0);
        let mut r: Vec<u64> = Vec::new();
        let mut i: usize = 0;
        while i < entries.len()
            invariant
                i <= entries@.len(),
                ks == entries@.map_values(|e: (u64, &Vec<u8>)| e.0),
                r@ == ks.take(i as int),
            decreases entries@.len() - i,
        {
            r.push(entries[i].0);
            proof {
                assert(ks.take(i as int + 1) =~= ks.take(i as int).push(ks[i as int]));
            }
            i += 1;
        }
        proof {
            assert(ks.take(entries@.len() as int) =~= ks);
        }
        r
    }

    /// The value of each key that has one, in no particular order: the
    /// values of some listing of those keys, one for one.
    pub fn values(&self) -> (r: Vec<&Vec<u8>>)
        requires
            self.wf(),
        ensures
            exists|ks: Seq<u64>| #[trigger] lists(present(self@), ks) && ks.len() == r@.len()
                && forall|i: int| 0 <= i < ks.len() ==> present(self@)[ks[i]] == (#[trigger] r@[i])@,
    {
        let entries = self.iter();
        let ghost ks = entries@.map_values(|e: (u64, &Vec<u8>)| e.0);
        let mut r: Vec<&Vec<u8>> = Vec::new();
        let mut i: usize = 0;
        while i < entries.len()
            invariant
                i <= entries@.len(),
                r@.len() == i,
                forall|j: int| 0 <= j < i ==> (#[trigger] r@[j]) == entries@[j].1,
            decreases entries@.len() - i,
        {
            r.push(entries[i].1);
            i += 1;
        }
        proof {
            assert forall|j: int| 0 <= j < ks.len() implies present(self@)[ks[j]] == (#[trigger] r@[j])@ by {
                assert(ks[j] == entries@[j].0);
                assert(present(self@)[entries@[j].0] == entries@[j].1@);
            }
            assert(lists(present(self@), ks));
        }
        r
    }
}

/// Whether `a` orders before `b`: absence first, then by bytes.
fn opt_less(a: &Option<Vec<u8>>, b: &Option<Vec<u8>>) -> (r: bool)
    ensures
        r == opt_bytes_lt(
            match a { Some(v) => Some(v@), None => None::<Seq<u8>> },
            match b { Some(v) => Some(v@), None => None::<Seq<u8>> },
        ),
{
    match (a, b) {
        (None, Some(_)) => true,
        (Some(x), Some(y)) => bytes_less(x.as_slice(), y.as_slice()),
        _ => false,
    }
}

/// Moving the entry at `i` to the end, with a new state, changes only that
/// key's state.
proof fn lemma_map_replace(
    before: Seq<(u64, u64, Option<Vec<u8>>)>,
    i: int,
    after: Seq<(u64, u64, Option<Vec<u8>>)>,
)
    requires
        keys_distinct(before),
        keys_distinct(after),
        0 <= i < before.len(),
        after.len() == before.len(),
        after.drop_last() == before.remove(i),
        after.last().0 == before[i].0,
    ensures
        entries_map(after) == entries_map(before).insert(
            after.last().0,
            (after.last().1, match after.last().2 { Some(v) => Some(v@), None => None::<Seq<u8>> }),
        ),
{
    let k = before[i].0;
    let m0 = entries_map(before);
    let m1 = entries_map(after);
    let rest = after.drop_last();
    assert forall|j: int, l: int| 0 <= j < l < rest.len() implies rest[j].0 != rest[l].0 by {
        assert(rest[j] == after[j] && rest[l] == after[l]);
    }
    assert forall|key: u64| #[trigger] m1.dom().contains(key) <==> m0.insert(k, m1[k]).dom().contains(key) by {
        lemma_entries_map_dom(after, key);
        lemma_entries_map_dom(before, key);
        if exists|j: int| 0 <= j < before.len() && before[j].0 == key {
            let j = choose|j: int| 0 <= j < before.len() && before[j].0 == key;
            if j != i {
                let j1 = if j > i { j - 1 } else { j };
                assert(before.remove(i)[j1] == before[j]);
                assert(after.drop_last()[j1] == after[j1]);
                assert(after[j1] == before[j]);
            }
        }
        if exists|j: int| 0 <= j < after.len() && after[j].0 == key {
            let j = choose|j: int| 0 <= j < after.len() && after[j].0 == key;
            if j < after.len() - 1 {
                let j0 = if j >= i { j + 1 } else { j };
                assert(before.remove(i)[j] == before[j0]);
                assert(after.drop_last()[j] == after[j]);
                assert(before[j0] == after[j]);
            }
        }
    }
    assert forall|key: u64| #[trigger] m1.dom().contains(key) implies m1[key] == m0.insert(k, m1[k])[key] by {
        lemma_entries_map_dom(after, key);
        let j = choose|j: int| 0 <= j < after.len() && after[j].0 == key;
        lemma_entries_map_at(after, j);
        if key != k {
            let j0 = if j >= i { j + 1 } else { j };
            assert(j < after.len() - 1);
            assert(before.remove(i)[j] == before[j0]);
            assert(after.drop_last()[j] == after[j]);
            assert(before[j0] == after[j]);
            lemma_entries_map_at(before, j0);
        }
    }
    lemma_entries_map_at(after, after.len() - 1);
    assert(m1 =~= m0.insert(k, m1[k]));
}

/// Edits commute: two maps that took the same two edits in either order hold
/// the same entries.
pub proof fn law_map_edits_commute(m: Map<u64, EntryState>, t1: u64, a: Op, t2: u64, b: Op)
    ensures
        map_after(map_after(m, t1, a), t2, b) == map_after(map_after(m, t2, b), t1, a),
{
    let (ka, wa) = op_write(a);
    let (kb, wb) = op_write(b);
    if ka == kb {
        let cur = if m.dom().contains(ka) { m[ka] } else { (0u64, None::<Seq<u8>>) };
        lemma_entry_writes_commute(cur, (t1, wa), (t2, wb));
        assert(map_after(map_after(m, t1, a), t2, b) =~= map_after(map_after(m, t2, b), t1, a));
    } else {
        assert(map_after(map_after(m, t1, a), t2, b) =~= map_after(map_after(m, t2, b), t1, a));
    }
}

/// An edit applied twice counts once.
pub proof fn law_map_edit_idempotent(m: Map<u64, EntryState>, t: u64, a: Op)
    ensures
        map_after(map_after(m, t, a), t, a) == map_after(m, t, a),
{
    let (k, w) = op_write(a);
    let cur = if m.dom().contains(k) { m[k] } else { (0u64, None::<Seq<u8>>) };
    lemma_opt_bytes_lt_order(cur.1, w, cur.1);
    lemma_opt_bytes_lt_order(w, cur.1, w);
    assert(map_after(map_after(m, t, a), t, a) =~= map_after(m, t, a));
}

proof fn lemma_entry_writes_commute(s: EntryState, a: EntryState, b: EntryState)
    ensures
        merge_entry(merge_entry(s, a), b) == merge_entry(merge_entry(s, b), a),
{
    lemma_opt_bytes_lt_order(s.1, a.1, b.1);
    lemma_opt_bytes_lt_order(s.1, b.1, a.1);
    lemma_opt_bytes_lt_order(a.1, b.1, s.1);
    lemma_opt_bytes_lt_order(a.1, s.1, b.1);
    lemma_opt_bytes_lt_order(b.1, a.1, s.1);
    lemma_opt_bytes_lt_order(b.1, s.1, a.1);
}

} // verus!
