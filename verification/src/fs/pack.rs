//! Pack files: their names, the references between them, and which of them a
//! reader still has to inspect after a directory listing.

use vstd::prelude::*;
use vstd::string::StrSliceExecFns;
use vstd::string::StringExecFns;
use std::ops::Range;

verus! {

/// A reference to a pack: its random id and the end of its sequence range.
#[derive(Debug, Clone, Copy, PartialEq, Eq, Hash, Structural)]
pub struct PackRef {
    pub id: u64,
    pub end_seq: u64,
}

/// The parts of a pack file's name.
#[derive(Debug)]
pub struct PackFileName {
    pub seqs: Range<u64>,
    pub id: u64,
    pub generation: u64,
}

/// A pack that could not be read yet because some of its parents are missing.
#[derive(Debug)]
pub struct BlockedPackRef {
    pub file: PackFileName,
    pub parents: Vec<PackRef>,
    pub read_timestamps: Range<u64>,
    pub retries: u64,
}

/// What a reader remembers between directory listings.
#[derive(Debug)]
pub struct PackReadState {
    /// The packs already inspected, directly or in a prior generation; each once.
    pub consumed: Vec<PackRef>,
    pub blocked: Vec<BlockedPackRef>,
}

/// The outcome of a directory listing: the state to keep and the files to
/// inspect, in order of the end of their sequence range.
#[derive(Debug)]
pub struct PackReadResult {
    pub new_state: PackReadState,
    pub to_read: Vec<PackFileName>,
}

/// The sixteen lower-case hexadecimal digits.
pub open spec fn hex_alphabet() -> Seq<char> {
    "0123456789abcdef"@
}

/// The lower-case hexadecimal representation of `n`, without leading zeros.
pub open spec fn hex(n: nat) -> Seq<char>
    decreases n,
{
    if n < 16 {
        seq![hex_alphabet()[n as int]]
    } else {
        hex(n / 16).push(hex_alphabet()[(n % 16) as int])
    }
}

/// `s` left-padded with zeros to at least `w` characters.
pub open spec fn zero_padded(s: Seq<char>, w: nat) -> Seq<char> {
    if s.len() >= w {
        s
    } else {
        Seq::new((w - s.len()) as nat, |i: int| '0') + s
    }
}

/// The name of a pack file: the start and end of its sequence range (at least
/// four hex digits each), its id (sixteen) and its generation (at least two),
/// separated by dashes.
pub open spec fn pack_name_spec(f: PackFileName) -> Seq<char> {
    zero_padded(hex(f.seqs.start as nat), 4) + seq!['-'] + zero_padded(hex(f.seqs.end as nat), 4)
        + seq!['-'] + zero_padded(hex(f.id as nat), 16) + seq!['-'] + zero_padded(
        hex(f.generation as nat),
        2,
    )
}

/// The number of hexadecimal digits of `n`.
fn hex_len(n: u64) -> (l: usize)
    ensures
        l == hex(n as nat).len(),
        l <= 16,
    decreases n,
{
    if n < 16 {
        1
    } else {
        proof {
            lemma_hex_len_bound(n as nat / 16);
            assert(n / 16 < 0x1000_0000_0000_0000) by (nonlinear_arith)
                requires n <= u64::MAX;
        }
        let l = hex_len(n / 16);
        proof {
            lemma_hex_len_small(n as nat / 16);
        }
        l + 1
    }
}

proof fn lemma_hex_len_bound(n: nat)
    ensures
        hex(n).len() >= 1,
    decreases n,
{
    if n >= 16 {
        lemma_hex_len_bound(n / 16);
    }
}

/// A number below 16^15 has at most 15 hexadecimal digits.
proof fn lemma_hex_len_small(n: nat)
    requires
        n < 0x1000_0000_0000_0000,
    ensures
        hex(n).len() <= 15,
    decreases n,
{
    reveal_with_fuel(vstd::arithmetic::power::pow, 16);
    assert(vstd::arithmetic::power::pow(16, 15) == 0x1000_0000_0000_0000);
    lemma_hex_len_le(n, 15);
}

/// `hex(n)` has at most `k` digits when `n < 16^k`.
proof fn lemma_hex_len_le(n: nat, k: nat)
    requires
        k >= 1,
        n < vstd::arithmetic::power::pow(16, k),
    ensures
        hex(n).len() <= k,
    decreases k,
{
    vstd::arithmetic::power::lemma_pow_positive(16, k);
    if n >= 16 {
        if k == 1 {
            vstd::arithmetic::power::lemma_pow1(16);
        } else {
            vstd::arithmetic::power::lemma_pow_adds(16, 1, (k - 1) as nat);
            vstd::arithmetic::power::lemma_pow1(16);
            let p = vstd::arithmetic::power::pow(16, (k - 1) as nat);
            assert(n / 16 < p) by (nonlinear_arith)
                requires n < 16 * p, p > 0;
            lemma_hex_len_le(n / 16, (k - 1) as nat);
        }
    }
}

/// The string of the single hexadecimal digit `d`.
fn hex_digit_str(d: u64) -> (s: &'static str)
    requires
        d < 16,
    ensures
        s@ == seq![hex_alphabet()[d as int]],
{
    let all = "0123456789abcdef";
    proof {
        reveal_strlit("0123456789abcdef");
    }
    let d: usize = d as usize;
    let s = all.substring_char(d, d + 1);
    proof {
        assert(s@ =~= seq![hex_alphabet()[d as int]]);
    }
    s
}

/// Appends the hexadecimal representation of `n` to `out`.
fn push_hex(out: &mut String, n: u64)
    ensures
        final(out)@ == old(out)@ + hex(n as nat),
    decreases n,
{
    if n >= 16 {
        push_hex(out, n / 16);
    }
    out.append(hex_digit_str(n % 16));
}

/// Appends the hexadecimal representation of `n`, zero-padded to `w` digits.
fn push_padded_hex(out: &mut String, n: u64, w: usize)
    ensures
        final(out)@ == old(out)@ + zero_padded(hex(n as nat), w as nat),
{
    let l = hex_len(n);
    let ghost start = out@;
    if l < w {
        let mut i: usize = l;
        proof {
            assert(start + Seq::<char>::empty() == start);
            reveal_strlit("0");
        }
        while i < w
            invariant
                l <= i <= w,
                out@ == start + Seq::new((i - l) as nat, |j: int| '0'),
            decreases w - i,
        {
            proof {
                reveal_strlit("0");
            }
            out.append("0");
            proof {
                assert(out@ =~= start + Seq::new((i + 1 - l) as nat, |j: int| '0'));
            }
            i += 1;
        }
        let ghost mid = out@;
        push_hex(out, n);
        proof {
            assert(out@ =~= start + zero_padded(hex(n as nat), w as nat));
        }
    } else {
        push_hex(out, n);
    }
}

impl PackFileName {
    /// The reference to this pack.
    pub open spec fn ref_spec(self) -> PackRef {
        PackRef { id: self.id, end_seq: self.seqs.end }
    }

    /// The reference to this pack: its id and the end of its sequence range.
    pub fn get_ref(&self) -> (r: PackRef)
        ensures
            r == self.ref_spec(),
    {
        PackRef { id: self.id, end_seq: self.seqs.end }
    }

    /// The file name of this pack.
    pub fn to_string(&self) -> (s: String)
        ensures
            s@ == pack_name_spec(*self),
    {
        let mut s = String::new();
        proof {
            reveal_strlit("-");
        }
        push_padded_hex(&mut s, self.seqs.start, 4);
        s.append("-");
        push_padded_hex(&mut s, self.seqs.end, 4);
        s.append("-");
        push_padded_hex(&mut s, self.id, 16);
        s.append("-");
        push_padded_hex(&mut s, self.generation, 2);
        proof {
            assert(s@ =~= pack_name_spec(*self));
        }
        s
    }

    /// A copy of this name.
    pub fn copy(&self) -> (c: Self)
        ensures
            c == *self,
    {
        PackFileName {
            seqs: Range { start: self.seqs.start, end: self.seqs.end },
            id: self.id,
            generation: self.generation,
        }
    }
}

impl BlockedPackRef {
    /// A copy of this blocked pack.
    pub fn copy(&self) -> (c: Self)
        ensures
            c.file == self.file,
            c.parents@ == self.parents@,
            c.read_timestamps == self.read_timestamps,
            c.retries == self.retries,
    {
        let mut parents: Vec<PackRef> = Vec::new();
        let mut i: usize = 0;
        while i < self.parents.len()
            invariant
                i <= self.parents@.len(),
                parents@ == self.parents@.take(i as int),
            decreases self.parents@.len() - i,
        {
            parents.push(self.parents[i]);
            proof {
                assert(self.parents@.take(i as int + 1) == self.parents@.take(i as int).push(
                    self.parents@[i as int],
                ));
            }
            i += 1;
        }
        proof {
            assert(self.parents@.take(self.parents@.len() as int) == self.parents@);
        }
        BlockedPackRef {
            file: self.file.copy(),
            parents,
            read_timestamps: Range { start: self.read_timestamps.start, end: self.read_timestamps.end },
            retries: self.retries,
        }
    }
}

/// Whether the names are in order of the end of their sequence range.
pub open spec fn sorted_by_end(s: Seq<PackFileName>) -> bool {
    forall|i: int, j: int| 0 <= i <= j < s.len() ==> s[i].seqs.end <= s[j].seqs.end
}

/// Whether a name's sequence range ends at `k`.
pub open spec fn ends_at(k: u64) -> spec_fn(PackFileName) -> bool {
    |f: PackFileName| f.seqs.end == k
}

/// Whether a name's reference is not among `consumed`.
pub open spec fn not_consumed(consumed: Seq<PackRef>) -> spec_fn(PackFileName) -> bool {
    |f: PackFileName| !consumed.contains(f.ref_spec())
}

/// The names, in listing order, whose reference is not among `consumed`.
pub open spec fn unread(consumed: Seq<PackRef>, cur: Seq<PackFileName>) -> Seq<PackFileName> {
    cur.filter(not_consumed(consumed))
}

/// `out` holds the names of `src`, ordered by the end of their range; names
/// with the same end keep their order in `src`.
pub open spec fn stable_sorted(out: Seq<PackFileName>, src: Seq<PackFileName>) -> bool {
    &&& sorted_by_end(out)
    &&& forall|k: u64| #[trigger] out.filter(ends_at(k)) == src.filter(ends_at(k))
}

/// Whether `r` is the reference of one of the names.
pub open spec fn listed(cur: Seq<PackFileName>, r: PackRef) -> bool {
    exists|i: int| 0 <= i < cur.len() && (#[trigger] cur[i]).ref_spec() == r
}

fn contains_ref(v: &Vec<PackRef>, r: PackRef) -> (b: bool)
    ensures
        b == v@.contains(r),
{
    let mut i: usize = 0;
    while i < v.len()
        invariant
            i <= v@.len(),
            forall|j: int| 0 <= j < i ==> v@[j] != r,
        decreases v@.len() - i,
    {
        if v[i] == r {
            return true;
        }
        i += 1;
    }
    false
}

/// The position after the last name whose range ends no later than `end`.
fn insertion_point(v: &Vec<PackFileName>, end: u64) -> (p: usize)
    requires
        sorted_by_end(v@),
    ensures
        p <= v@.len(),
        forall|i: int| 0 <= i < p ==> v@[i].seqs.end <= end,
        forall|i: int| p <= i < v@.len() ==> v@[i].seqs.end > end,
{
    let mut p: usize = 0;
    while p < v.len() && v[p].seqs.end <= end
        invariant
            p <= v@.len(),
            sorted_by_end(v@),
            forall|i: int| 0 <= i < p ==> v@[i].seqs.end <= end,
        decreases v@.len() - p,
    {
        p += 1;
    }
    p
}

/// Inserting `x` after the names that end no later than it, and before the
/// rest, keeps a sorted sequence sorted and appends `x` to its own group.
proof fn lemma_insert_sorted(s: Seq<PackFileName>, p: int, x: PackFileName)
    requires
        0 <= p <= s.len(),
        sorted_by_end(s),
        forall|i: int| 0 <= i < p ==> s[i].seqs.end <= x.seqs.end,
        forall|i: int| p <= i < s.len() ==> s[i].seqs.end > x.seqs.end,
    ensures
        sorted_by_end(s.insert(p, x)),
        forall|k: u64| #[trigger] s.insert(p, x).filter(ends_at(k)) == if x.seqs.end == k {
            s.filter(ends_at(k)).push(x)
        } else {
            s.filter(ends_at(k))
        },
{
    let t = s.insert(p, x);
    assert(t =~= s.take(p) + seq![x] + s.skip(p));
    assert(s =~= s.take(p) + s.skip(p));
    assert forall|k: u64| #[trigger] t.filter(ends_at(k)) == if x.seqs.end == k {
        s.filter(ends_at(k)).push(x)
    } else {
        s.filter(ends_at(k))
    } by {
        let f = ends_at(k);
        Seq::filter_distributes_over_add(s.take(p) + seq![x], s.skip(p), f);
        Seq::filter_distributes_over_add(s.take(p), seq![x], f);
        Seq::filter_distributes_over_add(s.take(p), s.skip(p), f);
        reveal_with_fuel(Seq::filter, 2);
        assert(seq![x].drop_last() =~= Seq::<PackFileName>::empty());
        if x.seqs.end == k {
            assert forall|i: int| 0 <= i < s.skip(p).len() implies !f(s.skip(p)[i]) by {}
            s.skip(p).lemma_all_neg_filter_empty(f);
            assert(s.skip(p).filter(f) =~= Seq::<PackFileName>::empty());
            assert(seq![x].filter(f) =~= seq![x]);
            assert(t.filter(f) =~= s.filter(f).push(x));
        } else {
            assert(seq![x].filter(f) =~= Seq::<PackFileName>::empty());
            assert(t.filter(f) =~= s.filter(f));
        }
    }
}

impl PackReadState {
    /// Splits a directory listing into the packs already consumed, which stay
    /// in the state (each once), and those still to read, ordered by the end
    /// of their sequence range with ties in listing order. Packs consumed
    /// before but no longer listed leave the state.
    pub fn update(&self, ts: u64, cur_files: &[PackFileName]) -> (res: PackReadResult)
        ensures
            res.new_state.consumed@.no_duplicates(),
            forall|r: PackRef| #[trigger] res.new_state.consumed@.contains(r) <==> (
            self.consumed@.contains(r) && listed(cur_files@, r)),
            res.new_state.blocked@.len() == self.blocked@.len(),
            forall|i: int| 0 <= i < self.blocked@.len() ==> (
            #[trigger] res.new_state.blocked@[i]).file == self.blocked@[i].file
                && res.new_state.blocked@[i].parents@ == self.blocked@[i].parents@
                && res.new_state.blocked@[i].read_timestamps == self.blocked@[i].read_timestamps
                && res.new_state.blocked@[i].retries == self.blocked@[i].retries,
            stable_sorted(res.to_read@, unread(self.consumed@, cur_files@)),
    {
        let mut to_read: Vec<PackFileName> = Vec::new();
        let mut new_consumed: Vec<PackRef> = Vec::new();
        let mut i: usize = 0;
        proof {
            assert(cur_files@.take(0) =~= Seq::<PackFileName>::empty());
            assert forall|k: u64| #[trigger] to_read@.filter(ends_at(k)) == unread(
                self.consumed@,
                cur_files@.take(0),
            ).filter(ends_at(k)) by {
                reveal_with_fuel(Seq::filter, 1);
                assert(to_read@.filter(ends_at(k)) =~= Seq::<PackFileName>::empty());
                assert(unread(self.consumed@, cur_files@.take(0)) =~= Seq::<PackFileName>::empty());
                assert(Seq::<PackFileName>::empty().filter(ends_at(k)) =~= Seq::<PackFileName>::empty());
            }
        }
        while i < cur_files.len()
            invariant
                i <= cur_files@.len(),
                new_consumed@.no_duplicates(),
                forall|r: PackRef| #[trigger] new_consumed@.contains(r) <==> (
                self.consumed@.contains(r) && listed(cur_files@.take(i as int), r)),
                sorted_by_end(to_read@),
                forall|k: u64| #[trigger] to_read@.filter(ends_at(k)) == unread(
                    self.consumed@,
                    cur_files@.take(i as int),
                ).filter(ends_at(k)),
            decreases cur_files@.len() - i,
        {
            let f = &cur_files[i];
            let r = f.get_ref();
            let ghost prev = cur_files@.take(i as int);
            let ghost next = cur_files@.take(i as int + 1);
            proof {
                assert(next =~= prev.push(*f));
                prev.lemma_filter_push(*f, not_consumed(self.consumed@));
                assert forall|q: PackRef| listed(next, q) <==> (listed(prev, q) || q == r) by {
                    if listed(next, q) {
                        let j = choose|j: int| 0 <= j < next.len() && (#[trigger] next[j]).ref_spec() == q;
                        if j < i {
                            assert(prev[j] == next[j]);
                        }
                    }
                    if listed(prev, q) {
                        let j = choose|j: int| 0 <= j < prev.len() && (#[trigger] prev[j]).ref_spec() == q;
                        assert(next[j] == prev[j]);
                    }
                    if q == r {
                        assert(next[i as int] == *f);
                    }
                }
            }
            if contains_ref(&self.consumed, r) {
                if !contains_ref(&new_consumed, r) {
                    let ghost nc0 = new_consumed@;
                    new_consumed.push(r);
                    proof {
                        let nc = new_consumed@;
                        assert(nc == nc0.push(r));
                        assert forall|x: int, y: int|
                            0 <= x < nc.len() && 0 <= y < nc.len() && x != y implies nc[x] != nc[y] by {
                            if x == nc.len() - 1 {
                                assert(nc[y] == nc0[y]);
                                if nc0[y] == r {
                                    assert(nc0.contains(r));
                                }
                            } else if y == nc.len() - 1 {
                                assert(nc[x] == nc0[x]);
                                if nc0[x] == r {
                                    assert(nc0.contains(r));
                                }
                            } else {
                                assert(nc[x] == nc0[x] && nc[y] == nc0[y]);
                            }
                        }
                        assert forall|q: PackRef| #[trigger] nc.contains(q) <==> (
                        self.consumed@.contains(q) && listed(next, q)) by {
                            if nc.contains(q) {
                                let j = choose|j: int| 0 <= j < nc.len() && nc[j] == q;
                                if j < nc.len() - 1 {
                                    assert(nc0[j] == q);
                                    assert(nc0.contains(q));
                                }
                            }
                            if self.consumed@.contains(q) && listed(next, q) {
                                if q == r {
                                    assert(nc[nc.len() - 1] == r);
                                } else {
                                    assert(nc0.contains(q));
                                    let j = choose|j: int| 0 <= j < nc0.len() && nc0[j] == q;
                                    assert(nc[j] == q);
                                }
                            }
                        }
                    }
                }
                proof {
                    assert(unread(self.consumed@, next) == unread(self.consumed@, prev));
                }
            } else {
                let p = insertion_point(&to_read, f.seqs.end);
                let ghost before = to_read@;
                let c = f.copy();
                to_read.insert(p, c);
                proof {
                    lemma_insert_sorted(before, p as int, *f);
                    assert(unread(self.consumed@, next) == unread(self.consumed@, prev).push(*f));
                    assert forall|k: u64| #[trigger] to_read@.filter(ends_at(k)) == unread(
                        self.consumed@,
                        next,
                    ).filter(ends_at(k)) by {
                        unread(self.consumed@, prev).lemma_filter_push(*f, ends_at(k));
                    }
                }
            }
            i += 1;
        }
        proof {
            assert(cur_files@.take(cur_files@.len() as int) =~= cur_files@);
        }
        let mut blocked: Vec<BlockedPackRef> = Vec::new();
        let mut j: usize = 0;
        while j < self.blocked.len()
            invariant
                j <= self.blocked@.len(),
                blocked@.len() == j,
                forall|k: int| 0 <= k < j ==> (#[trigger] blocked@[k]).file == self.blocked@[k].file
                    && blocked@[k].parents@ == self.blocked@[k].parents@
                    && blocked@[k].read_timestamps == self.blocked@[k].read_timestamps
                    && blocked@[k].retries == self.blocked@[k].retries,
            decreases self.blocked@.len() - j,
        {
            blocked.push(self.blocked[j].copy());
            j += 1;
        }
        PackReadResult { new_state: PackReadState { consumed: new_consumed, blocked }, to_read }
    }
}

} // verus!
