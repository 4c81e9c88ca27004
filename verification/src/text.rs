//! Decimal numbers and dash-separated names, as the storage layer writes and
//! reads them.

use vstd::prelude::*;
use vstd::string::StrSliceExecFns;
use vstd::string::StringExecFns;

verus! {

/// The character of the decimal digit `d`.
pub open spec fn digit_char(d: nat) -> char {
    (d + 48) as char
}

/// Whether `c` is a decimal digit.
pub open spec fn is_digit(c: char) -> bool {
    '0' <= c && c <= '9'
}

/// The value of the decimal digit `c`.
pub open spec fn digit_value(c: char) -> nat {
    (c as int - 48) as nat
}

/// The decimal representation of `n`, without leading zeros.
pub open spec fn dec(n: nat) -> Seq<char>
    decreases n,
{
    if n < 10 {
        seq![digit_char(n)]
    } else {
        dec(n / 10).push(digit_char(n % 10))
    }
}

/// The value of a sequence of decimal digits.
pub open spec fn digits_value(s: Seq<char>) -> nat
    decreases s.len(),
{
    if s.len() == 0 {
        0
    } else {
        digits_value(s.drop_last()) * 10 + digit_value(s.last())
    }
}

/// Whether every character of `s` is a decimal digit.
pub open spec fn all_digits(s: Seq<char>) -> bool {
    forall|i: int| 0 <= i < s.len() ==> is_digit(#[trigger] s[i])
}

/// What parsing `s` as an unsigned 64-bit decimal gives: one or more digits,
/// after an optional `+`, of a value that fits.
pub open spec fn parse_u64_spec(s: Seq<char>) -> Option<u64> {
    let body = if s.len() > 0 && s[0] == '+' { s.skip(1) } else { s };
    if body.len() > 0 && all_digits(body) && digits_value(body) <= u64::MAX {
        Some(digits_value(body) as u64)
    } else {
        None
    }
}

/// The pieces of `s` between the occurrences of `sep`.
pub open spec fn split_on(s: Seq<char>, sep: char) -> Seq<Seq<char>>
    decreases s.len(),
{
    if s.len() == 0 {
        seq![Seq::empty()]
    } else {
        let rest = split_on(s.drop_last(), sep);
        if s.last() == sep {
            rest.push(Seq::empty())
        } else {
            rest.update(rest.len() - 1, rest.last().push(s.last()))
        }
    }
}

/// The pieces of a split are never empty as a list.
pub proof fn lemma_split_len(s: Seq<char>, sep: char)
    ensures
        split_on(s, sep).len() >= 1,
    decreases s.len(),
{
    if s.len() > 0 {
        lemma_split_len(s.drop_last(), sep);
    }
}

/// The string of the single decimal digit `d`.
fn digit_str(d: u64) -> (s: &'static str)
    requires
        d < 10,
    ensures
        s@ == seq![digit_char(d as nat)],
{
    match d {
        0 => { proof { reveal_strlit("0"); } "0" }
        1 => { proof { reveal_strlit("1"); } "1" }
        2 => { proof { reveal_strlit("2"); } "2" }
        3 => { proof { reveal_strlit("3"); } "3" }
        4 => { proof { reveal_strlit("4"); } "4" }
        5 => { proof { reveal_strlit("5"); } "5" }
        6 => { proof { reveal_strlit("6"); } "6" }
        7 => { proof { reveal_strlit("7"); } "7" }
        8 => { proof { reveal_strlit("8"); } "8" }
        _ => { proof { reveal_strlit("9"); } "9" }
    }
}

/// Appends the decimal representation of `n` to `out`.
pub fn push_decimal(out: &mut String, n: u64)
    ensures
        final(out)@ == old(out)@ + dec(n as nat),
    decreases n,
{
    if n >= 10 {
        push_decimal(out, n / 10);
    }
    out.append(digit_str(n % 10));
}

/// The decimal representation of `n`.
pub fn decimal(n: u64) -> (s: String)
    ensures
        s@ == dec(n as nat),
{
    let mut s = String::new();
    push_decimal(&mut s, n);
    proof {
        assert(Seq::<char>::empty() + dec(n as nat) == dec(n as nat));
    }
    s
}

/// A prefix of digits is worth no more than the whole.
pub proof fn lemma_digits_mono(s: Seq<char>, k: int)
    requires
        0 <= k <= s.len(),
    ensures
        digits_value(s.take(k)) <= digits_value(s),
    decreases s.len(),
{
    if k < s.len() {
        lemma_digits_mono(s.drop_last(), k);
        assert(s.drop_last().take(k) == s.take(k));
    } else {
        assert(s.take(k) == s);
    }
}

/// Parses `s` as an unsigned 64-bit decimal: one or more digits after an
/// optional `+`, of a value that fits.
pub fn parse_u64(s: &str) -> (r: Option<u64>)
    ensures
        r == parse_u64_spec(s@),
{
    let len = s.unicode_len();
    let ghost body = if s@.len() > 0 && s@[0] == '+' { s@.skip(1) } else { s@ };
    let mut start: usize = 0;
    if len > 0 && s.get_char(0) == '+' {
        start = 1;
    }
    proof {
        assert(body == s@.skip(start as int));
    }
    if start == len {
        return None;
    }
    let mut value: u64 = 0;
    let mut i: usize = start;
    proof {
        assert(body.take(0) == Seq::<char>::empty());
    }
    while i < len
        invariant
            len == s@.len(),
            start <= i <= len,
            body == s@.skip(start as int),
            body == (if s@.len() > 0 && s@[0] == '+' { s@.skip(1) } else { s@ }),
            all_digits(body.take(i - start)),
            value == digits_value(body.take(i - start)),
        decreases len - i,
    {
        let c = s.get_char(i);
        let ghost k = i - start;
        proof {
            assert(body[k as int] == c);
            assert(body.take(k + 1).drop_last() == body.take(k as int));
            assert(body.take(k + 1).last() == c);
        }
        if !('0' <= c && c <= '9') {
            proof {
                assert(!is_digit(body[k as int]));
            }
            return None;
        }
        let d = (c as u32 - 48) as u64;
        let next = match value.checked_mul(10) {
            Some(m) => m.checked_add(d),
            None => None,
        };
        match next {
            Some(v) => {
                value = v;
            }
            None => {
                proof {
                    assert(digits_value(body.take(k + 1)) > u64::MAX);
                    if all_digits(body) {
                        lemma_digits_mono(body, k + 1);
                    }
                }
                return None;
            }
        }
        i += 1;
    }
    proof {
        assert(body.take(i - start) == body);
    }
    Some(value)
}

/// `s` split at each `-`, piece by piece.
pub fn split_dash(s: &str) -> (parts: Vec<String>)
    ensures
        parts@.len() == split_on(s@, '-').len(),
        forall|k: int| 0 <= k < parts@.len() ==> #[trigger] parts@[k]@ == split_on(s@, '-')[k],
{
    let len = s.unicode_len();
    let mut parts: Vec<String> = Vec::new();
    let mut start: usize = 0;
    let mut i: usize = 0;
    proof {
        assert(s@.take(0) == Seq::<char>::empty());
        assert(s@.subrange(0, 0) == Seq::<char>::empty());
    }
    while i < len
        invariant
            len == s@.len(),
            start <= i <= len,
            split_on(s@.take(i as int), '-').len() == parts@.len() + 1,
            forall|k: int| 0 <= k < parts@.len() ==> #[trigger] parts@[k]@ == split_on(s@.take(i as int), '-')[k],
            split_on(s@.take(i as int), '-').last() == s@.subrange(start as int, i as int),
        decreases len - i,
    {
        let c = s.get_char(i);
        proof {
            assert(s@.take(i as int + 1).drop_last() == s@.take(i as int));
            assert(s@.take(i as int + 1).last() == c);
            lemma_split_len(s@.take(i as int), '-');
        }
        if c == '-' {
            let piece = String::from_str(s.substring_char(start, i));
            parts.push(piece);
            start = i + 1;
            proof {
                assert(s@.subrange(start as int, i as int + 1) == Seq::<char>::empty());
            }
        } else {
            proof {
                assert(s@.subrange(start as int, i as int + 1) == s@.subrange(start as int, i as int).push(c));
            }
        }
        i += 1;
    }
    let last = String::from_str(s.substring_char(start, len));
    parts.push(last);
    proof {
        assert(s@.take(len as int) == s@);
        lemma_split_len(s@, '-');
    }
    parts
}

/// The three characters `.gz`.
pub open spec fn gz_suffix() -> Seq<char> {
    seq!['.', 'g', 'z']
}

/// `s` without a trailing `.gz`, if it has one.
pub open spec fn strip_gz_spec(s: Seq<char>) -> Option<Seq<char>> {
    if s.len() >= 3 && s.subrange(s.len() - 3, s.len() as int) == gz_suffix() {
        Some(s.subrange(0, s.len() - 3))
    } else {
        None
    }
}

/// `s` without a trailing `.gz`, if it has one.
pub fn strip_gz(s: &str) -> (r: Option<String>)
    ensures
        match r {
            Some(b) => strip_gz_spec(s@) == Some(b@),
            None => strip_gz_spec(s@) is None,
        },
{
    let len = s.unicode_len();
    if len < 3 {
        return None;
    }
    let a = s.get_char(len - 3);
    let b = s.get_char(len - 2);
    let c = s.get_char(len - 1);
    if a == '.' && b == 'g' && c == 'z' {
        proof {
            assert(s@.subrange(len - 3, len as int) == gz_suffix());
        }
        Some(String::from_str(s.substring_char(0, len - 3)))
    } else {
        proof {
            if s@.subrange(len - 3, len as int) == gz_suffix() {
                assert(s@.subrange(len - 3, len as int)[0] == a);
                assert(s@.subrange(len - 3, len as int)[1] == b);
                assert(s@.subrange(len - 3, len as int)[2] == c);
            }
        }
        None
    }
}

/// The character of a digit is a digit, of that value.
pub proof fn lemma_digit_char(d: nat)
    requires
        d < 10,
    ensures
        is_digit(digit_char(d)),
        digit_value(digit_char(d)) == d,
{
    assert(digit_char(d) as int == d + 48);
}

/// The decimal representation of a number is all digits, and worth it.
pub proof fn lemma_dec_digits(n: nat)
    ensures
        dec(n).len() > 0,
        all_digits(dec(n)),
        digits_value(dec(n)) == n,
    decreases n,
{
    if n >= 10 {
        lemma_dec_digits(n / 10);
        lemma_digit_char(n % 10);
        let d = dec(n);
        assert(d.drop_last() == dec(n / 10));
        assert(d.last() == digit_char(n % 10));
        assert(n == (n / 10) * 10 + n % 10) by (nonlinear_arith);
        assert(digits_value(d) == digits_value(d.drop_last()) * 10 + digit_value(d.last()));
        assert(digits_value(d) == (n / 10) * 10 + n % 10);
        assert forall|i: int| 0 <= i < d.len() implies is_digit(#[trigger] d[i]) by {
            if i < d.len() - 1 {
                assert(d[i] == dec(n / 10)[i]);
            }
        }
    } else {
        lemma_digit_char(n);
        assert(dec(n).drop_last() == Seq::<char>::empty());
        assert(dec(n).last() == digit_char(n));
        assert(digits_value(dec(n)) == digits_value(dec(n).drop_last()) * 10 + digit_value(dec(n).last()));
        assert(digits_value(Seq::<char>::empty()) == 0);
    }
}

/// Parsing the decimal representation of a number gives the number back.
pub proof fn lemma_parse_dec(n: u64)
    ensures
        parse_u64_spec(dec(n as nat)) == Some(n),
        !dec(n as nat).contains('-'),
{
    lemma_dec_digits(n as nat);
    let d = dec(n as nat);
    assert(is_digit(d[0]));
    if d.contains('-') {
        let i = choose|i: int| 0 <= i < d.len() && d[i] == '-';
        assert(is_digit(d[i]));
    }
}

/// Splitting a piece without separators gives the piece.
pub proof fn lemma_split_none(q: Seq<char>, sep: char)
    requires
        !q.contains(sep),
    ensures
        split_on(q, sep) == seq![q],
    decreases q.len(),
{
    if q.len() > 0 {
        assert(!q.drop_last().contains(sep)) by {
            if q.drop_last().contains(sep) {
                let i = choose|i: int| 0 <= i < q.drop_last().len() && q.drop_last()[i] == sep;
                assert(q[i] == sep);
            }
        }
        lemma_split_none(q.drop_last(), sep);
        assert(q.last() != sep) by {
            assert(q[q.len() - 1] == q.last());
        }
        assert(q.drop_last().push(q.last()) == q);
    } else {
        assert(q == Seq::<char>::empty());
    }
}

/// Splitting `p`, a separator and a piece `q` without separators adds `q`
/// to the pieces of `p`.
pub proof fn lemma_split_append(p: Seq<char>, q: Seq<char>, sep: char)
    requires
        !q.contains(sep),
    ensures
        split_on(p + seq![sep] + q, sep) == split_on(p, sep).push(q),
    decreases q.len(),
{
    lemma_split_len(p, sep);
    if q.len() == 0 {
        assert(q == Seq::<char>::empty());
        assert(p + seq![sep] + q == (p + seq![sep]));
        assert((p + seq![sep]).drop_last() == p);
        assert((p + seq![sep]).last() == sep);
    } else {
        assert(!q.drop_last().contains(sep)) by {
            if q.drop_last().contains(sep) {
                let i = choose|i: int| 0 <= i < q.drop_last().len() && q.drop_last()[i] == sep;
                assert(q[i] == sep);
            }
        }
        lemma_split_append(p, q.drop_last(), sep);
        let s = p + seq![sep] + q;
        assert(s.drop_last() == p + seq![sep] + q.drop_last());
        assert(s.last() == q.last());
        assert(q.last() != sep) by {
            assert(q[q.len() - 1] == q.last());
        }
        assert(q.drop_last().push(q.last()) == q);
        let rest = split_on(p, sep).push(q.drop_last());
        assert(rest.update(rest.len() - 1, rest.last().push(q.last())) == split_on(p, sep).push(q));
    }
}

} // verus!
