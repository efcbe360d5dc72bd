//! JSON wire codec for the WebSocket transport.
//!
//! Frames are UTF-8 byte sequences.  A request frame is
//! `{"message": <string>, "sequence": <integer>}`; a reply frame is
//! `{"message": <string>, "sequence": <integer>, "total_pings": <integer>}`
//! (the wire spells the counter field `total_pings`).  The encoder emits the
//! canonical compact form; the parser accepts members in any order with
//! optional whitespace, and rejects anything else, so a malformed frame is
//! reported rather than mis-read.
use vstd::prelude::*;

use crate::msg::Ping;
use crate::msg::PingV;
use crate::msg::Pong;
use crate::msg::PongV;

verus! {

// ---------------------------------------------------------------------------
// Decimal integers
// ---------------------------------------------------------------------------
/// ASCII decimal digit?
pub open spec fn is_digit(b: u8) -> bool {
    0x30 <= b && b <= 0x39
}

/// The decimal representation of `n`: no sign, no leading zero.
pub open spec fn dec_rep(n: nat) -> Seq<u8>
    decreases n,
{
    if n < 10 {
        seq![(0x30 + n) as u8]
    } else {
        dec_rep(n / 10).push((0x30 + n % 10) as u8)
    }
}

proof fn lemma_reverse_push<A>(s: Seq<A>, x: A)
    ensures
        (s.push(x)).reverse() =~= seq![x] + s.reverse(),
{
}

/// Facts about `dec_rep`: all bytes are digits, the value reads back, and
/// there is no leading zero.
pub proof fn lemma_dec_rep(n: nat)
    ensures
        dec_rep(n).len() >= 1,
        forall|i: int| 0 <= i < dec_rep(n).len() ==> is_digit(#[trigger] dec_rep(n)[i]),
        digits_val(dec_rep(n)) == n,
        dec_rep(n)[0] == 0x30 ==> n == 0,
        n == 0 ==> dec_rep(n).len() == 1,
    decreases n,
{
    if n < 10 {
        assert(dec_rep(n) =~= seq![(0x30 + n) as u8]);
        assert(dec_rep(n).drop_last() =~= Seq::<u8>::empty());
        assert(dec_rep(n).last() == (0x30 + n) as u8);
        assert((0x30 + n) as u8 == 0x30 + n);
        assert(digits_val(Seq::<u8>::empty()) == 0);
        assert(digits_val(dec_rep(n)) == 0 * 10 + ((0x30 + n) as u8 - 0x30) as nat);
    } else {
        lemma_dec_rep(n / 10);
        let d = (0x30 + n % 10) as u8;
        assert(dec_rep(n) == dec_rep(n / 10).push(d));
        assert(dec_rep(n).drop_last() =~= dec_rep(n / 10));
        assert(dec_rep(n).last() == d);
        assert(digits_val(dec_rep(n)) == digits_val(dec_rep(n / 10)) * 10 + (d - 0x30) as nat);
        assert(n / 10 * 10 + n % 10 == n);
        assert(dec_rep(n)[0] == dec_rep(n / 10)[0]);
    }
}

/// Converts `n` to its decimal representation.
pub fn u64_to_dec(n: u64) -> (v: Vec<u8>)
    ensures
        v@ == dec_rep(n as nat),
{
    let mut tmp: Vec<u8> = Vec::new();
    let mut m: u64 = n;
    tmp.push(0x30u8 + (m % 10) as u8);
    proof {
        assert(tmp@.reverse() =~= seq![(0x30 + n as nat % 10) as u8]);
    }
    m = m / 10;
    while m > 0
        invariant
            m > 0 ==> dec_rep(n as nat) == dec_rep(m as nat) + tmp@.reverse(),
            m == 0 ==> dec_rep(n as nat) == tmp@.reverse(),
        decreases m,
    {
        let ghost pre = tmp@;
        let d: u8 = 0x30u8 + (m % 10) as u8;
        tmp.push(d);
        proof {
            lemma_reverse_push(pre, d);
            if m >= 10 {
                assert(dec_rep(m as nat) == dec_rep(m as nat / 10).push(d));
                assert(dec_rep(m as nat / 10).push(d) =~= dec_rep(m as nat / 10) + seq![d]);
                assert(dec_rep(m as nat / 10) + seq![d] + pre.reverse() =~= dec_rep(m as nat / 10)
                    + (seq![d] + pre.reverse()));
                assert(dec_rep(n as nat) == dec_rep((m / 10) as nat) + tmp@.reverse());
            } else {
                assert(dec_rep(m as nat) =~= seq![d]);
                assert(seq![d] + pre.reverse() =~= tmp@.reverse());
            }
        }
        m = m / 10;
    }
    let mut v: Vec<u8> = Vec::new();
    proof {
        assert(v@ + tmp@.reverse() =~= tmp@.reverse());
    }
    while tmp.len() > 0
        invariant
            v@ + tmp@.reverse() == dec_rep(n as nat),
        decreases tmp.len(),
    {
        let ghost prev = v@;
        let ghost pret = tmp@;
        let d = tmp.pop().unwrap();
        v.push(d);
        proof {
            assert(pret =~= tmp@.push(d));
            lemma_reverse_push(tmp@, d);
            assert(prev + pret.reverse() =~= v@ + tmp@.reverse());
        }
    }
    proof {
        assert(v@ + tmp@.reverse() =~= v@);
    }
    v
}

/// The value of a sequence of decimal digit bytes.
pub open spec fn digits_val(s: Seq<u8>) -> nat
    decreases s.len(),
{
    if s.len() == 0 {
        0
    } else {
        digits_val(s.drop_last()) * 10 + (s.last() - 0x30) as nat
    }
}

/// Length of the longest all-digit prefix of `s`.
pub open spec fn digits_len(s: Seq<u8>) -> nat
    decreases s.len(),
{
    if s.len() == 0 || !is_digit(s[0]) {
        0
    } else {
        (1 + digits_len(s.drop_first())) as nat
    }
}

/// JSON unsigned-integer token at the head of `s`: at least one digit, no
/// leading zero unless the token is exactly `0`, and the value fits in a
/// `u64`.  Returns the value and the number of bytes consumed.
pub open spec fn parse_u64_head(s: Seq<u8>) -> Option<(u64, nat)> {
    let k = digits_len(s);
    if k == 0 {
        None
    } else if s[0] == 0x30 && k != 1 {
        None
    } else if digits_val(s.take(k as int)) > u64::MAX {
        None
    } else {
        Some((digits_val(s.take(k as int)) as u64, k))
    }
}

proof fn lemma_digits_len_bound(s: Seq<u8>)
    ensures
        digits_len(s) <= s.len(),
        forall|i: int| 0 <= i < digits_len(s) ==> is_digit(#[trigger] s[i]),
    decreases s.len(),
{
    if s.len() > 0 && is_digit(s[0]) {
        lemma_digits_len_bound(s.drop_first());
        assert forall|i: int| 0 <= i < digits_len(s) implies is_digit(#[trigger] s[i]) by {
            if i > 0 {
                assert(s.drop_first()[i - 1] == s[i]);
            }
        }
    }
}

/// An all-digit prefix followed by a non-digit (or nothing) is exactly the
/// digit run the scanner finds.
proof fn lemma_digits_len_concat(p: Seq<u8>, rest: Seq<u8>)
    requires
        forall|i: int| 0 <= i < p.len() ==> is_digit(#[trigger] p[i]),
        rest.len() == 0 || !is_digit(rest[0]),
    ensures
        digits_len(p + rest) == p.len(),
    decreases p.len(),
{
    if p.len() == 0 {
        assert(p + rest =~= rest);
    } else {
        assert((p + rest)[0] == p[0]);
        assert((p + rest).drop_first() =~= p.drop_first() + rest);
        lemma_digits_len_concat(p.drop_first(), rest);
    }
}

/// Extending a digit string multiplies its value by ten and adds the digit.
proof fn lemma_digits_val_push(s: Seq<u8>, b: u8)
    ensures
        digits_val(s.push(b)) == digits_val(s) * 10 + (b - 0x30) as nat,
{
    assert(s.push(b).drop_last() =~= s);
    assert(s.push(b).last() == b);
}

/// The value of a digit string never decreases as digits are appended.
proof fn lemma_digits_val_mono(s: Seq<u8>, a: int, b: int)
    requires
        0 <= a <= b <= s.len(),
        forall|i: int| 0 <= i < s.len() ==> is_digit(#[trigger] s[i]),
    ensures
        digits_val(s.take(a)) <= digits_val(s.take(b)),
    decreases b - a,
{
    if a < b {
        assert(s.take(a + 1).drop_last() =~= s.take(a));
        assert(s.take(a + 1).last() == s[a]);
        assert(digits_val(s.take(a + 1)) == digits_val(s.take(a)) * 10 + (s[a] - 0x30) as nat);
        assert(digits_val(s.take(a)) * 10 >= digits_val(s.take(a)));
        lemma_digits_val_mono(s, a + 1, b);
    }
}

/// Parsing the decimal representation of `n`, followed by anything that does
/// not start with a digit, yields `n` back.
pub proof fn lemma_parse_dec_rep(n: u64, rest: Seq<u8>)
    requires
        rest.len() == 0 || !is_digit(rest[0]),
    ensures
        parse_u64_head(dec_rep(n as nat) + rest) == Some((n, dec_rep(n as nat).len())),
{
    let p = dec_rep(n as nat);
    lemma_dec_rep(n as nat);
    lemma_digits_len_concat(p, rest);
    let s = p + rest;
    assert(s[0] == p[0]);
    assert(s.take(p.len() as int) =~= p);
    if s[0] == 0x30 {
        assert(n == 0);
    }
}

/// Scans a JSON unsigned-integer token starting at `i`.
pub fn scan_u64(v: &Vec<u8>, i: usize) -> (r: Option<(u64, usize)>)
    requires
        i <= v.len(),
    ensures
        match r {
            Some(p) => {
                &&& parse_u64_head(v@.skip(i as int)) == Some((p.0, (p.1 - i) as nat))
                &&& i < p.1 <= v.len()
            },
            None => parse_u64_head(v@.skip(i as int)) is None,
        },
{
    let ghost s = v@.skip(i as int);
    let mut j: usize = i;
    while j < v.len() && v[j] >= 0x30 && v[j] <= 0x39
        invariant
            i <= j <= v.len(),
            v@.skip(i as int) == s,
            digits_len(s) == (j - i) + digits_len(v@.skip(j as int)),
            forall|t: int| i <= t < j ==> is_digit(#[trigger] v@[t]),
        decreases v.len() - j,
    {
        proof {
            assert(v@.skip(j as int)[0] == v@[j as int]);
            assert(v@.skip(j as int).drop_first() =~= v@.skip(j as int + 1));
        }
        j = j + 1;
    }
    proof {
        if j < v.len() {
            assert(v@.skip(j as int)[0] == v@[j as int]);
        }
        assert(digits_len(v@.skip(j as int)) == 0);
        assert(digits_len(s) == j - i);
    }
    if j == i {
        return None;
    }
    if v[i] == 0x30 && j > i + 1 {
        proof {
            assert(s[0] == v@[i as int]);
        }
        return None;
    }
    let ghost k = digits_len(s) as int;
    proof {
        assert(s.take(k) =~= v@.subrange(i as int, j as int));
        lemma_digits_len_bound(s);
    }
    let mut acc: u64 = 0;
    let mut t: usize = i;
    while t < j
        invariant
            i <= t <= j <= v.len(),
            v@.skip(i as int) == s,
            k == j - i,
            digits_len(s) == k,
            s.take(k) =~= v@.subrange(i as int, j as int),
            forall|q: int| i <= q < j ==> is_digit(#[trigger] v@[q]),
            acc == digits_val(v@.subrange(i as int, t as int)),
        decreases j - t,
    {
        let d: u8 = v[t] - 0x30;
        let ghost pre = v@.subrange(i as int, t as int);
        proof {
            assert(v@.subrange(i as int, t as int + 1) =~= pre.push(v@[t as int]));
            lemma_digits_val_push(pre, v@[t as int]);
        }
        let step = match acc.checked_mul(10) {
            Some(a) => a.checked_add(d as u64),
            None => None,
        };
        match step {
            Some(a) => {
                acc = a;
            },
            None => {
                proof {
                    assert(digits_val(v@.subrange(i as int, t as int + 1)) > u64::MAX);
                    assert(forall|q: int| 0 <= q < s.len() && q < k ==> is_digit(#[trigger] s[q]));
                    assert forall|q: int| 0 <= q < s.take(k).len() implies is_digit(
                        #[trigger] s.take(k)[q],
                    ) by {
                        assert(s.take(k)[q] == v@[i + q]);
                    }
                    lemma_digits_val_mono(s.take(k), t + 1 - i, k);
                    assert(s.take(k).take(t + 1 - i) =~= v@.subrange(i as int, t as int + 1));
                    assert(s.take(k).take(k) =~= s.take(k));
                    assert(digits_val(s.take(k)) > u64::MAX);
                    assert(digits_len(s) == k);
                    assert(parse_u64_head(s) is None);
                }
                return None;
            },
        }
        t = t + 1;
    }
    proof {
        assert(v@.subrange(i as int, j as int) =~= s.take(k));
    }
    Some((acc, j))
}

// ---------------------------------------------------------------------------
// JSON strings
// ---------------------------------------------------------------------------
/// Lower-case hex digit for `n < 16`.
pub open spec fn hex_digit(n: nat) -> u8 {
    if n < 10 {
        (0x30 + n) as u8
    } else {
        (0x57 + n) as u8
    }
}

/// How the encoder writes one text byte inside a JSON string: quote and
/// backslash get a backslash escape, control bytes a `\u00xx` escape, and
/// every other byte stands for itself.
pub open spec fn esc_byte(b: u8) -> Seq<u8> {
    if b == 0x22 {
        seq![0x5cu8, 0x22u8]
    } else if b == 0x5c {
        seq![0x5cu8, 0x5cu8]
    } else if b < 0x20 {
        seq![
            0x5cu8,
            0x75u8,
            0x30u8,
            0x30u8,
            hex_digit((b / 16) as nat),
            hex_digit((b % 16) as nat),
        ]
    } else {
        seq![b]
    }
}

/// The escaped form of a whole text.
pub open spec fn escape(m: Seq<u8>) -> Seq<u8>
    decreases m.len(),
{
    if m.len() == 0 {
        Seq::empty()
    } else {
        escape(m.drop_last()) + esc_byte(m.last())
    }
}

/// Escaping distributes over concatenation.
pub proof fn lemma_escape_app(a: Seq<u8>, b: Seq<u8>)
    ensures
        escape(a + b) == escape(a) + escape(b),
    decreases b.len(),
{
    if b.len() == 0 {
        assert(a + b =~= a);
        assert(escape(b) =~= Seq::<u8>::empty());
        assert(escape(a) + escape(b) =~= escape(a));
    } else {
        assert((a + b).drop_last() =~= a + b.drop_last());
        assert((a + b).last() == b.last());
        lemma_escape_app(a, b.drop_last());
        assert(escape(a + b) == escape(a) + escape(b.drop_last()) + esc_byte(b.last()));
        assert(escape(a) + escape(b.drop_last()) + esc_byte(b.last()) =~= escape(a) + (escape(
            b.drop_last(),
        ) + esc_byte(b.last())));
    }
}

/// Escaping a nonempty text starts with the escape of its first byte.
proof fn lemma_escape_first(m: Seq<u8>)
    requires
        m.len() > 0,
    ensures
        escape(m) == esc_byte(m[0]) + escape(m.drop_first()),
{
    assert(m =~= seq![m[0]] + m.drop_first());
    lemma_escape_app(seq![m[0]], m.drop_first());
    assert(seq![m[0]].drop_last() =~= Seq::<u8>::empty());
    assert(seq![m[0]].last() == m[0]);
    assert(escape(seq![m[0]]) == escape(Seq::<u8>::empty()) + esc_byte(m[0]));
    assert(Seq::<u8>::empty() + esc_byte(m[0]) =~= esc_byte(m[0]));
}

/// How the decoder reads a one-character escape.
pub open spec fn unesc_byte(c: u8) -> Option<u8> {
    if c == 0x22 {
        Some(0x22u8)
    } else if c == 0x5c {
        Some(0x5cu8)
    } else if c == 0x2f {
        Some(0x2fu8)
    } else if c == 0x62 {
        Some(0x08u8)
    } else if c == 0x66 {
        Some(0x0cu8)
    } else if c == 0x6e {
        Some(0x0au8)
    } else if c == 0x72 {
        Some(0x0du8)
    } else if c == 0x74 {
        Some(0x09u8)
    } else {
        None
    }
}

/// ASCII hex digit?
pub open spec fn is_hex(b: u8) -> bool {
    is_digit(b) || (0x41 <= b && b <= 0x46) || (0x61 <= b && b <= 0x66)
}

/// Value of an ASCII hex digit.
pub open spec fn hex_val(b: u8) -> nat {
    if is_digit(b) {
        (b - 0x30) as nat
    } else if 0x41 <= b && b <= 0x46 {
        (b - 0x37) as nat
    } else {
        (b - 0x57) as nat
    }
}

proof fn lemma_hex_digit_val(n: nat)
    requires
        n < 16,
    ensures
        is_hex(hex_digit(n)),
        hex_val(hex_digit(n)) == n,
{
}

/// Parses a JSON string body (everything after the opening quote) up to and
/// including the closing quote.  Returns the decoded text and the number of
/// input bytes consumed.  Accepted escapes: the single-character ones and
/// `\u00xx` for ASCII; raw control bytes are rejected, as JSON requires.
pub open spec fn parse_str_body(s: Seq<u8>) -> Option<(Seq<u8>, nat)>
    decreases s.len(),
{
    if s.len() == 0 {
        None
    } else if s[0] == 0x22 {
        Some((Seq::empty(), 1))
    } else if s[0] == 0x5c {
        if s.len() < 2 {
            None
        } else {
            match unesc_byte(s[1]) {
                Some(u) => match parse_str_body(s.skip(2)) {
                    Some(t) => Some((seq![u] + t.0, (t.1 + 2) as nat)),
                    None => None,
                },
                None => if s[1] == 0x75 {
                    if s.len() >= 6 && s[2] == 0x30 && s[3] == 0x30 && is_hex(s[4]) && is_hex(s[5])
                        && hex_val(s[4]) * 16 + hex_val(s[5]) < 0x80 {
                        match parse_str_body(s.skip(6)) {
                            Some(t) => Some(
                                (
                                    seq![(hex_val(s[4]) * 16 + hex_val(s[5])) as u8] + t.0,
                                    (t.1 + 6) as nat,
                                ),
                            ),
                            None => None,
                        }
                    } else {
                        None
                    }
                } else {
                    None
                },
            }
        }
    } else if s[0] < 0x20 {
        None
    } else {
        match parse_str_body(s.skip(1)) {
            Some(t) => Some((seq![s[0]] + t.0, (t.1 + 1) as nat)),
            None => None,
        }
    }
}

/// Decoding inverts encoding: the escaped text, a closing quote and anything
/// after parse back to the original text.
pub proof fn lemma_parse_escape(m: Seq<u8>, rest: Seq<u8>)
    ensures
        parse_str_body(escape(m) + seq![0x22u8] + rest) == Some(
            (m, (escape(m).len() + 1) as nat),
        ),
    decreases m.len(),
{
    let s = escape(m) + seq![0x22u8] + rest;
    if m.len() == 0 {
        assert(escape(m) =~= Seq::<u8>::empty());
        assert(s[0] == 0x22);
        assert(m =~= Seq::<u8>::empty());
    } else {
        let b = m[0];
        let m1 = m.drop_first();
        lemma_escape_first(m);
        lemma_parse_escape(m1, rest);
        let tail = escape(m1) + seq![0x22u8] + rest;
        assert(s =~= esc_byte(b) + tail);
        let e = esc_byte(b);
        assert(forall|q: int| 0 <= q < e.len() ==> s[q] == e[q]);
        if b == 0x22 {
            assert(s[0] == 0x5c && s[1] == 0x22);
            assert(s.skip(2) =~= tail);
            assert(seq![b] + m1 =~= m);
        } else if b == 0x5c {
            assert(s[0] == 0x5c && s[1] == 0x5c);
            assert(s.skip(2) =~= tail);
            assert(seq![b] + m1 =~= m);
        } else if b < 0x20 {
            assert(s[0] == 0x5c && s[1] == 0x75 && s[2] == 0x30 && s[3] == 0x30);
            assert(unesc_byte(0x75u8) is None);
            assert(s[4] == hex_digit((b / 16) as nat) && s[5] == hex_digit((b % 16) as nat));
            lemma_hex_digit_val((b / 16) as nat);
            lemma_hex_digit_val((b % 16) as nat);
            assert(b / 16 * 16 + b % 16 == b);
            assert(hex_val(s[4]) * 16 + hex_val(s[5]) == b);
            assert(s.skip(6) =~= tail);
            assert(seq![b] + m1 =~= m);
        } else {
            assert(s[0] == b);
            assert(s.skip(1) =~= tail);
            assert(seq![b] + m1 =~= m);
        }
    }
}

/// A text whose bytes need no escaping is its own escaped form.
pub open spec fn is_plain(b: u8) -> bool {
    b >= 0x20 && b != 0x22 && b != 0x5c
}

pub proof fn lemma_escape_plain(m: Seq<u8>)
    requires
        forall|i: int| 0 <= i < m.len() ==> is_plain(#[trigger] m[i]),
    ensures
        escape(m) == m,
    decreases m.len(),
{
    if m.len() > 0 {
        lemma_escape_plain(m.drop_last());
        assert(esc_byte(m.last()) =~= seq![m.last()]);
        assert(m.drop_last() + seq![m.last()] =~= m);
    } else {
        assert(escape(m) =~= m);
    }
}

/// Appends the escaped form of `m` to `out`.
pub fn push_escaped(out: &mut Vec<u8>, m: &Vec<u8>)
    ensures
        final(out)@ == old(out)@ + escape(m@),
{
    let mut i: usize = 0;
    proof {
        assert(escape(m@.take(0)) =~= Seq::<u8>::empty());
        assert(out@ + escape(m@.take(0)) =~= out@);
    }
    while i < m.len()
        invariant
            i <= m.len(),
            out@ == old(out)@ + escape(m@.take(i as int)),
        decreases m.len() - i,
    {
        let b = m[i];
        if b == 0x22 {
            out.push(0x5c);
            out.push(0x22);
        } else if b == 0x5c {
            out.push(0x5c);
            out.push(0x5c);
        } else if b < 0x20 {
            out.push(0x5c);
            out.push(0x75);
            out.push(0x30);
            out.push(0x30);
            let hi = b / 16;
            let lo = b % 16;
            out.push(if hi < 10 { 0x30 + hi } else { 0x57 + hi });
            out.push(if lo < 10 { 0x30 + lo } else { 0x57 + lo });
        } else {
            out.push(b);
        }
        proof {
            assert(m@.take(i + 1).drop_last() =~= m@.take(i as int));
            assert(m@.take(i + 1).last() == m@[i as int]);
            assert(escape(m@.take(i + 1)) == escape(m@.take(i as int)) + esc_byte(m@[i as int]));
            assert(out@ =~= old(out)@ + escape(m@.take(i + 1)));
        }
        i = i + 1;
    }
    proof {
        assert(m@.take(m@.len() as int) =~= m@);
    }
}

/// Reads one escape letter, mirroring `unesc_byte`.
fn unesc(c: u8) -> (r: Option<u8>)
    ensures
        r == unesc_byte(c),
{
    if c == 0x22 {
        Some(0x22u8)
    } else if c == 0x5c {
        Some(0x5cu8)
    } else if c == 0x2f {
        Some(0x2fu8)
    } else if c == 0x62 {
        Some(0x08u8)
    } else if c == 0x66 {
        Some(0x0cu8)
    } else if c == 0x6e {
        Some(0x0au8)
    } else if c == 0x72 {
        Some(0x0du8)
    } else if c == 0x74 {
        Some(0x09u8)
    } else {
        None
    }
}

/// Reads one hex digit, mirroring `is_hex` / `hex_val`.
fn hex_digit_val(b: u8) -> (r: Option<u8>)
    ensures
        match r {
            Some(x) => is_hex(b) && x == hex_val(b),
            None => !is_hex(b),
        },
{
    if b >= 0x30 && b <= 0x39 {
        Some(b - 0x30)
    } else if b >= 0x41 && b <= 0x46 {
        Some(b - 0x37)
    } else if b >= 0x61 && b <= 0x66 {
        Some(b - 0x57)
    } else {
        None
    }
}

/// What a partly consumed string body still owes: the spec result shifted by
/// what has already been decoded (`acc`) and consumed (`delta`).
pub open spec fn str_cont(o: Option<(Seq<u8>, nat)>, acc: Seq<u8>, delta: nat) -> Option<
    (Seq<u8>, nat),
> {
    match o {
        Some(t) => Some((acc + t.0, (t.1 + delta) as nat)),
        None => None,
    }
}

/// Scans a JSON string body starting at `i` (just after the opening quote).
pub fn scan_string(v: &Vec<u8>, i: usize) -> (r: Option<(Vec<u8>, usize)>)
    requires
        i <= v.len(),
    ensures
        match r {
            Some(p) => {
                &&& parse_str_body(v@.skip(i as int)) == Some((p.0@, (p.1 - i) as nat))
                &&& i < p.1 <= v.len()
            },
            None => parse_str_body(v@.skip(i as int)) is None,
        },
{
    let ghost s = v@.skip(i as int);
    let mut acc: Vec<u8> = Vec::new();
    let mut j: usize = i;
    proof {
        assert(str_cont(parse_str_body(s), Seq::<u8>::empty(), 0) == parse_str_body(s));
    }
    loop
        invariant
            i <= j <= v.len(),
            v@.skip(i as int) == s,
            parse_str_body(s) == str_cont(parse_str_body(v@.skip(j as int)), acc@, (j - i) as nat),
        decreases v.len() - j,
    {
        let ghost sj = v@.skip(j as int);
        if j == v.len() {
            proof {
                assert(sj.len() == 0);
            }
            return None;
        }
        proof {
            assert(sj[0] == v@[j as int]);
        }
        let b = v[j];
        if b == 0x22 {
            proof {
                assert(parse_str_body(sj) == Some((Seq::<u8>::empty(), 1nat)));
                assert(acc@ + Seq::<u8>::empty() =~= acc@);
            }
            return Some((acc, j + 1));
        } else if b == 0x5c {
            if j + 1 == v.len() {
                proof {
                    assert(sj.len() == 1);
                }
                return None;
            }
            proof {
                assert(sj.len() >= 2);
                assert(sj[1] == v@[j + 1]);
            }
            let c = v[j + 1];
            match unesc(c) {
                Some(u) => {
                    let ghost pre = acc@;
                    acc.push(u);
                    proof {
                        assert(sj.skip(2) =~= v@.skip(j + 2));
                        assert(pre + (seq![u] + parse_str_body(v@.skip(j + 2)).unwrap().0) =~= acc@
                            + parse_str_body(v@.skip(j + 2)).unwrap().0) by {
                            assert(acc@ =~= pre + seq![u]);
                        }
                        assert(parse_str_body(s) == str_cont(
                            parse_str_body(v@.skip(j + 2)),
                            acc@,
                            (j + 2 - i) as nat,
                        ));
                    }
                    j = j + 2;
                },
                None => {
                    if c != 0x75 {
                        return None;
                    }
                    if v.len() - j < 6 {
                        proof {
                            assert(sj.len() < 6);
                        }
                        return None;
                    }
                    proof {
                        assert(sj.len() >= 6);
                        assert(sj[2] == v@[j + 2]);
                        assert(sj[3] == v@[j + 3]);
                        assert(sj[4] == v@[j + 4]);
                        assert(sj[5] == v@[j + 5]);
                    }
                    if v[j + 2] != 0x30 || v[j + 3] != 0x30 {
                        return None;
                    }
                    let h = hex_digit_val(v[j + 4]);
                    let l = hex_digit_val(v[j + 5]);
                    match (h, l) {
                        (Some(hv), Some(lv)) => {
                            if hv >= 8 {
                                proof {
                                    assert(hex_val(sj[4]) * 16 + hex_val(sj[5]) >= 0x80);
                                }
                                return None;
                            }
                            let u: u8 = hv * 16 + lv;
                            let ghost pre = acc@;
                            acc.push(u);
                            proof {
                                assert(hex_val(sj[4]) * 16 + hex_val(sj[5]) < 0x80);
                                assert(u == (hex_val(sj[4]) * 16 + hex_val(sj[5])) as u8);
                                assert(sj.skip(6) =~= v@.skip(j + 6));
                                assert(pre + (seq![u] + parse_str_body(
                                    v@.skip(j + 6),
                                ).unwrap().0) =~= acc@ + parse_str_body(v@.skip(j + 6)).unwrap().0)
                                    by {
                                    assert(acc@ =~= pre + seq![u]);
                                }
                                assert(parse_str_body(s) == str_cont(
                                    parse_str_body(v@.skip(j + 6)),
                                    acc@,
                                    (j + 6 - i) as nat,
                                ));
                            }
                            j = j + 6;
                        },
                        _ => {
                            return None;
                        },
                    }
                },
            }
        } else if b < 0x20 {
            return None;
        } else {
            let ghost pre = acc@;
            acc.push(b);
            proof {
                assert(sj.skip(1) =~= v@.skip(j + 1));
                assert(pre + (seq![b] + parse_str_body(v@.skip(j + 1)).unwrap().0) =~= acc@
                    + parse_str_body(v@.skip(j + 1)).unwrap().0) by {
                    assert(acc@ =~= pre + seq![b]);
                }
                assert(parse_str_body(s) == str_cont(
                    parse_str_body(v@.skip(j + 1)),
                    acc@,
                    (j + 1 - i) as nat,
                ));
            }
            j = j + 1;
        }
    }
}

// ---------------------------------------------------------------------------
// Whitespace and keys
// ---------------------------------------------------------------------------
/// JSON whitespace?
pub open spec fn is_ws(b: u8) -> bool {
    b == 0x20 || b == 0x09 || b == 0x0a || b == 0x0d
}

/// Length of the longest whitespace prefix of `s`.
pub open spec fn ws_len(s: Seq<u8>) -> nat
    decreases s.len(),
{
    if s.len() == 0 || !is_ws(s[0]) {
        0
    } else {
        (1 + ws_len(s.drop_first())) as nat
    }
}

/// Skips whitespace starting at `i`.
fn skip_ws(v: &Vec<u8>, i: usize) -> (j: usize)
    requires
        i <= v.len(),
    ensures
        i <= j <= v.len(),
        (j - i) as nat == ws_len(v@.skip(i as int)),
        j < v.len() ==> !is_ws(v@[j as int]),
{
    let ghost s = v@.skip(i as int);
    let mut j: usize = i;
    while j < v.len() && (v[j] == 0x20 || v[j] == 0x09 || v[j] == 0x0a || v[j] == 0x0d)
        invariant
            i <= j <= v.len(),
            v@.skip(i as int) == s,
            ws_len(s) == (j - i) + ws_len(v@.skip(j as int)),
        decreases v.len() - j,
    {
        proof {
            assert(v@.skip(j as int)[0] == v@[j as int]);
            assert(v@.skip(j as int).drop_first() =~= v@.skip(j as int + 1));
        }
        j = j + 1;
    }
    proof {
        if j < v.len() {
            assert(v@.skip(j as int)[0] == v@[j as int]);
        }
        assert(ws_len(v@.skip(j as int)) == 0);
    }
    j
}

/// The key `"message"` as bytes.
pub open spec fn msg_key() -> Seq<u8> {
    seq![0x6du8, 0x65u8, 0x73u8, 0x73u8, 0x61u8, 0x67u8, 0x65u8]
}

/// The key `"sequence"` as bytes.
pub open spec fn seq_key() -> Seq<u8> {
    seq![0x73u8, 0x65u8, 0x71u8, 0x75u8, 0x65u8, 0x6eu8, 0x63u8, 0x65u8]
}

/// The key `"total_pings"` as bytes: the wire's historical spelling of the
/// counter field.
pub open spec fn total_key() -> Seq<u8> {
    seq![0x74u8, 0x6fu8, 0x74u8, 0x61u8, 0x6cu8, 0x5fu8, 0x70u8, 0x69u8, 0x6eu8, 0x67u8, 0x73u8]
}

fn make_msg_key() -> (v: Vec<u8>)
    ensures
        v@ == msg_key(),
{
    let mut v: Vec<u8> = Vec::new();
    v.push(0x6d);
    v.push(0x65);
    v.push(0x73);
    v.push(0x73);
    v.push(0x61);
    v.push(0x67);
    v.push(0x65);
    proof {
        assert(v@ =~= msg_key());
    }
    v
}

fn make_seq_key() -> (v: Vec<u8>)
    ensures
        v@ == seq_key(),
{
    let mut v: Vec<u8> = Vec::new();
    v.push(0x73);
    v.push(0x65);
    v.push(0x71);
    v.push(0x75);
    v.push(0x65);
    v.push(0x6e);
    v.push(0x63);
    v.push(0x65);
    proof {
        assert(v@ =~= seq_key());
    }
    v
}

fn make_total_key() -> (v: Vec<u8>)
    ensures
        v@ == total_key(),
{
    let mut v: Vec<u8> = Vec::new();
    v.push(0x74);
    v.push(0x6f);
    v.push(0x74);
    v.push(0x61);
    v.push(0x6c);
    v.push(0x5f);
    v.push(0x70);
    v.push(0x69);
    v.push(0x6e);
    v.push(0x67);
    v.push(0x73);
    proof {
        assert(v@ =~= total_key());
    }
    v
}

/// Byte-wise equality of two byte vectors.
pub(crate) fn bytes_eq(a: &Vec<u8>, b: &Vec<u8>) -> (r: bool)
    ensures
        r <==> a@ == b@,
{
    if a.len() != b.len() {
        proof {
            assert(a@ != b@) by {
                if a@ == b@ {
                    assert(a@.len() == b@.len());
                }
            }
        }
        return false;
    }
    let mut i: usize = 0;
    while i < a.len()
        invariant
            i <= a.len(),
            a@.len() == b@.len(),
            forall|q: int| 0 <= q < i ==> a@[q] == b@[q],
        decreases a.len() - i,
    {
        if a[i] != b[i] {
            proof {
                assert(a@ != b@) by {
                    if a@ == b@ {
                        assert(a@[i as int] == b@[i as int]);
                    }
                }
            }
            return false;
        }
        i = i + 1;
    }
    proof {
        assert(a@ =~= b@);
    }
    true
}

/// Lifts the value of an optional byte vector.
pub open spec fn ov(o: Option<Vec<u8>>) -> Option<Seq<u8>> {
    match o {
        Some(v) => Some(v@),
        None => None,
    }
}

// ---------------------------------------------------------------------------
// Request frames
// ---------------------------------------------------------------------------
/// A key wrapped in quotes, written without escaping (keys need none).
pub open spec fn quoted(k: Seq<u8>) -> Seq<u8> {
    seq![0x22u8] + k + seq![0x22u8]
}

/// A JSON string: the escaped text in quotes.
pub open spec fn json_string(m: Seq<u8>) -> Seq<u8> {
    seq![0x22u8] + escape(m) + seq![0x22u8]
}

/// The canonical encoding of a request.
pub open spec fn ping_json(p: PingV) -> Seq<u8> {
    seq![0x7bu8] + quoted(msg_key()) + seq![0x3au8] + json_string(p.message) + seq![0x2cu8]
        + quoted(seq_key()) + seq![0x3au8] + dec_rep(p.sequence as nat) + seq![0x7du8]
}

/// The canonical encoding of a reply.  The counter travels as `total_pings`.
pub open spec fn pong_json(p: PongV) -> Seq<u8> {
    seq![0x7bu8] + quoted(msg_key()) + seq![0x3au8] + json_string(p.message) + seq![0x2cu8]
        + quoted(seq_key()) + seq![0x3au8] + dec_rep(p.sequence as nat) + seq![0x2cu8] + quoted(
        total_key(),
    ) + seq![0x3au8] + dec_rep(p.total_pings as nat) + seq![0x7du8]
}

/// One `"key": value` member of a request object, starting at the head of
/// `s`.  `msg` and `sq` say which fields were already seen; a duplicate or an
/// unknown key rejects the frame.  Returns the updated fields and the bytes
/// consumed.
#[verifier::opaque]
pub open spec fn parse_ping_member(s: Seq<u8>, msg: Option<Seq<u8>>, sq: Option<u64>) -> Option<
    (Option<Seq<u8>>, Option<u64>, nat),
> {
    let w0 = ws_len(s);
    let s1 = s.skip(w0 as int);
    if s1.len() == 0 || s1[0] != 0x22 {
        None
    } else {
        match parse_str_body(s1.skip(1)) {
            None => None,
            Some(kt) => {
                let p1 = w0 + 1 + kt.1;
                let s2 = s.skip(p1 as int);
                let w1 = ws_len(s2);
                let s3 = s2.skip(w1 as int);
                if s3.len() == 0 || s3[0] != 0x3a {
                    None
                } else {
                    let p2 = p1 + w1 + 1;
                    let s4 = s.skip(p2 as int);
                    let w2 = ws_len(s4);
                    let s5 = s4.skip(w2 as int);
                    let p3 = p2 + w2;
                    if kt.0 == msg_key() {
                        if msg is Some {
                            None
                        } else if s5.len() == 0 || s5[0] != 0x22 {
                            None
                        } else {
                            match parse_str_body(s5.skip(1)) {
                                None => None,
                                Some(vt) => Some((Some(vt.0), sq, (p3 + 1 + vt.1) as nat)),
                            }
                        }
                    } else if kt.0 == seq_key() {
                        if sq is Some {
                            None
                        } else {
                            match parse_u64_head(s5) {
                                None => None,
                                Some(nt) => Some((msg, Some(nt.0), (p3 + nt.1) as nat)),
                            }
                        }
                    } else {
                        None
                    }
                }
            },
        }
    }
}

/// A whole request frame: `{`, two members (in either order, one per field),
/// `}`, nothing but whitespace around them.
pub open spec fn parse_ping_frame(s: Seq<u8>) -> Option<PingV> {
    let w0 = ws_len(s);
    let s1 = s.skip(w0 as int);
    if s1.len() == 0 || s1[0] != 0x7b {
        None
    } else {
        match parse_ping_member(s1.skip(1), None, None) {
            None => None,
            Some(m1) => {
                let s2 = s1.skip(1 + m1.2 as int);
                let w1 = ws_len(s2);
                let s3 = s2.skip(w1 as int);
                if s3.len() == 0 || s3[0] != 0x2c {
                    None
                } else {
                    match parse_ping_member(s3.skip(1), m1.0, m1.1) {
                        None => None,
                        Some(m2) => {
                            let s4 = s3.skip(1 + m2.2 as int);
                            let w2 = ws_len(s4);
                            let s5 = s4.skip(w2 as int);
                            if s5.len() == 0 || s5[0] != 0x7d {
                                None
                            } else if ws_len(s5.skip(1)) != s5.len() - 1 {
                                None
                            } else {
                                match (m2.0, m2.1) {
                                    (Some(m), Some(q)) => Some(PingV { message: m, sequence: q }),
                                    _ => None,
                                }
                            }
                        },
                    }
                }
            },
        }
    }
}

/// Encodes a request in the canonical compact form.
#[verifier::rlimit(100)]
pub fn encode_ping(p: &Ping) -> (v: Vec<u8>)
    ensures
        v@ == ping_json(p@),
{
    let mut out: Vec<u8> = Vec::new();
    out.push(0x7b);
    out.push(0x22);
    out.push(0x6d);
    out.push(0x65);
    out.push(0x73);
    out.push(0x73);
    out.push(0x61);
    out.push(0x67);
    out.push(0x65);
    out.push(0x22);
    out.push(0x3a);
    out.push(0x22);
    proof {
        assert(out@ =~= seq![0x7bu8] + quoted(msg_key()) + seq![0x3au8] + seq![0x22u8]);
    }
    push_escaped(&mut out, &p.message);
    out.push(0x22);
    proof {
        assert(out@ =~= seq![0x7bu8] + quoted(msg_key()) + seq![0x3au8] + json_string(p.message@));
    }
    let ghost mid = out@;
    out.push(0x2c);
    out.push(0x22);
    out.push(0x73);
    out.push(0x65);
    out.push(0x71);
    out.push(0x75);
    out.push(0x65);
    out.push(0x6e);
    out.push(0x63);
    out.push(0x65);
    out.push(0x22);
    out.push(0x3a);
    proof {
        assert(out@ =~= mid + seq![0x2cu8] + quoted(seq_key()) + seq![0x3au8]);
    }
    let d = u64_to_dec(p.sequence);
    out.extend_from_slice(d.as_slice());
    out.push(0x7d);
    proof {
        assert(out@ =~= ping_json(p@));
    }
    out
}

/// Scans one request member starting at `i`, carrying the fields seen so far.
fn scan_ping_member(v: &Vec<u8>, i: usize, msg: Option<Vec<u8>>, sq: Option<u64>) -> (r: Option<
    (Option<Vec<u8>>, Option<u64>, usize),
>)
    requires
        i <= v.len(),
    ensures
        match r {
            Some(t) => {
                &&& i < t.2 <= v.len()
                &&& parse_ping_member(v@.skip(i as int), ov(msg), sq) == Some(
                    (ov(t.0), t.1, (t.2 - i) as nat),
                )
            },
            None => parse_ping_member(v@.skip(i as int), ov(msg), sq) is None,
        },
{
    proof {
        reveal(parse_ping_member);
    }
    let ghost s = v@.skip(i as int);
    let j0 = skip_ws(v, i);
    let ghost s1 = s.skip((j0 - i) as int);
    proof {
        assert(s1 =~= v@.skip(j0 as int));
        if j0 < v.len() {
            assert(s1[0] == v@[j0 as int]);
        }
    }
    if j0 == v.len() {
        return None;
    }
    if v[j0] != 0x22 {
        return None;
    }
    proof {
        assert(s1.skip(1) =~= v@.skip(j0 + 1));
    }
    let key_scan = scan_string(v, j0 + 1);
    match key_scan {
        None => None,
        Some((key, j1)) => {
            let ghost p1 = (j0 - i) + 1 + (j1 - (j0 + 1));
            proof {
                assert(s.skip(p1 as int) =~= v@.skip(j1 as int));
            }
            let j2 = skip_ws(v, j1);
            let ghost s3 = v@.skip(j2 as int);
            proof {
                assert(v@.skip(j1 as int).skip((j2 - j1) as int) =~= s3);
                if j2 < v.len() {
                    assert(s3[0] == v@[j2 as int]);
                }
            }
            if j2 == v.len() {
                return None;
            }
            if v[j2] != 0x3a {
                return None;
            }
            let ghost p2 = p1 + (j2 - j1) + 1;
            proof {
                assert(s.skip(p2 as int) =~= v@.skip(j2 + 1));
            }
            let j3 = skip_ws(v, j2 + 1);
            let ghost s5 = v@.skip(j3 as int);
            proof {
                assert(v@.skip(j2 + 1).skip((j3 - (j2 + 1)) as int) =~= s5);
                if j3 < v.len() {
                    assert(s5[0] == v@[j3 as int]);
                }
            }
            let mk = make_msg_key();
            let sk = make_seq_key();
            if bytes_eq(&key, &mk) {
                if msg.is_some() {
                    return None;
                }
                if j3 == v.len() {
                    return None;
                }
                if v[j3] != 0x22 {
                    return None;
                }
                proof {
                    assert(s5.skip(1) =~= v@.skip(j3 + 1));
                }
                match scan_string(v, j3 + 1) {
                    None => None,
                    Some((val, j4)) => {
                        proof {
                            assert(parse_ping_member(s, ov(msg), sq) == Some(
                                (Some(val@), sq, (j4 - i) as nat),
                            ));
                        }
                        Some((Some(val), sq, j4))
                    },
                }
            } else if bytes_eq(&key, &sk) {
                if sq.is_some() {
                    return None;
                }
                match scan_u64(v, j3) {
                    None => None,
                    Some((x, j4)) => {
                        proof {
                            assert(parse_ping_member(s, ov(msg), sq) == Some(
                                (ov(msg), Some(x), (j4 - i) as nat),
                            ));
                        }
                        Some((msg, Some(x), j4))
                    },
                }
            } else {
                None
            }
        },
    }
}

/// Parses a request frame.  Returns the request exactly when the frame is
/// well-formed; a malformed frame yields nothing (and the connection that
/// carried it stays open).
#[verifier::rlimit(100)]
pub fn parse_ping(v: &Vec<u8>) -> (r: Option<Ping>)
    ensures
        match r {
            Some(p) => parse_ping_frame(v@) == Some(p@),
            None => parse_ping_frame(v@) is None,
        },
{
    let i0 = skip_ws(v, 0);
    let ghost s1 = v@.skip(i0 as int);
    proof {
        assert(v@.skip(0) =~= v@);
        if i0 < v.len() {
            assert(s1[0] == v@[i0 as int]);
        }
    }
    if i0 == v.len() {
        return None;
    }
    if v[i0] != 0x7b {
        return None;
    }
    proof {
        assert(s1.skip(1) =~= v@.skip(i0 + 1));
    }
    match scan_ping_member(v, i0 + 1, None, None) {
        None => None,
        Some((f1m, f1s, j1)) => {
            proof {
                assert(s1.skip(1 + (j1 - (i0 + 1)) as int) =~= v@.skip(j1 as int));
            }
            let j2 = skip_ws(v, j1);
            let ghost s3 = v@.skip(j2 as int);
            proof {
                assert(v@.skip(j1 as int).skip((j2 - j1) as int) =~= s3);
                if j2 < v.len() {
                    assert(s3[0] == v@[j2 as int]);
                }
            }
            if j2 == v.len() {
                return None;
            }
            if v[j2] != 0x2c {
                return None;
            }
            proof {
                assert(s3.skip(1) =~= v@.skip(j2 + 1));
            }
            match scan_ping_member(v, j2 + 1, f1m, f1s) {
                None => None,
                Some((f2m, f2s, j3)) => {
                    proof {
                        assert(s3.skip(1 + (j3 - (j2 + 1)) as int) =~= v@.skip(j3 as int));
                    }
                    let j4 = skip_ws(v, j3);
                    let ghost s5 = v@.skip(j4 as int);
                    proof {
                        assert(v@.skip(j3 as int).skip((j4 - j3) as int) =~= s5);
                        if j4 < v.len() {
                            assert(s5[0] == v@[j4 as int]);
                        }
                    }
                    if j4 == v.len() {
                        return None;
                    }
                    if v[j4] != 0x7d {
                        return None;
                    }
                    let j5 = skip_ws(v, j4 + 1);
                    proof {
                        assert(s5.skip(1) =~= v@.skip(j4 + 1));
                        assert(s5.skip(1).len() == s5.len() - 1);
                    }
                    if j5 != v.len() {
                        proof {
                            assert(ws_len(s5.skip(1)) != s5.len() - 1);
                        }
                        return None;
                    }
                    proof {
                        assert(ws_len(s5.skip(1)) == s5.len() - 1);
                    }
                    match (f2m, f2s) {
                        (Some(m), Some(q)) => Some(Ping { message: m, sequence: q }),
                        _ => None,
                    }
                },
            }
        },
    }
}

// ---------------------------------------------------------------------------
// Round trip: parsing inverts encoding
// ---------------------------------------------------------------------------
/// A quoted text of plain bytes followed by anything parses back unchanged.
proof fn lemma_parse_plain(k: Seq<u8>, rest: Seq<u8>)
    requires
        forall|i: int| 0 <= i < k.len() ==> is_plain(#[trigger] k[i]),
    ensures
        parse_str_body(k + seq![0x22u8] + rest) == Some((k, (k.len() + 1) as nat)),
    decreases k.len(),
{
    let s = k + seq![0x22u8] + rest;
    if k.len() == 0 {
        assert(s[0] == 0x22);
        assert(k =~= Seq::<u8>::empty());
    } else {
        assert(s[0] == k[0]);
        assert(s.skip(1) =~= k.drop_first() + seq![0x22u8] + rest);
        assert(forall|i: int|
            0 <= i < k.drop_first().len() ==> is_plain(#[trigger] k.drop_first()[i]));
        lemma_parse_plain(k.drop_first(), rest);
        assert(seq![k[0]] + k.drop_first() =~= k);
    }
}

/// The byte form of the `"message"` member with text `m`.
pub open spec fn member_msg(m: Seq<u8>) -> Seq<u8> {
    quoted(msg_key()) + seq![0x3au8] + json_string(m)
}

/// The byte form of the `"sequence"` member with value `n`.
pub open spec fn member_seq(n: u64) -> Seq<u8> {
    quoted(seq_key()) + seq![0x3au8] + dec_rep(n as nat)
}

/// The byte form of the `"total_pings"` member with value `t`.
pub open spec fn member_total(t: u64) -> Seq<u8> {
    quoted(total_key()) + seq![0x3au8] + dec_rep(t as nat)
}

proof fn lemma_keys_plain()
    ensures
        forall|i: int| 0 <= i < msg_key().len() ==> is_plain(#[trigger] msg_key()[i]),
        forall|i: int| 0 <= i < seq_key().len() ==> is_plain(#[trigger] seq_key()[i]),
        forall|i: int| 0 <= i < total_key().len() ==> is_plain(#[trigger] total_key()[i]),
{
    assert forall|i: int| 0 <= i < msg_key().len() implies is_plain(#[trigger] msg_key()[i]) by {
        if i == 0 {
        } else if i == 1 {
        } else if i == 2 {
        } else if i == 3 {
        } else if i == 4 {
        } else if i == 5 {
        } else {
            assert(i == 6);
        }
    }
    assert forall|i: int| 0 <= i < seq_key().len() implies is_plain(#[trigger] seq_key()[i]) by {
        if i == 0 {
        } else if i == 1 {
        } else if i == 2 {
        } else if i == 3 {
        } else if i == 4 {
        } else if i == 5 {
        } else if i == 6 {
        } else {
            assert(i == 7);
        }
    }
    assert forall|i: int| 0 <= i < total_key().len() implies is_plain(
        #[trigger] total_key()[i],
    ) by {
        if i == 0 {
        } else if i == 1 {
        } else if i == 2 {
        } else if i == 3 {
        } else if i == 4 {
        } else if i == 5 {
        } else if i == 6 {
        } else if i == 7 {
        } else if i == 8 {
        } else if i == 9 {
        } else {
            assert(i == 10);
        }
    }
}

proof fn lemma_member_msg(m: Seq<u8>, rest: Seq<u8>, sq: Option<u64>)
    ensures
        parse_ping_member(member_msg(m) + rest, None, sq) == Some(
            (Some(m), sq, member_msg(m).len() as nat),
        ),
{
    reveal(parse_ping_member);
    let s = member_msg(m) + rest;
    assert(s =~= seq![0x22u8] + msg_key() + seq![0x22u8] + seq![0x3au8] + seq![0x22u8] + escape(m)
        + seq![0x22u8] + rest);
    assert(s[0] == 0x22);
    assert(ws_len(s) == 0);
    assert(s.skip(0) =~= s);
    assert(s.skip(1) =~= msg_key() + seq![0x22u8] + (seq![0x3au8] + json_string(m) + rest));
    lemma_keys_plain();
    lemma_parse_plain(msg_key(), seq![0x3au8] + json_string(m) + rest);
    let kt = parse_str_body(s.skip(1)).unwrap();
    assert(kt.0 == msg_key() && kt.1 == 8);
    let s2 = s.skip(9);
    assert(s2 =~= seq![0x3au8] + json_string(m) + rest);
    assert(s2[0] == 0x3a);
    assert(ws_len(s2) == 0);
    assert(s2.skip(0) =~= s2);
    let s4 = s.skip(10);
    assert(s4 =~= json_string(m) + rest);
    assert(s4 =~= seq![0x22u8] + (escape(m) + seq![0x22u8] + rest));
    assert(s4[0] == 0x22);
    assert(ws_len(s4) == 0);
    assert(s4.skip(0) =~= s4);
    assert(s4.skip(1) =~= escape(m) + seq![0x22u8] + rest);
    lemma_parse_escape(m, rest);
    let vt = parse_str_body(s4.skip(1)).unwrap();
    assert(vt.0 == m && vt.1 == escape(m).len() + 1);
    assert(member_msg(m).len() == 12 + escape(m).len());
}

proof fn lemma_member_seq(n: u64, rest: Seq<u8>, msg: Option<Seq<u8>>)
    requires
        rest.len() == 0 || !is_digit(rest[0]),
    ensures
        parse_ping_member(member_seq(n) + rest, msg, None) == Some(
            (msg, Some(n), member_seq(n).len() as nat),
        ),
{
    reveal(parse_ping_member);
    let s = member_seq(n) + rest;
    assert(s =~= seq![0x22u8] + seq_key() + seq![0x22u8] + seq![0x3au8] + dec_rep(n as nat)
        + rest);
    assert(s[0] == 0x22);
    assert(ws_len(s) == 0);
    assert(s.skip(0) =~= s);
    assert(s.skip(1) =~= seq_key() + seq![0x22u8] + (seq![0x3au8] + dec_rep(n as nat) + rest));
    lemma_keys_plain();
    lemma_parse_plain(seq_key(), seq![0x3au8] + dec_rep(n as nat) + rest);
    let kt = parse_str_body(s.skip(1)).unwrap();
    assert(kt.0 == seq_key() && kt.1 == 9);
    assert(seq_key() != msg_key()) by {
        assert(seq_key().len() != msg_key().len());
    }
    let s2 = s.skip(10);
    assert(s2 =~= seq![0x3au8] + dec_rep(n as nat) + rest);
    assert(s2[0] == 0x3a);
    assert(ws_len(s2) == 0);
    assert(s2.skip(0) =~= s2);
    let s4 = s.skip(11);
    assert(s4 =~= dec_rep(n as nat) + rest);
    lemma_dec_rep(n as nat);
    assert(s4[0] == dec_rep(n as nat)[0]);
    assert(is_digit(s4[0]));
    assert(ws_len(s4) == 0) by {
        assert(!is_ws(s4[0]));
    }
    assert(s4.skip(0) =~= s4);
    lemma_parse_dec_rep(n, rest);
    assert(member_seq(n).len() == 11 + dec_rep(n as nat).len());
}

/// Composes two parsed members into a whole-frame parse: the members'
/// contents are treated as opaque byte blocks here.
#[verifier::rlimit(100)]
proof fn lemma_ping_frame_structure(s: Seq<u8>, b1: Seq<u8>, b2: Seq<u8>, m: Seq<u8>, n: u64)
    requires
        s == seq![0x7bu8] + b1 + (seq![0x2cu8] + b2 + seq![0x7du8]),
        parse_ping_member(b1 + (seq![0x2cu8] + b2 + seq![0x7du8]), None, None) == Some(
            (Some(m), None::<u64>, b1.len() as nat),
        ),
        parse_ping_member(b2 + seq![0x7du8], Some(m), None) == Some(
            (Some(m), Some(n), b2.len() as nat),
        ),
    ensures
        parse_ping_frame(s) == Some(PingV { message: m, sequence: n }),
{
    let rest1 = seq![0x2cu8] + b2 + seq![0x7du8];
    assert(s[0] == 0x7b);
    assert(ws_len(s) == 0);
    assert(s.skip(0) =~= s);
    assert(s.skip(1) =~= b1 + rest1);
    let l1 = b1.len() as int;
    let s2 = s.skip(1 + l1);
    assert(s.skip(0).skip(1 + l1) =~= s2);
    assert(s2 =~= rest1);
    assert(s2[0] == 0x2c);
    assert(ws_len(s2) == 0);
    assert(s2.skip(0) =~= s2);
    assert(s2.skip(1) =~= b2 + seq![0x7du8]);
    let l2 = b2.len() as int;
    let s4 = s2.skip(1 + l2);
    assert(s2.skip(0).skip(1 + l2) =~= s4);
    assert(s4 =~= seq![0x7du8]);
    assert(s4[0] == 0x7d);
    assert(ws_len(s4) == 0);
    assert(s4.skip(0) =~= s4);
    assert(s4.skip(1) =~= Seq::<u8>::empty());
    assert(ws_len(s4.skip(1)) == 0);
    assert(s4.len() - 1 == 0);
}

/// Round trip for requests: parsing the canonical encoding of any request
/// yields that request.
pub proof fn lemma_ping_round_trip(p: PingV)
    ensures
        parse_ping_frame(ping_json(p)) == Some(p),
{
    let b1 = member_msg(p.message);
    let b2 = member_seq(p.sequence);
    let rest1 = seq![0x2cu8] + b2 + seq![0x7du8];
    assert(ping_json(p) =~= seq![0x7bu8] + b1 + rest1);
    lemma_member_msg(p.message, rest1, None);
    assert(!is_digit(0x7du8));
    lemma_member_seq(p.sequence, seq![0x7du8], Some(p.message));
    lemma_ping_frame_structure(ping_json(p), b1, b2, p.message, p.sequence);
    assert(PingV { message: p.message, sequence: p.sequence } == p);
}

// ---------------------------------------------------------------------------
// Reply frames
// ---------------------------------------------------------------------------
/// One `"key": value` member of a reply object, with three fields to fill.
#[verifier::opaque]
pub open spec fn parse_pong_member(
    s: Seq<u8>,
    msg: Option<Seq<u8>>,
    sq: Option<u64>,
    tot: Option<u64>,
) -> Option<(Option<Seq<u8>>, Option<u64>, Option<u64>, nat)> {
    let w0 = ws_len(s);
    let s1 = s.skip(w0 as int);
    if s1.len() == 0 || s1[0] != 0x22 {
        None
    } else {
        match parse_str_body(s1.skip(1)) {
            None => None,
            Some(kt) => {
                let p1 = w0 + 1 + kt.1;
                let s2 = s.skip(p1 as int);
                let w1 = ws_len(s2);
                let s3 = s2.skip(w1 as int);
                if s3.len() == 0 || s3[0] != 0x3a {
                    None
                } else {
                    let p2 = p1 + w1 + 1;
                    let s4 = s.skip(p2 as int);
                    let w2 = ws_len(s4);
                    let s5 = s4.skip(w2 as int);
                    let p3 = p2 + w2;
                    if kt.0 == msg_key() {
                        if msg is Some {
                            None
                        } else if s5.len() == 0 || s5[0] != 0x22 {
                            None
                        } else {
                            match parse_str_body(s5.skip(1)) {
                                None => None,
                                Some(vt) => Some((Some(vt.0), sq, tot, (p3 + 1 + vt.1) as nat)),
                            }
                        }
                    } else if kt.0 == seq_key() {
                        if sq is Some {
                            None
                        } else {
                            match parse_u64_head(s5) {
                                None => None,
                                Some(nt) => Some((msg, Some(nt.0), tot, (p3 + nt.1) as nat)),
                            }
                        }
                    } else if kt.0 == total_key() {
                        if tot is Some {
                            None
                        } else {
                            match parse_u64_head(s5) {
                                None => None,
                                Some(nt) => Some((msg, sq, Some(nt.0), (p3 + nt.1) as nat)),
                            }
                        }
                    } else {
                        None
                    }
                }
            },
        }
    }
}

/// A whole reply frame: `{`, three members (any order, one per field), `}`.
pub open spec fn parse_pong_frame(s: Seq<u8>) -> Option<PongV> {
    let w0 = ws_len(s);
    let s1 = s.skip(w0 as int);
    if s1.len() == 0 || s1[0] != 0x7b {
        None
    } else {
        match parse_pong_member(s1.skip(1), None, None, None) {
            None => None,
            Some(m1) => {
                let s2 = s1.skip(1 + m1.3 as int);
                let w1 = ws_len(s2);
                let s3 = s2.skip(w1 as int);
                if s3.len() == 0 || s3[0] != 0x2c {
                    None
                } else {
                    match parse_pong_member(s3.skip(1), m1.0, m1.1, m1.2) {
                        None => None,
                        Some(m2) => {
                            let s4 = s3.skip(1 + m2.3 as int);
                            let w2 = ws_len(s4);
                            let s5 = s4.skip(w2 as int);
                            if s5.len() == 0 || s5[0] != 0x2c {
                                None
                            } else {
                                match parse_pong_member(s5.skip(1), m2.0, m2.1, m2.2) {
                                    None => None,
                                    Some(m3) => {
                                        let s6 = s5.skip(1 + m3.3 as int);
                                        let w3 = ws_len(s6);
                                        let s7 = s6.skip(w3 as int);
                                        if s7.len() == 0 || s7[0] != 0x7d {
                                            None
                                        } else if ws_len(s7.skip(1)) != s7.len() - 1 {
                                            None
                                        } else {
                                            match (m3.0, m3.1, m3.2) {
                                                (Some(m), Some(q), Some(t)) => Some(
                                                    PongV {
                                                        message: m,
                                                        sequence: q,
                                                        total_pings: t,
                                                    },
                                                ),
                                                _ => None,
                                            }
                                        }
                                    },
                                }
                            }
                        },
                    }
                }
            },
        }
    }
}

/// Encodes a reply in the canonical compact form.
#[verifier::rlimit(100)]
pub fn encode_pong(p: &Pong) -> (v: Vec<u8>)
    ensures
        v@ == pong_json(p@),
{
    let mut out: Vec<u8> = Vec::new();
    out.push(0x7b);
    out.push(0x22);
    out.push(0x6d);
    out.push(0x65);
    out.push(0x73);
    out.push(0x73);
    out.push(0x61);
    out.push(0x67);
    out.push(0x65);
    out.push(0x22);
    out.push(0x3a);
    out.push(0x22);
    proof {
        assert(out@ =~= seq![0x7bu8] + quoted(msg_key()) + seq![0x3au8] + seq![0x22u8]);
    }
    push_escaped(&mut out, &p.message);
    out.push(0x22);
    proof {
        assert(out@ =~= seq![0x7bu8] + quoted(msg_key()) + seq![0x3au8] + json_string(p.message@));
    }
    let ghost mid = out@;
    out.push(0x2c);
    out.push(0x22);
    out.push(0x73);
    out.push(0x65);
    out.push(0x71);
    out.push(0x75);
    out.push(0x65);
    out.push(0x6e);
    out.push(0x63);
    out.push(0x65);
    out.push(0x22);
    out.push(0x3a);
    proof {
        assert(out@ =~= mid + seq![0x2cu8] + quoted(seq_key()) + seq![0x3au8]);
    }
    let d = u64_to_dec(p.sequence);
    out.extend_from_slice(d.as_slice());
    let ghost mid2 = out@;
    proof {
        assert(mid2 =~= mid + seq![0x2cu8] + quoted(seq_key()) + seq![0x3au8] + dec_rep(
            p.sequence as nat,
        ));
    }
    out.push(0x2c);
    out.push(0x22);
    out.push(0x74);
    out.push(0x6f);
    out.push(0x74);
    out.push(0x61);
    out.push(0x6c);
    out.push(0x5f);
    out.push(0x70);
    out.push(0x69);
    out.push(0x6e);
    out.push(0x67);
    out.push(0x73);
    out.push(0x22);
    out.push(0x3a);
    proof {
        assert(out@ =~= mid2 + seq![0x2cu8] + quoted(total_key()) + seq![0x3au8]);
    }
    let d2 = u64_to_dec(p.total_pings);
    out.extend_from_slice(d2.as_slice());
    out.push(0x7d);
    proof {
        assert(out@ =~= pong_json(p@));
    }
    out
}

/// Scans one reply member starting at `i`, carrying the fields seen so far.
fn scan_pong_member(
    v: &Vec<u8>,
    i: usize,
    msg: Option<Vec<u8>>,
    sq: Option<u64>,
    tot: Option<u64>,
) -> (r: Option<(Option<Vec<u8>>, Option<u64>, Option<u64>, usize)>)
    requires
        i <= v.len(),
    ensures
        match r {
            Some(t) => {
                &&& i < t.3 <= v.len()
                &&& parse_pong_member(v@.skip(i as int), ov(msg), sq, tot) == Some(
                    (ov(t.0), t.1, t.2, (t.3 - i) as nat),
                )
            },
            None => parse_pong_member(v@.skip(i as int), ov(msg), sq, tot) is None,
        },
{
    proof {
        reveal(parse_pong_member);
    }
    let ghost s = v@.skip(i as int);
    let j0 = skip_ws(v, i);
    let ghost s1 = s.skip((j0 - i) as int);
    proof {
        assert(s1 =~= v@.skip(j0 as int));
        if j0 < v.len() {
            assert(s1[0] == v@[j0 as int]);
        }
    }
    if j0 == v.len() {
        return None;
    }
    if v[j0] != 0x22 {
        return None;
    }
    proof {
        assert(s1.skip(1) =~= v@.skip(j0 + 1));
    }
    let key_scan = scan_string(v, j0 + 1);
    match key_scan {
        None => None,
        Some((key, j1)) => {
            let ghost p1 = (j0 - i) + 1 + (j1 - (j0 + 1));
            proof {
                assert(s.skip(p1 as int) =~= v@.skip(j1 as int));
            }
            let j2 = skip_ws(v, j1);
            let ghost s3 = v@.skip(j2 as int);
            proof {
                assert(v@.skip(j1 as int).skip((j2 - j1) as int) =~= s3);
                if j2 < v.len() {
                    assert(s3[0] == v@[j2 as int]);
                }
            }
            if j2 == v.len() {
                return None;
            }
            if v[j2] != 0x3a {
                return None;
            }
            let ghost p2 = p1 + (j2 - j1) + 1;
            proof {
                assert(s.skip(p2 as int) =~= v@.skip(j2 + 1));
            }
            let j3 = skip_ws(v, j2 + 1);
            let ghost s5 = v@.skip(j3 as int);
            proof {
                assert(v@.skip(j2 + 1).skip((j3 - (j2 + 1)) as int) =~= s5);
                if j3 < v.len() {
                    assert(s5[0] == v@[j3 as int]);
                }
            }
            let mk = make_msg_key();
            let sk = make_seq_key();
            let tk = make_total_key();
            if bytes_eq(&key, &mk) {
                if msg.is_some() {
                    return None;
                }
                if j3 == v.len() {
                    return None;
                }
                if v[j3] != 0x22 {
                    return None;
                }
                proof {
                    assert(s5.skip(1) =~= v@.skip(j3 + 1));
                }
                match scan_string(v, j3 + 1) {
                    None => None,
                    Some((val, j4)) => {
                        proof {
                            assert(parse_pong_member(s, ov(msg), sq, tot) == Some(
                                (Some(val@), sq, tot, (j4 - i) as nat),
                            ));
                        }
                        Some((Some(val), sq, tot, j4))
                    },
                }
            } else if bytes_eq(&key, &sk) {
                if sq.is_some() {
                    return None;
                }
                match scan_u64(v, j3) {
                    None => None,
                    Some((x, j4)) => {
                        proof {
                            assert(parse_pong_member(s, ov(msg), sq, tot) == Some(
                                (ov(msg), Some(x), tot, (j4 - i) as nat),
                            ));
                        }
                        Some((msg, Some(x), tot, j4))
                    },
                }
            } else if bytes_eq(&key, &tk) {
                if tot.is_some() {
                    return None;
                }
                match scan_u64(v, j3) {
                    None => None,
                    Some((x, j4)) => {
                        proof {
                            assert(parse_pong_member(s, ov(msg), sq, tot) == Some(
                                (ov(msg), sq, Some(x), (j4 - i) as nat),
                            ));
                        }
                        Some((msg, sq, Some(x), j4))
                    },
                }
            } else {
                None
            }
        },
    }
}

/// Parses a reply frame.  Returns the reply exactly when the frame is
/// well-formed.
#[verifier::rlimit(100)]
pub fn parse_pong(v: &Vec<u8>) -> (r: Option<Pong>)
    ensures
        match r {
            Some(p) => parse_pong_frame(v@) == Some(p@),
            None => parse_pong_frame(v@) is None,
        },
{
    let i0 = skip_ws(v, 0);
    let ghost s1 = v@.skip(i0 as int);
    proof {
        assert(v@.skip(0) =~= v@);
        if i0 < v.len() {
            assert(s1[0] == v@[i0 as int]);
        }
    }
    if i0 == v.len() {
        return None;
    }
    if v[i0] != 0x7b {
        return None;
    }
    proof {
        assert(s1.skip(1) =~= v@.skip(i0 + 1));
    }
    match scan_pong_member(v, i0 + 1, None, None, None) {
        None => None,
        Some((f1m, f1s, f1t, j1)) => {
            proof {
                assert(s1.skip(1 + (j1 - (i0 + 1)) as int) =~= v@.skip(j1 as int));
            }
            let j2 = skip_ws(v, j1);
            let ghost s3 = v@.skip(j2 as int);
            proof {
                assert(v@.skip(j1 as int).skip((j2 - j1) as int) =~= s3);
                if j2 < v.len() {
                    assert(s3[0] == v@[j2 as int]);
                }
            }
            if j2 == v.len() {
                return None;
            }
            if v[j2] != 0x2c {
                return None;
            }
            proof {
                assert(s3.skip(1) =~= v@.skip(j2 + 1));
            }
            match scan_pong_member(v, j2 + 1, f1m, f1s, f1t) {
                None => None,
                Some((f2m, f2s, f2t, j3)) => {
                    proof {
                        assert(s3.skip(1 + (j3 - (j2 + 1)) as int) =~= v@.skip(j3 as int));
                    }
                    let j4 = skip_ws(v, j3);
                    let ghost s5 = v@.skip(j4 as int);
                    proof {
                        assert(v@.skip(j3 as int).skip((j4 - j3) as int) =~= s5);
                        if j4 < v.len() {
                            assert(s5[0] == v@[j4 as int]);
                        }
                    }
                    if j4 == v.len() {
                        return None;
                    }
                    if v[j4] != 0x2c {
                        return None;
                    }
                    proof {
                        assert(s5.skip(1) =~= v@.skip(j4 + 1));
                    }
                    match scan_pong_member(v, j4 + 1, f2m, f2s, f2t) {
                        None => None,
                        Some((f3m, f3s, f3t, j5)) => {
                            proof {
                                assert(s5.skip(1 + (j5 - (j4 + 1)) as int) =~= v@.skip(j5 as int));
                            }
                            let j6 = skip_ws(v, j5);
                            let ghost s7 = v@.skip(j6 as int);
                            proof {
                                assert(v@.skip(j5 as int).skip((j6 - j5) as int) =~= s7);
                                if j6 < v.len() {
                                    assert(s7[0] == v@[j6 as int]);
                                }
                            }
                            if j6 == v.len() {
                                return None;
                            }
                            if v[j6] != 0x7d {
                                return None;
                            }
                            let j7 = skip_ws(v, j6 + 1);
                            proof {
                                assert(s7.skip(1) =~= v@.skip(j6 + 1));
                                assert(s7.skip(1).len() == s7.len() - 1);
                            }
                            if j7 != v.len() {
                                proof {
                                    assert(ws_len(s7.skip(1)) != s7.len() - 1);
                                }
                                return None;
                            }
                            proof {
                                assert(ws_len(s7.skip(1)) == s7.len() - 1);
                            }
                            match (f3m, f3s, f3t) {
                                (Some(m), Some(q), Some(t)) => Some(
                                    Pong { message: m, sequence: q, total_pings: t },
                                ),
                                _ => None,
                            }
                        },
                    }
                },
            }
        },
    }
}

proof fn lemma_pong_member_msg(m: Seq<u8>, rest: Seq<u8>, sq: Option<u64>, tot: Option<u64>)
    ensures
        parse_pong_member(member_msg(m) + rest, None, sq, tot) == Some(
            (Some(m), sq, tot, member_msg(m).len() as nat),
        ),
{
    reveal(parse_pong_member);
    let s = member_msg(m) + rest;
    assert(s =~= seq![0x22u8] + msg_key() + seq![0x22u8] + seq![0x3au8] + seq![0x22u8] + escape(m)
        + seq![0x22u8] + rest);
    assert(s[0] == 0x22);
    assert(ws_len(s) == 0);
    assert(s.skip(0) =~= s);
    assert(s.skip(1) =~= msg_key() + seq![0x22u8] + (seq![0x3au8] + json_string(m) + rest));
    lemma_keys_plain();
    lemma_parse_plain(msg_key(), seq![0x3au8] + json_string(m) + rest);
    let kt = parse_str_body(s.skip(1)).unwrap();
    assert(kt.0 == msg_key() && kt.1 == 8);
    let s2 = s.skip(9);
    assert(s2 =~= seq![0x3au8] + json_string(m) + rest);
    assert(s2[0] == 0x3a);
    assert(ws_len(s2) == 0);
    assert(s2.skip(0) =~= s2);
    let s4 = s.skip(10);
    assert(s4 =~= json_string(m) + rest);
    assert(s4 =~= seq![0x22u8] + (escape(m) + seq![0x22u8] + rest));
    assert(s4[0] == 0x22);
    assert(ws_len(s4) == 0);
    assert(s4.skip(0) =~= s4);
    assert(s4.skip(1) =~= escape(m) + seq![0x22u8] + rest);
    lemma_parse_escape(m, rest);
    let vt = parse_str_body(s4.skip(1)).unwrap();
    assert(vt.0 == m && vt.1 == escape(m).len() + 1);
    assert(member_msg(m).len() == 12 + escape(m).len());
}

proof fn lemma_pong_member_seq(n: u64, rest: Seq<u8>, msg: Option<Seq<u8>>, tot: Option<u64>)
    requires
        rest.len() == 0 || !is_digit(rest[0]),
    ensures
        parse_pong_member(member_seq(n) + rest, msg, None, tot) == Some(
            (msg, Some(n), tot, member_seq(n).len() as nat),
        ),
{
    reveal(parse_pong_member);
    let s = member_seq(n) + rest;
    assert(s =~= seq![0x22u8] + seq_key() + seq![0x22u8] + seq![0x3au8] + dec_rep(n as nat)
        + rest);
    assert(s[0] == 0x22);
    assert(ws_len(s) == 0);
    assert(s.skip(0) =~= s);
    assert(s.skip(1) =~= seq_key() + seq![0x22u8] + (seq![0x3au8] + dec_rep(n as nat) + rest));
    lemma_keys_plain();
    lemma_parse_plain(seq_key(), seq![0x3au8] + dec_rep(n as nat) + rest);
    let kt = parse_str_body(s.skip(1)).unwrap();
    assert(kt.0 == seq_key() && kt.1 == 9);
    assert(seq_key() != msg_key()) by {
        assert(seq_key().len() != msg_key().len());
    }
    let s2 = s.skip(10);
    assert(s2 =~= seq![0x3au8] + dec_rep(n as nat) + rest);
    assert(s2[0] == 0x3a);
    assert(ws_len(s2) == 0);
    assert(s2.skip(0) =~= s2);
    let s4 = s.skip(11);
    assert(s4 =~= dec_rep(n as nat) + rest);
    lemma_dec_rep(n as nat);
    assert(s4[0] == dec_rep(n as nat)[0]);
    assert(is_digit(s4[0]));
    assert(ws_len(s4) == 0) by {
        assert(!is_ws(s4[0]));
    }
    assert(s4.skip(0) =~= s4);
    lemma_parse_dec_rep(n, rest);
    assert(member_seq(n).len() == 11 + dec_rep(n as nat).len());
}

proof fn lemma_pong_member_total(t: u64, rest: Seq<u8>, msg: Option<Seq<u8>>, sq: Option<u64>)
    requires
        rest.len() == 0 || !is_digit(rest[0]),
    ensures
        parse_pong_member(member_total(t) + rest, msg, sq, None) == Some(
            (msg, sq, Some(t), member_total(t).len() as nat),
        ),
{
    reveal(parse_pong_member);
    let s = member_total(t) + rest;
    assert(s =~= seq![0x22u8] + total_key() + seq![0x22u8] + seq![0x3au8] + dec_rep(t as nat)
        + rest);
    assert(s[0] == 0x22);
    assert(ws_len(s) == 0);
    assert(s.skip(0) =~= s);
    assert(s.skip(1) =~= total_key() + seq![0x22u8] + (seq![0x3au8] + dec_rep(t as nat) + rest));
    lemma_keys_plain();
    lemma_parse_plain(total_key(), seq![0x3au8] + dec_rep(t as nat) + rest);
    let kt = parse_str_body(s.skip(1)).unwrap();
    assert(kt.0 == total_key() && kt.1 == 12);
    assert(total_key() != msg_key()) by {
        assert(total_key().len() != msg_key().len());
    }
    assert(total_key() != seq_key()) by {
        assert(total_key().len() != seq_key().len());
    }
    let s2 = s.skip(13);
    assert(s2 =~= seq![0x3au8] + dec_rep(t as nat) + rest);
    assert(s2[0] == 0x3a);
    assert(ws_len(s2) == 0);
    assert(s2.skip(0) =~= s2);
    let s4 = s.skip(14);
    assert(s4 =~= dec_rep(t as nat) + rest);
    lemma_dec_rep(t as nat);
    assert(s4[0] == dec_rep(t as nat)[0]);
    assert(is_digit(s4[0]));
    assert(ws_len(s4) == 0) by {
        assert(!is_ws(s4[0]));
    }
    assert(s4.skip(0) =~= s4);
    lemma_parse_dec_rep(t, rest);
    assert(member_total(t).len() == 14 + dec_rep(t as nat).len());
}

/// Composes three parsed members into a whole reply-frame parse.
#[verifier::rlimit(100)]
proof fn lemma_pong_frame_structure(
    s: Seq<u8>,
    b1: Seq<u8>,
    b2: Seq<u8>,
    b3: Seq<u8>,
    m: Seq<u8>,
    n: u64,
    t: u64,
)
    requires
        s == seq![0x7bu8] + b1 + (seq![0x2cu8] + b2 + (seq![0x2cu8] + b3 + seq![0x7du8])),
        parse_pong_member(
            b1 + (seq![0x2cu8] + b2 + (seq![0x2cu8] + b3 + seq![0x7du8])),
            None,
            None,
            None,
        ) == Some((Some(m), None::<u64>, None::<u64>, b1.len() as nat)),
        parse_pong_member(b2 + (seq![0x2cu8] + b3 + seq![0x7du8]), Some(m), None, None) == Some(
            (Some(m), Some(n), None::<u64>, b2.len() as nat),
        ),
        parse_pong_member(b3 + seq![0x7du8], Some(m), Some(n), None) == Some(
            (Some(m), Some(n), Some(t), b3.len() as nat),
        ),
    ensures
        parse_pong_frame(s) == Some(PongV { message: m, sequence: n, total_pings: t }),
{
    let rest1 = seq![0x2cu8] + b2 + (seq![0x2cu8] + b3 + seq![0x7du8]);
    let rest2 = seq![0x2cu8] + b3 + seq![0x7du8];
    assert(s[0] == 0x7b);
    assert(ws_len(s) == 0);
    assert(s.skip(0) =~= s);
    assert(s.skip(1) =~= b1 + rest1);
    let l1 = b1.len() as int;
    let s2 = s.skip(1 + l1);
    assert(s.skip(0).skip(1 + l1) =~= s2);
    assert(s2 =~= rest1);
    assert(s2[0] == 0x2c);
    assert(ws_len(s2) == 0);
    assert(s2.skip(0) =~= s2);
    assert(s2.skip(1) =~= b2 + rest2);
    let l2 = b2.len() as int;
    let s4 = s2.skip(1 + l2);
    assert(s2.skip(0).skip(1 + l2) =~= s4);
    assert(s4 =~= rest2);
    assert(s4[0] == 0x2c);
    assert(ws_len(s4) == 0);
    assert(s4.skip(0) =~= s4);
    assert(s4.skip(1) =~= b3 + seq![0x7du8]);
    let l3 = b3.len() as int;
    let s6 = s4.skip(1 + l3);
    assert(s4.skip(0).skip(1 + l3) =~= s6);
    assert(s6 =~= seq![0x7du8]);
    assert(s6[0] == 0x7d);
    assert(ws_len(s6) == 0);
    assert(s6.skip(0) =~= s6);
    assert(s6.skip(1) =~= Seq::<u8>::empty());
    assert(ws_len(s6.skip(1)) == 0);
    assert(s6.len() - 1 == 0);
}

/// Round trip for replies: parsing the canonical encoding of any reply
/// yields that reply.
pub proof fn lemma_pong_round_trip(p: PongV)
    ensures
        parse_pong_frame(pong_json(p)) == Some(p),
{
    let b1 = member_msg(p.message);
    let b2 = member_seq(p.sequence);
    let b3 = member_total(p.total_pings);
    let rest2 = seq![0x2cu8] + b3 + seq![0x7du8];
    let rest1 = seq![0x2cu8] + b2 + rest2;
    assert(pong_json(p) =~= seq![0x7bu8] + b1 + rest1);
    lemma_pong_member_msg(p.message, rest1, None, None);
    assert(!is_digit(0x2cu8));
    assert(!is_digit(0x7du8));
    lemma_pong_member_seq(p.sequence, rest2, Some(p.message), None);
    lemma_pong_member_total(p.total_pings, seq![0x7du8], Some(p.message), Some(p.sequence));
    lemma_pong_frame_structure(
        pong_json(p),
        b1,
        b2,
        b3,
        p.message,
        p.sequence,
        p.total_pings,
    );
    assert(PongV { message: p.message, sequence: p.sequence, total_pings: p.total_pings } == p);
}

} // verus!
