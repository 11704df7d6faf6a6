//! Byte-level building blocks for the token codec: literal matching,
//! decimal numbers, and JSON string escaping and scanning over byte
//! buffers.
//!
//! Buffers are `Vec<u8>`/`&[u8]`; a Rust string enters as its UTF-8
//! bytes (`encode_utf8` of its characters) and leaves through
//! [`utf8_string`] (or [`ascii_string`] where the bytes are known
//! ASCII).

use vstd::prelude::*;
use vstd::utf8::encode_utf8;
use vstd::utf8::valid_utf8;

verus! {

/// The byte image of a string literal.
pub open spec fn lit(s: &str) -> Seq<u8> {
    encode_utf8(s@)
}

/// Plain printable ASCII without the double quote and the backslash.
pub open spec fn wf_text(b: Seq<u8>) -> bool {
    forall|i: int| 0 <= i < b.len() ==> 0x20 <= #[trigger] b[i] <= 0x7e && b[i] != 0x22 && b[i]
        != 0x5c
}

/// Appends a byte slice to a buffer.
pub fn push_bytes(out: &mut Vec<u8>, s: &[u8])
    ensures
        final(out)@ == old(out)@ + s@,
{
    let n = s.len();
    let mut i: usize = 0;
    while i < n
        invariant
            n == s@.len(),
            i <= n,
            out@ == old(out)@ + s@.take(i as int),
        decreases n - i,
    {
        out.push(s[i]);
        assert(out@ =~= old(out)@ + s@.take(i + 1));
        i = i + 1;
    }
    assert(out@ =~= old(out)@ + s@);
}

/// Whether `b` carries exactly `l` starting at `pos`.
pub fn match_lit(b: &[u8], pos: usize, l: &[u8]) -> (r: bool)
    requires
        pos <= b@.len(),
    ensures
        r == (pos + l@.len() <= b@.len() && b@.subrange(pos as int, pos + l@.len()) =~= l@),
{
    let n = l.len();
    let blen = b.len();
    if n > blen - pos {
        return false;
    }
    let mut i: usize = 0;
    while i < n
        invariant
            n == l@.len(),
            blen == b@.len(),
            pos + n <= blen,
            i <= n,
            forall|k: int| 0 <= k < i ==> b@[pos + k] == #[trigger] l@[k],
        decreases n - i,
    {
        if b[pos + i] != l[i] {
            assert(b@.subrange(pos as int, pos + l@.len())[i as int] != l@[i as int]);
            return false;
        }
        i = i + 1;
    }
    assert(b@.subrange(pos as int, pos + l@.len()) =~= l@);
    true
}

/// Whether two byte slices hold the same bytes.
pub fn bytes_eq(a: &[u8], b: &[u8]) -> (r: bool)
    ensures
        r == (a@ == b@),
{
    if a.len() != b.len() {
        assert(a@.len() != b@.len());
        return false;
    }
    let n = a.len();
    let mut i: usize = 0;
    while i < n
        invariant
            n == a@.len() == b@.len(),
            i <= n,
            forall|k: int| 0 <= k < i ==> a@[k] == b@[k],
        decreases n - i,
    {
        if a[i] != b[i] {
            return false;
        }
        i = i + 1;
    }
    assert(a@ =~= b@);
    true
}

/// Copies `b[from..to]` into a fresh buffer.
pub fn copy_range(b: &[u8], from: usize, to: usize) -> (out: Vec<u8>)
    requires
        from <= to <= b@.len(),
    ensures
        out@ == b@.subrange(from as int, to as int),
{
    let mut out: Vec<u8> = Vec::new();
    let mut i: usize = from;
    while i < to
        invariant
            from <= i <= to <= b@.len(),
            out@ == b@.subrange(from as int, i as int),
        decreases to - i,
    {
        out.push(b[i]);
        assert(out@ =~= b@.subrange(from as int, i + 1));
        i = i + 1;
    }
    out
}

/// The first position in `b` at or after `from` that holds `t`.
pub fn find_byte(b: &[u8], from: usize, t: u8) -> (r: Option<usize>)
    requires
        from <= b@.len(),
    ensures
        r matches Some(i) ==> from <= i < b@.len() && b@[i as int] == t && forall|k: int|
            from <= k < i ==> b@[k] != t,
        r is None ==> forall|k: int| from <= k < b@.len() ==> b@[k] != t,
{
    let n = b.len();
    let mut i: usize = from;
    while i < n
        invariant
            from <= i <= n == b@.len(),
            forall|k: int| from <= k < i ==> b@[k] != t,
        decreases n - i,
    {
        if b[i] == t {
            return Some(i);
        }
        i = i + 1;
    }
    None
}

/// An ASCII decimal digit.
pub open spec fn is_digit(b: u8) -> bool {
    48 <= b <= 57
}

/// Powers of ten.
pub open spec fn pow10(k: nat) -> nat
    decreases k,
{
    if k == 0 {
        1
    } else {
        10 * pow10((k - 1) as nat)
    }
}

/// The decimal digits of `n`, most significant first, no leading zeros.
pub open spec fn dec_digits(n: nat) -> Seq<u8>
    decreases n,
{
    if n < 10 {
        seq![(48 + n) as u8]
    } else {
        dec_digits(n / 10) + seq![(48 + n % 10) as u8]
    }
}

/// The number read from a digit string, most significant first.
pub open spec fn dec_val(s: Seq<u8>) -> nat
    decreases s.len(),
{
    if s.len() == 0 {
        0
    } else {
        dec_val(s.take(s.len() - 1)) * 10 + (
        if is_digit(s.last()) {
            (s.last() - 48) as nat
        } else {
            0
        })
    }
}

pub proof fn lemma_dec_digits_are_digits(n: nat)
    ensures
        dec_digits(n).len() >= 1,
        forall|i: int| 0 <= i < dec_digits(n).len() ==> is_digit(#[trigger] dec_digits(n)[i]),
    decreases n,
{
    if n >= 10 {
        lemma_dec_digits_are_digits(n / 10);
    }
}

pub proof fn lemma_dec_val_digits(n: nat)
    ensures
        dec_val(dec_digits(n)) == n,
    decreases n,
{
    if n < 10 {
        let d = dec_digits(n);
        assert(d.take(d.len() - 1) =~= Seq::<u8>::empty());
        assert(d.last() == (48 + n) as u8);
        assert(dec_val(d) == dec_val(d.take(d.len() - 1)) * 10 + (d.last() - 48) as nat);
    } else {
        lemma_dec_val_digits(n / 10);
        let d = dec_digits(n);
        assert(d.take(d.len() - 1) =~= dec_digits(n / 10));
        assert(d.last() == (48 + n % 10) as u8);
        assert(dec_val(d) == dec_val(d.take(d.len() - 1)) * 10 + (d.last() - 48) as nat);
        assert(dec_val(d) == (n / 10) * 10 + n % 10);
    }
}

/// A number below `pow10(k)` has at most `k` digits (and conversely a
/// longer digit string names a number at least `pow10(k)`).
pub proof fn lemma_dec_digits_len(n: nat, k: nat)
    requires
        k >= 1,
        n < pow10(k),
    ensures
        dec_digits(n).len() <= k,
    decreases k,
{
    if n >= 10 {
        assert(pow10(k) == 10 * pow10((k - 1) as nat));
        assert(n / 10 < pow10((k - 1) as nat)) by (nonlinear_arith)
            requires
                n < pow10(k),
                pow10(k) == 10 * pow10((k - 1) as nat),
        ;
        if k - 1 >= 1 {
            lemma_dec_digits_len(n / 10, (k - 1) as nat);
        } else {
            assert(pow10(1nat) == 10);
        }
    }
}

/// A digit string of length `k` names a number below `pow10(k)`.
pub proof fn lemma_dec_val_bound(s: Seq<u8>)
    ensures
        dec_val(s) < pow10(s.len()),
    decreases s.len(),
{
    if s.len() > 0 {
        lemma_dec_val_bound(s.take(s.len() - 1));
        assert(s.take(s.len() - 1).len() == s.len() - 1);
        assert(pow10(s.len()) == 10 * pow10((s.len() - 1) as nat));
    }
}

pub proof fn lemma_pow10_18()
    ensures
        pow10(18) == 1_000_000_000_000_000_000,
{
    reveal_with_fuel(pow10, 19);
}

/// Scans a decimal number at `pos`: a run of at most 18 digits,
/// stopping at the first non-digit. Wherever the buffer carries
/// `dec_digits(n)` at `pos`, followed by a non-digit or the end, the
/// scan yields exactly `n` and the position after its digits.
pub fn scan_dec(b: &[u8], pos: usize) -> (r: Option<(u64, usize)>)
    requires
        pos <= b@.len(),
    ensures
        r matches Some(t) ==> pos < t.1 <= b@.len() && t.0 < 1_000_000_000_000_000_000,
        forall|n: nat|
            {
                &&& n < 1_000_000_000_000_000_000
                &&& pos + dec_digits(n).len() <= b@.len()
                &&& b@.subrange(pos as int, pos + dec_digits(n).len()) == dec_digits(n)
                &&& (pos + dec_digits(n).len() == b@.len() || !is_digit(
                    b@[pos + dec_digits(n).len()],
                ))
            } ==> (r matches Some(t) && t.0 == n && t.1 == pos + dec_digits(n).len()),
{
    let blen = b.len();
    let mut j: usize = pos;
    let mut acc: u64 = 0;
    proof {
        assert(b@.subrange(pos as int, pos as int) =~= Seq::<u8>::empty());
    }
    while j < blen && 48 <= b[j as usize] && b[j as usize] <= 57
        invariant
            pos <= j <= blen == b@.len(),
            j - pos <= 18,
            forall|k: int| pos <= k < j ==> is_digit(#[trigger] b@[k]),
            acc == dec_val(b@.subrange(pos as int, j as int)),
            acc < 1_000_000_000_000_000_000,
        decreases blen - j,
    {
        if j - pos >= 18 {
            // a 19th digit would stand for a number out of range
            proof {
                assert forall|n: nat|
                    {
                        &&& n < 1_000_000_000_000_000_000
                        &&& pos + dec_digits(n).len() <= b@.len()
                        &&& b@.subrange(pos as int, pos + dec_digits(n).len()) == dec_digits(n)
                        &&& (pos + dec_digits(n).len() == b@.len() || !is_digit(
                            b@[pos + dec_digits(n).len()],
                        ))
                    } implies false by {
                    lemma_pow10_18();
                    lemma_dec_digits_len(n, 18);
                    let dl = dec_digits(n).len() as int;
                    if dl < 18 {
                        assert(is_digit(b@[pos + dl]));
                    } else {
                        assert(is_digit(b@[j as int]));
                    }
                }
            }
            return None;
        }
        proof {
            let s = b@.subrange(pos as int, j as int);
            lemma_dec_val_bound(s);
            lemma_pow10_18();
            assert(s.len() <= 17);
            assert(pow10(s.len()) <= pow10(17)) by {
                lemma_pow10_mono(s.len(), 17);
            }
            assert(pow10(17) * 10 == pow10(18)) by {
                reveal_with_fuel(pow10, 19);
            }
            assert(acc * 10 + 9 < 1_000_000_000_000_000_000) by (nonlinear_arith)
                requires
                    acc < pow10(17nat),
                    pow10(17nat) * 10 == 1_000_000_000_000_000_000,
            ;
        }
        let d = b[j] - 48;
        acc = acc * 10 + d as u64;
        proof {
            let s1 = b@.subrange(pos as int, j + 1);
            assert(s1.take(s1.len() - 1) =~= b@.subrange(pos as int, j as int));
            assert(s1.last() == b@[j as int]);
        }
        j = j + 1;
    }
    if j == pos {
        // no digit at all: dec_digits always starts with a digit
        proof {
            assert forall|n: nat|
                {
                    &&& n < 1_000_000_000_000_000_000
                    &&& pos + dec_digits(n).len() <= b@.len()
                    &&& b@.subrange(pos as int, pos + dec_digits(n).len()) == dec_digits(n)
                    &&& (pos + dec_digits(n).len() == b@.len() || !is_digit(
                        b@[pos + dec_digits(n).len()],
                    ))
                } implies false by {
                lemma_dec_digits_are_digits(n);
                assert(b@[pos as int] == dec_digits(n)[0]);
            }
        }
        return None;
    }
    proof {
        assert forall|n: nat|
            {
                &&& n < 1_000_000_000_000_000_000
                &&& pos + dec_digits(n).len() <= b@.len()
                &&& b@.subrange(pos as int, pos + dec_digits(n).len()) == dec_digits(n)
                &&& (pos + dec_digits(n).len() == b@.len() || !is_digit(
                    b@[pos + dec_digits(n).len()],
                ))
            } implies acc == n && j == pos + dec_digits(n).len() by {
            lemma_dec_digits_are_digits(n);
            let d = dec_digits(n);
            let dl = d.len() as int;
            if dl < j - pos {
                assert(is_digit(b@[pos + dl]));
                assert(false);
            }
            if dl > j - pos {
                assert(b@[j as int] == d[j - pos]);
                assert(is_digit(d[j - pos]));
                assert(false);
            }
            assert(b@.subrange(pos as int, j as int) == d);
            lemma_dec_val_digits(n);
        }
    }
    Some((acc, j))
}

pub proof fn lemma_pow10_mono(a: nat, b: nat)
    requires
        a <= b,
    ensures
        pow10(a) <= pow10(b),
    decreases b,
{
    if a < b {
        lemma_pow10_mono(a, (b - 1) as nat);
        assert(pow10(b) == 10 * pow10((b - 1) as nat));
    }
}

/// Appends the decimal digits of `n`.
pub fn push_dec(out: &mut Vec<u8>, n: u64)
    ensures
        final(out)@ == old(out)@ + dec_digits(n as nat),
    decreases n,
{
    if n < 10 {
        out.push(48 + n as u8);
        assert(final(out)@ =~= old(out)@ + dec_digits(n as nat));
    } else {
        push_dec(out, n / 10);
        out.push(48 + (n % 10) as u8);
        assert(final(out)@ =~= old(out)@ + dec_digits(n as nat));
    }
}

/// The hex digit (lowercase) of a value below 16.
pub open spec fn hex_digit(v: u8) -> u8 {
    if v < 10 {
        (48 + v) as u8
    } else {
        (87 + v) as u8
    }
}

/// The value of a hex digit, `None` for other bytes.
pub open spec fn hex_val(c: u8) -> Option<u8> {
    if 48 <= c <= 57 {
        Some((c - 48) as u8)
    } else if 97 <= c <= 102 {
        Some((c - 87) as u8)
    } else {
        None
    }
}

/// How one byte appears inside a JSON string: the double quote and the
/// backslash behind a backslash, control bytes as `\u00XX`, everything
/// else as itself.
pub open spec fn esc_byte(b: u8) -> Seq<u8> {
    if b == 34 {
        seq![92u8, 34]
    } else if b == 92 {
        seq![92u8, 92]
    } else if b < 32 {
        seq![92u8, 117, 48, 48, hex_digit(b / 16), hex_digit(b % 16)]
    } else {
        seq![b]
    }
}

/// A byte string as it appears inside a JSON string.
pub open spec fn esc_seq(s: Seq<u8>) -> Seq<u8>
    decreases s.len(),
{
    if s.len() == 0 {
        Seq::empty()
    } else {
        esc_byte(s[0]) + esc_seq(s.drop_first())
    }
}

/// Escaped text never starts with an unescaped quote, and an escape
/// unit reads back to its byte.
proof fn lemma_esc_byte(b: u8)
    ensures
        esc_byte(b)[0] != 34,
        esc_byte(b).len() == 1 || esc_byte(b)[0] == 92,
        b < 32 ==> {
            &&& esc_byte(b).len() == 6
            &&& hex_val(hex_digit(b / 16)) == Some(b / 16)
            &&& hex_val(hex_digit(b % 16)) == Some(b % 16)
            &&& (b / 16) * 16 + b % 16 == b
        },
{
}

/// Extending a string by one byte appends that byte's escape.
proof fn lemma_esc_snoc(s: Seq<u8>, k: int)
    requires
        0 <= k < s.len(),
    ensures
        esc_seq(s.take(k + 1)) == esc_seq(s.take(k)) + esc_byte(s[k]),
    decreases k,
{
    if k == 0 {
        assert(s.take(1) =~= seq![s[0]]);
        assert(s.take(0) =~= Seq::<u8>::empty());
        assert(seq![s[0]].drop_first() =~= Seq::<u8>::empty());
        assert(esc_seq(seq![s[0]]) =~= esc_byte(s[0]));
        assert(esc_seq(s.take(0)) + esc_byte(s[0]) =~= esc_byte(s[0]));
    } else {
        let s1 = s.drop_first();
        lemma_esc_snoc(s1, k - 1);
        assert(s.take(k + 1).drop_first() =~= s1.take(k));
        assert(s.take(k).drop_first() =~= s1.take(k - 1));
        assert(s.take(k + 1)[0] == s[0]);
        assert(s.take(k)[0] == s[0]);
        assert(s1[k - 1] == s[k]);
        assert(esc_seq(s.take(k + 1)) =~= esc_seq(s.take(k)) + esc_byte(s[k]));
    }
}

fn hex_digit_exec(v: u8) -> (r: u8)
    requires
        v < 16,
    ensures
        r == hex_digit(v),
{
    if v < 10 {
        48 + v
    } else {
        87 + v
    }
}

fn hex_val_exec(c: u8) -> (r: Option<u8>)
    ensures
        r == hex_val(c),
{
    if 48 <= c && c <= 57 {
        Some(c - 48)
    } else if 97 <= c && c <= 102 {
        Some(c - 87)
    } else {
        None
    }
}

/// Appends the escaped form of `s`.
pub fn push_esc(out: &mut Vec<u8>, s: &[u8])
    ensures
        final(out)@ == old(out)@ + esc_seq(s@),
{
    let n = s.len();
    let mut i: usize = 0;
    proof {
        assert(esc_seq(s@.take(0)) =~= Seq::<u8>::empty());
        assert(out@ =~= old(out)@ + esc_seq(s@.take(0)));
    }
    while i < n
        invariant
            n == s@.len(),
            i <= n,
            out@ == old(out)@ + esc_seq(s@.take(i as int)),
        decreases n - i,
    {
        let b = s[i];
        if b == 34 {
            out.push(92);
            out.push(34);
        } else if b == 92 {
            out.push(92);
            out.push(92);
        } else if b < 32 {
            out.push(92);
            out.push(117);
            out.push(48);
            out.push(48);
            out.push(hex_digit_exec(b / 16));
            out.push(hex_digit_exec(b % 16));
        } else {
            out.push(b);
        }
        proof {
            lemma_esc_snoc(s@, i as int);
            assert(out@ =~= old(out)@ + esc_seq(s@.take(i + 1)));
        }
        i = i + 1;
    }
    proof {
        assert(s@.take(n as int) =~= s@);
    }
}

/// What the scan needs of a buffer that carries an escaped string
/// ending in a closing quote at `pos`.
pub open spec fn esc_at(b: Seq<u8>, pos: int, s: Seq<u8>) -> bool {
    &&& pos + esc_seq(s).len() + 1 <= b.len()
    &&& b.subrange(pos, pos + esc_seq(s).len()) == esc_seq(s)
    &&& b[pos + esc_seq(s).len()] == 34
}

/// The head escape unit of a carried string: its bytes stand at `pos`
/// and the rest of the string is carried after them.
proof fn lemma_esc_at_step(b: Seq<u8>, pos: int, s: Seq<u8>)
    requires
        0 <= pos,
        s.len() > 0,
        esc_at(b, pos, s),
    ensures
        forall|i: int| 0 <= i < esc_byte(s[0]).len() ==> b[pos + i] == #[trigger] esc_byte(
            s[0],
        )[i],
        esc_at(b, pos + esc_byte(s[0]).len(), s.drop_first()),
{
    let e0 = esc_byte(s[0]);
    let rest = esc_seq(s.drop_first());
    assert(esc_seq(s) == e0 + rest);
    assert forall|i: int| 0 <= i < e0.len() implies b[pos + i] == e0[i] by {
        assert(b.subrange(pos, pos + esc_seq(s).len())[i] == (e0 + rest)[i]);
    }
    assert forall|i: int| 0 <= i < rest.len() implies b.subrange(
        pos + e0.len(),
        pos + e0.len() + rest.len(),
    )[i] == rest[i] by {
        assert(b.subrange(pos, pos + esc_seq(s).len())[e0.len() + i] == (e0 + rest)[e0.len() + i]);
        assert(b[pos + e0.len() + i] == b.subrange(pos, pos + esc_seq(s).len())[e0.len() + i]);
    }
    assert(b.subrange(pos + e0.len(), pos + e0.len() + rest.len()) =~= rest);
    assert(b[pos + e0.len() + rest.len()] == 34);
}

/// Scans an escaped string at `pos` up to its closing quote, appending
/// the unescaped bytes. Wherever the buffer carries the escaped form
/// of some byte string followed by a quote, the scan appends exactly
/// that string and stops after the quote.
pub fn scan_esc(b: &[u8], pos: usize, out: &mut Vec<u8>) -> (r: Option<usize>)
    requires
        pos <= b@.len(),
    ensures
        r matches Some(p) ==> pos < p <= b@.len(),
        forall|s: Seq<u8>| esc_at(b@, pos as int, s) ==> (r matches Some(p) && p == pos + esc_seq(
            s,
        ).len() + 1 && final(out)@ == old(out)@ + s),
    decreases b@.len() - pos,
{
    let blen = b.len();
    if pos >= blen {
        return None;
    }
    let c = b[pos];
    if c == 34 {
        proof {
            assert forall|s: Seq<u8>| esc_at(b@, pos as int, s) implies s.len() == 0 && out@
                == out@ + s by {
                if s.len() > 0 {
                    lemma_esc_at_step(b@, pos as int, s);
                    lemma_esc_byte(s[0]);
                    assert(b@[pos as int] == esc_byte(s[0])[0]);
                    assert(false);
                }
                assert(esc_seq(s).len() == 0);
                assert(s =~= Seq::<u8>::empty());
                assert(out@ =~= out@ + s);
            }
        }
        return Some(pos + 1);
    }
    if c == 92 {
        if pos + 1 >= blen {
            proof {
                vacuous_escape(b@, pos as int);
            }
            return None;
        }
        let u = b[pos + 1];
        if u == 34 || u == 92 {
            out.push(u);
            let ghost mid = out@;
            let rec = scan_esc(b, pos + 2, out);
            proof {
                assert forall|s: Seq<u8>| esc_at(b@, pos as int, s) implies (rec matches Some(p)
                    && p == pos + esc_seq(s).len() + 1 && out@ == old(out)@ + s) by {
                    assert(s.len() > 0) by {
                        if s.len() == 0 {
                            assert(b@[pos as int] == 34);
                        }
                    }
                    lemma_esc_at_step(b@, pos as int, s);
                    lemma_esc_byte(s[0]);
                    assert(s[0] == u) by {
                        if s[0] != 34 && s[0] != 92 {
                            if s[0] < 32 {
                                assert(b@[pos + 1] == 117);
                            } else {
                                assert(b@[pos as int] == s[0]);
                            }
                        } else {
                            assert(b@[pos + 1] == s[0]);
                        }
                    }
                    assert(esc_at(b@, pos + 2, s.drop_first()));
                    assert(mid =~= old(out)@ + seq![s[0]]);
                    assert(out@ == mid + s.drop_first());
                    assert(old(out)@ + seq![s[0]] + s.drop_first() =~= old(out)@ + s);
                }
            }
            return rec;
        }
        if u == 117 {
            if blen - pos <= 5 {
                proof {
                    vacuous_escape(b@, pos as int);
                }
                return None;
            }
            if b[pos + 2] != 48 || b[pos + 3] != 48 {
                proof {
                    vacuous_escape(b@, pos as int);
                }
                return None;
            }
            let h2 = match hex_val_exec(b[pos + 4]) {
                Some(v) => v,
                None => {
                    proof {
                        vacuous_escape(b@, pos as int);
                    }
                    return None;
                },
            };
            let h3 = match hex_val_exec(b[pos + 5]) {
                Some(v) => v,
                None => {
                    proof {
                        vacuous_escape(b@, pos as int);
                    }
                    return None;
                },
            };
            out.push(h2 * 16 + h3);
            let ghost mid = out@;
            let rec = scan_esc(b, pos + 6, out);
            proof {
                assert forall|s: Seq<u8>| esc_at(b@, pos as int, s) implies (rec matches Some(p)
                    && p == pos + esc_seq(s).len() + 1 && out@ == old(out)@ + s) by {
                    assert(s.len() > 0) by {
                        if s.len() == 0 {
                            assert(b@[pos as int] == 34);
                        }
                    }
                    lemma_esc_at_step(b@, pos as int, s);
                    lemma_esc_byte(s[0]);
                    assert(s[0] < 32) by {
                        if s[0] == 34 || s[0] == 92 {
                            assert(b@[pos + 1] == s[0]);
                        } else if s[0] >= 32 {
                            assert(b@[pos as int] == s[0]);
                        }
                    }
                    assert(b@[pos + 4] == hex_digit(s[0] / 16));
                    assert(b@[pos + 5] == hex_digit(s[0] % 16));
                    assert(h2 == s[0] / 16 && h3 == s[0] % 16);
                    assert(h2 * 16 + h3 == s[0]);
                    assert(esc_at(b@, pos + 6, s.drop_first()));
                    assert(mid =~= old(out)@ + seq![s[0]]);
                    assert(out@ == mid + s.drop_first());
                    assert(old(out)@ + seq![s[0]] + s.drop_first() =~= old(out)@ + s);
                }
            }
            return rec;
        }
        proof {
            vacuous_escape(b@, pos as int);
        }
        return None;
    }
    out.push(c);
    let ghost mid = out@;
    let rec = scan_esc(b, pos + 1, out);
    proof {
        assert forall|s: Seq<u8>| esc_at(b@, pos as int, s) implies (rec matches Some(p) && p
            == pos + esc_seq(s).len() + 1 && out@ == old(out)@ + s) by {
            assert(s.len() > 0) by {
                if s.len() == 0 {
                    assert(b@[pos as int] == 34);
                }
            }
            lemma_esc_at_step(b@, pos as int, s);
            lemma_esc_byte(s[0]);
            assert(s[0] == c) by {
                if s[0] == 34 || s[0] == 92 || s[0] < 32 {
                    assert(b@[pos as int] == 92);
                }
            }
            assert(esc_at(b@, pos + 1, s.drop_first()));
            assert(mid =~= old(out)@ + seq![s[0]]);
            assert(out@ == mid + s.drop_first());
            assert(old(out)@ + seq![s[0]] + s.drop_first() =~= old(out)@ + s);
        }
    }
    rec
}

/// In a world where the buffer carries an escaped string whose head
/// unit is an escape, that unit is complete and canonical; a failed
/// read refutes that world.
proof fn vacuous_escape(b: Seq<u8>, pos: int)
    requires
        0 <= pos < b.len(),
        b[pos] == 92,
    ensures
        forall|s: Seq<u8>| esc_at(b, pos, s) ==> (s.len() > 0 && (s[0] == 34 || s[0] == 92 || s[0]
            < 32) && pos + esc_byte(s[0]).len() < b.len() && b[pos + 1] == esc_byte(s[0])[1] && (
        s[0] < 32 ==> b[pos + 2] == 48 && b[pos + 3] == 48 && b[pos + 4] == hex_digit(s[0] / 16)
            && b[pos + 5] == hex_digit(s[0] % 16))),
{
    assert forall|s: Seq<u8>| esc_at(b, pos, s) implies (s.len() > 0 && (s[0] == 34 || s[0] == 92
        || s[0] < 32) && pos + esc_byte(s[0]).len() < b.len() && b[pos + 1] == esc_byte(s[0])[1]
        && (s[0] < 32 ==> b[pos + 2] == 48 && b[pos + 3] == 48 && b[pos + 4] == hex_digit(
        s[0] / 16,
    ) && b[pos + 5] == hex_digit(s[0] % 16))) by {
        if s.len() == 0 {
            assert(b[pos] == 34);
        } else {
            lemma_esc_at_step(b, pos, s);
            lemma_esc_byte(s[0]);
            if s[0] != 34 && s[0] != 92 && s[0] >= 32 {
                assert(b[pos] == s[0]);
            }
        }
    }
}

/// Relies on `String::from_utf8`: it succeeds exactly on valid UTF-8
/// and returns the string whose bytes are the input.
#[verifier::external_body]
pub(crate) fn utf8_string(v: &[u8]) -> (r: Option<String>)
    ensures
        r is Some <==> valid_utf8(v@),
        r matches Some(s) ==> encode_utf8(s@) == v@,
{
    String::from_utf8(v.to_vec()).ok()
}

/// Relies on `String::from_utf8`: for ASCII bytes (always valid UTF-8)
/// the returned string's byte image is exactly the input.
#[verifier::external_body]
pub(crate) fn ascii_string(v: &[u8]) -> (r: String)
    requires
        forall|i: int| 0 <= i < v@.len() ==> v@[i] < 128,
    ensures
        encode_utf8(r@) == v@,
{
    String::from_utf8(v.to_vec()).unwrap_or_default()
}

} // verus!
