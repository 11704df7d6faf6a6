//! base64url without padding, as JWT uses between the dots of a token.
//!
//! The encoding is written out here (it is a few lines of spec); the
//! decoder promises only that it inverts the encoder: on any buffer
//! that is the encoding of some bytes it yields exactly those bytes.

use vstd::prelude::*;

verus! {

/// The base64url alphabet: `A`-`Z`, `a`-`z`, `0`-`9`, `-`, `_`.
pub open spec fn b64_char(v: u8) -> u8 {
    if v < 26 {
        (65 + v) as u8
    } else if v < 52 {
        (97 + (v - 26)) as u8
    } else if v < 62 {
        (48 + (v - 52)) as u8
    } else if v == 62 {
        45
    } else {
        95
    }
}

/// The inverse alphabet table.
pub open spec fn b64_val(c: u8) -> Option<u8> {
    if 65 <= c <= 90 {
        Some((c - 65) as u8)
    } else if 97 <= c <= 122 {
        Some(((c - 97) + 26) as u8)
    } else if 48 <= c <= 57 {
        Some(((c - 48) + 52) as u8)
    } else if c == 45 {
        Some(62u8)
    } else if c == 95 {
        Some(63u8)
    } else {
        None
    }
}

pub proof fn lemma_b64_char(v: u8)
    requires
        v < 64,
    ensures
        b64_val(b64_char(v)) == Some(v),
        b64_char(v) < 128,
        b64_char(v) != 46,
{
}

/// base64url of a byte string, three bytes to four characters, the
/// final one or two bytes to two or three characters, no padding.
pub open spec fn b64_encode_bytes(s: Seq<u8>) -> Seq<u8>
    decreases s.len(),
{
    if s.len() == 0 {
        Seq::empty()
    } else if s.len() == 1 {
        seq![b64_char(s[0] >> 2), b64_char((s[0] & 3) << 4)]
    } else if s.len() == 2 {
        seq![
            b64_char(s[0] >> 2),
            b64_char(((s[0] & 3) << 4) | (s[1] >> 4)),
            b64_char((s[1] & 15) << 2),
        ]
    } else {
        seq![
            b64_char(s[0] >> 2),
            b64_char(((s[0] & 3) << 4) | (s[1] >> 4)),
            b64_char(((s[1] & 15) << 2) | (s[2] >> 6)),
            b64_char(s[2] & 63),
        ] + b64_encode_bytes(s.skip(3))
    }
}

/// Encoded text is ASCII and carries no dot: the alphabet stays below
/// 128 and does not include byte 46.
pub proof fn lemma_b64_encode_wf(s: Seq<u8>)
    ensures
        forall|i: int| 0 <= i < b64_encode_bytes(s).len() ==> #[trigger] b64_encode_bytes(s)[i]
            < 128 && b64_encode_bytes(s)[i] != 46,
    decreases s.len(),
{
    assert forall|v: u8| true implies #[trigger] b64_char(v) < 128 && b64_char(v) != 46 by {}
    if s.len() >= 3 {
        lemma_b64_encode_wf(s.skip(3));
        assert forall|i: int|
            0 <= i < b64_encode_bytes(s).len() implies #[trigger] b64_encode_bytes(s)[i] < 128
            && b64_encode_bytes(s)[i] != 46 by {
            if i >= 4 {
                assert(b64_encode_bytes(s)[i] == b64_encode_bytes(s.skip(3))[i - 4]);
            }
        }
    }
}

/// Encoding distributes over splitting at a multiple of three bytes.
pub proof fn lemma_b64_concat(u: Seq<u8>, v: Seq<u8>)
    requires
        u.len() % 3 == 0,
    ensures
        b64_encode_bytes(u + v) == b64_encode_bytes(u) + b64_encode_bytes(v),
    decreases u.len(),
{
    if u.len() == 0 {
        assert(u + v =~= v);
        assert(b64_encode_bytes(u) + b64_encode_bytes(v) =~= b64_encode_bytes(v));
    } else {
        let w = u + v;
        assert(w.len() >= 3);
        assert(w.skip(3) =~= u.skip(3) + v);
        lemma_b64_concat(u.skip(3), v);
        assert(w[0] == u[0] && w[1] == u[1] && w[2] == u[2]);
        assert(b64_encode_bytes(u + v) =~= b64_encode_bytes(u) + b64_encode_bytes(v));
    }
}

fn b64_char_exec(v: u8) -> (r: u8)
    ensures
        r == b64_char(v),
{
    if v < 26 {
        65 + v
    } else if v < 52 {
        97 + (v - 26)
    } else if v < 62 {
        48 + (v - 52)
    } else if v == 62 {
        45
    } else {
        95
    }
}

fn b64_val_exec(c: u8) -> (r: Option<u8>)
    ensures
        r == b64_val(c),
{
    if 65 <= c && c <= 90 {
        Some(c - 65)
    } else if 97 <= c && c <= 122 {
        Some((c - 97) + 26)
    } else if 48 <= c && c <= 57 {
        Some((c - 48) + 52)
    } else if c == 45 {
        Some(62)
    } else if c == 95 {
        Some(63)
    } else {
        None
    }
}

/// Encodes `s` in base64url without padding.
pub fn b64_encode(s: &[u8]) -> (out: Vec<u8>)
    ensures
        out@ == b64_encode_bytes(s@),
{
    let n = s.len();
    let mut out: Vec<u8> = Vec::new();
    let mut i: usize = 0;
    proof {
        assert(s@.take(0) =~= Seq::<u8>::empty());
    }
    while n - i >= 3
        invariant
            i <= n == s@.len(),
            i % 3 == 0,
            out@ == b64_encode_bytes(s@.take(i as int)),
        decreases n - i,
    {
        let x0 = s[i];
        let x1 = s[i + 1];
        let x2 = s[i + 2];
        out.push(b64_char_exec(x0 >> 2));
        out.push(b64_char_exec(((x0 & 3) << 4) | (x1 >> 4)));
        out.push(b64_char_exec(((x1 & 15) << 2) | (x2 >> 6)));
        out.push(b64_char_exec(x2 & 63));
        proof {
            let u = s@.take(i as int);
            let q = s@.subrange(i as int, i + 3);
            assert(s@.take(i + 3) =~= u + q);
            lemma_b64_concat(u, q);
            assert(q.len() == 3);
            assert(q[0] == x0 && q[1] == x1 && q[2] == x2);
            assert(q.skip(3) =~= Seq::<u8>::empty());
            assert(b64_encode_bytes(q.skip(3)) =~= Seq::<u8>::empty());
            assert(b64_encode_bytes(q) =~= seq![
                b64_char(x0 >> 2),
                b64_char(((x0 & 3) << 4) | (x1 >> 4)),
                b64_char(((x1 & 15) << 2) | (x2 >> 6)),
                b64_char(x2 & 63),
            ]);
            assert(out@ =~= b64_encode_bytes(u) + b64_encode_bytes(q));
        }
        i = i + 3;
    }
    if n - i == 1 {
        let x0 = s[i];
        out.push(b64_char_exec(x0 >> 2));
        out.push(b64_char_exec((x0 & 3) << 4));
        proof {
            let u = s@.take(i as int);
            let q = s@.subrange(i as int, n as int);
            assert(s@ =~= u + q);
            lemma_b64_concat(u, q);
            assert(q.len() == 1 && q[0] == x0);
            assert(b64_encode_bytes(q) =~= seq![b64_char(x0 >> 2), b64_char((x0 & 3) << 4)]);
            assert(out@ =~= b64_encode_bytes(u) + b64_encode_bytes(q));
        }
    } else if n - i == 2 {
        let x0 = s[i];
        let x1 = s[i + 1];
        out.push(b64_char_exec(x0 >> 2));
        out.push(b64_char_exec(((x0 & 3) << 4) | (x1 >> 4)));
        out.push(b64_char_exec((x1 & 15) << 2));
        proof {
            let u = s@.take(i as int);
            let q = s@.subrange(i as int, n as int);
            assert(s@ =~= u + q);
            lemma_b64_concat(u, q);
            assert(q.len() == 2 && q[0] == x0 && q[1] == x1);
            assert(b64_encode_bytes(q) =~= seq![
                b64_char(x0 >> 2),
                b64_char(((x0 & 3) << 4) | (x1 >> 4)),
                b64_char((x1 & 15) << 2),
            ]);
            assert(out@ =~= b64_encode_bytes(u) + b64_encode_bytes(q));
        }
    } else {
        proof {
            assert(s@.take(i as int) =~= s@);
        }
    }
    out
}

proof fn lemma_unpack_one(x0: u8)
    ensures
        ((x0 >> 2) << 2) | (((x0 & 3) << 4) >> 4) == x0,
{
    assert(((x0 >> 2) << 2) | (((x0 & 3) << 4) >> 4) == x0) by (bit_vector);
}

proof fn lemma_unpack_two(x0: u8, x1: u8)
    ensures
        ((x0 >> 2) << 2) | ((((x0 & 3) << 4) | (x1 >> 4)) >> 4) == x0,
        (((((x0 & 3) << 4) | (x1 >> 4)) & 15) << 4) | (((x1 & 15) << 2) >> 2) == x1,
{
    assert(((x0 >> 2) << 2) | ((((x0 & 3) << 4) | (x1 >> 4)) >> 4) == x0) by (bit_vector);
    assert((((((x0 & 3) << 4) | (x1 >> 4)) & 15) << 4) | (((x1 & 15) << 2) >> 2) == x1)
        by (bit_vector);
}

proof fn lemma_unpack_three(x0: u8, x1: u8, x2: u8)
    ensures
        ((x0 >> 2) << 2) | ((((x0 & 3) << 4) | (x1 >> 4)) >> 4) == x0,
        (((((x0 & 3) << 4) | (x1 >> 4)) & 15) << 4) | (((((x1 & 15) << 2) | (x2 >> 6)) >> 2))
            == x1,
        ((((x1 & 15) << 2) | (x2 >> 6)) & 3) << 6 | (x2 & 63) == x2,
{
    assert(((x0 >> 2) << 2) | ((((x0 & 3) << 4) | (x1 >> 4)) >> 4) == x0) by (bit_vector);
    assert((((((x0 & 3) << 4) | (x1 >> 4)) & 15) << 4) | (((((x1 & 15) << 2) | (x2 >> 6)) >> 2))
        == x1) by (bit_vector);
    assert(((((x1 & 15) << 2) | (x2 >> 6)) & 3) << 6 | (x2 & 63) == x2) by (bit_vector);
}

/// Decodes base64url, appending to `out`. Wherever the input from
/// `pos` on is the encoding of some byte string, the call succeeds and
/// appends exactly that string.
pub fn b64_decode_into(b: &[u8], pos: usize, out: &mut Vec<u8>) -> (ok: bool)
    requires
        pos <= b@.len(),
    ensures
        forall|x: Seq<u8>| b@.skip(pos as int) == b64_encode_bytes(x) ==> (ok && final(out)@
            == old(out)@ + x),
    decreases b@.len() - pos,
{
    let blen = b.len();
    let rem = blen - pos;
    if rem == 0 {
        proof {
            assert forall|x: Seq<u8>|
                b@.skip(pos as int) == b64_encode_bytes(x) implies out@ == old(out)@ + x by {
                lemma_b64_len_cases(x, 0);
                assert(x =~= Seq::<u8>::empty());
                assert(out@ =~= out@ + x);
            }
        }
        return true;
    }
    if rem == 1 {
        proof {
            assert forall|x: Seq<u8>|
                b@.skip(pos as int) == b64_encode_bytes(x) implies false by {
                lemma_b64_len_cases(x, 1);
            }
        }
        return false;
    }
    let c0 = match b64_val_exec(b[pos]) {
        Some(v) => v,
        None => {
            proof {
                vacuous_no_alphabet(b@, pos as int);
            }
            return false;
        },
    };
    let c1 = match b64_val_exec(b[pos + 1]) {
        Some(v) => v,
        None => {
            proof {
                vacuous_no_alphabet(b@, pos as int);
            }
            return false;
        },
    };
    if rem == 2 {
        out.push((c0 << 2) | (c1 >> 4));
        proof {
            assert forall|x: Seq<u8>| b@.skip(pos as int) == b64_encode_bytes(x) implies out@
                == old(out)@ + x by {
                lemma_b64_len_cases(x, b@.skip(pos as int).len() as int);
                assert(x.len() == 1);
                let x0 = x[0];
                lemma_group_bounds(x0, 0, 0);
                lemma_b64_char(x0 >> 2);
                lemma_b64_char((x0 & 3) << 4);
                let e = b@.skip(pos as int);
                assert(e[0] == b@[pos as int] && e[1] == b@[pos + 1]);
                assert(e[0] == b64_char(x0 >> 2));
                assert(e[1] == b64_char((x0 & 3) << 4));
                assert(c0 == x0 >> 2 && c1 == (x0 & 3) << 4);
                lemma_unpack_one(x0);
                assert(out@ =~= old(out)@ + x);
            }
        }
        return true;
    }
    let c2 = match b64_val_exec(b[pos + 2]) {
        Some(v) => v,
        None => {
            proof {
                vacuous_no_alphabet(b@, pos as int);
            }
            return false;
        },
    };
    if rem == 3 {
        out.push((c0 << 2) | (c1 >> 4));
        out.push((c1 << 4) | (c2 >> 2));
        proof {
            assert forall|x: Seq<u8>| b@.skip(pos as int) == b64_encode_bytes(x) implies out@
                == old(out)@ + x by {
                lemma_b64_len_cases(x, b@.skip(pos as int).len() as int);
                assert(x.len() == 2);
                let x0 = x[0];
                let x1 = x[1];
                lemma_group_bounds(x0, x1, 0);
                lemma_b64_char(x0 >> 2);
                lemma_b64_char(((x0 & 3) << 4) | (x1 >> 4));
                lemma_b64_char((x1 & 15) << 2);
                let e = b@.skip(pos as int);
                assert(e[0] == b@[pos as int] && e[1] == b@[pos + 1] && e[2] == b@[pos + 2]);
                assert(e[0] == b64_char(x0 >> 2));
                assert(e[1] == b64_char(((x0 & 3) << 4) | (x1 >> 4)));
                assert(e[2] == b64_char((x1 & 15) << 2));
                assert(c0 == x0 >> 2 && c1 == (((x0 & 3) << 4) | (x1 >> 4)) && c2 == ((x1 & 15)
                    << 2));
                lemma_unpack_two(x0, x1);
                assert((c1 << 4) == ((c1 & 15) << 4)) by (bit_vector)
                    requires
                        c1 < 64,
                ;
                assert(out@ =~= old(out)@ + x);
            }
        }
        return true;
    }
    let c3 = match b64_val_exec(b[pos + 3]) {
        Some(v) => v,
        None => {
            proof {
                vacuous_no_alphabet(b@, pos as int);
            }
            return false;
        },
    };
    out.push((c0 << 2) | (c1 >> 4));
    out.push((c1 << 4) | (c2 >> 2));
    out.push((c2 << 6) | c3);
    let ghost mid = out@;
    let ok = b64_decode_into(b, pos + 4, out);
    if !ok {
        proof {
            assert forall|x: Seq<u8>|
                b@.skip(pos as int) == b64_encode_bytes(x) implies false by {
                lemma_b64_len_cases(x, b@.skip(pos as int).len() as int);
                assert(x.len() >= 3);
                assert(b@.skip(pos + 4) =~= b@.skip(pos as int).skip(4));
                assert(b@.skip(pos as int).skip(4) =~= b64_encode_bytes(x.skip(3)));
            }
        }
        return false;
    }
    proof {
        assert forall|x: Seq<u8>| b@.skip(pos as int) == b64_encode_bytes(x) implies out@
            == old(out)@ + x by {
            lemma_b64_len_cases(x, b@.skip(pos as int).len() as int);
            assert(x.len() >= 3);
            let x0 = x[0];
            let x1 = x[1];
            let x2 = x[2];
            lemma_group_bounds(x0, x1, x2);
            lemma_b64_char(x0 >> 2);
            lemma_b64_char(((x0 & 3) << 4) | (x1 >> 4));
            lemma_b64_char(((x1 & 15) << 2) | (x2 >> 6));
            lemma_b64_char(x2 & 63);
            let e = b@.skip(pos as int);
            assert(e[0] == b@[pos as int] && e[1] == b@[pos + 1] && e[2] == b@[pos + 2] && e[3]
                == b@[pos + 3]);
            assert(e[0] == b64_char(x0 >> 2));
            assert(e[1] == b64_char(((x0 & 3) << 4) | (x1 >> 4)));
            assert(e[2] == b64_char(((x1 & 15) << 2) | (x2 >> 6)));
            assert(e[3] == b64_char(x2 & 63));
            assert(c0 == x0 >> 2 && c1 == (((x0 & 3) << 4) | (x1 >> 4)));
            assert(c2 == (((x1 & 15) << 2) | (x2 >> 6)) && c3 == (x2 & 63));
            lemma_unpack_three(x0, x1, x2);
            assert((c1 << 4) == ((c1 & 15) << 4)) by (bit_vector)
                requires
                    c1 < 64,
            ;
            assert((c2 << 6) == ((c2 & 3) << 6)) by (bit_vector)
                requires
                    c2 < 64,
            ;
            assert(mid =~= old(out)@ + seq![x0, x1, x2]);
            assert(b@.skip(pos + 4) =~= b@.skip(pos as int).skip(4));
            assert(b@.skip(pos as int).skip(4) =~= b64_encode_bytes(x.skip(3)));
            assert(out@ == mid + x.skip(3));
            assert(old(out)@ + seq![x0, x1, x2] + x.skip(3) =~= old(out)@ + x);
        }
    }
    true
}

/// Case split on the length of an encoding: nothing encodes to one
/// character, two characters come from one byte, three from two, four
/// or more from at least three.
proof fn lemma_b64_len_cases(x: Seq<u8>, n: int)
    requires
        b64_encode_bytes(x).len() == n,
    ensures
        n == 0 ==> x.len() == 0,
        n != 1,
        n == 2 ==> x.len() == 1,
        n == 3 ==> x.len() == 2,
        n >= 4 ==> x.len() >= 3,
{
    if x.len() == 0 {
    } else if x.len() == 1 {
        assert(n == 2);
    } else if x.len() == 2 {
        assert(n == 3);
    } else {
        assert(n >= 4);
    }
}

/// The six-bit groups fed to the alphabet are below 64.
proof fn lemma_group_bounds(a: u8, b: u8, c: u8)
    ensures
        a >> 2 < 64,
        (a & 3) << 4 < 64,
        ((a & 3) << 4) | (b >> 4) < 64,
        (b & 15) << 2 < 64,
        ((b & 15) << 2) | (c >> 6) < 64,
        c & 63 < 64,
{
    assert(a >> 2 < 64) by (bit_vector);
    assert((a & 3) << 4 < 64) by (bit_vector);
    assert(((a & 3) << 4) | (b >> 4) < 64) by (bit_vector);
    assert((b & 15) << 2 < 64) by (bit_vector);
    assert(((b & 15) << 2) | (c >> 6) < 64) by (bit_vector);
    assert(c & 63 < 64) by (bit_vector);
}

/// In a world where the input is an encoding, its first characters are
/// alphabet characters; a failed lookup refutes that world.
proof fn vacuous_no_alphabet(b: Seq<u8>, pos: int)
    requires
        0 <= pos <= b.len(),
        b.len() - pos >= 2,
    ensures
        forall|x: Seq<u8>| b.skip(pos) == b64_encode_bytes(x) ==> (b64_val(b[pos]) is Some
            && b64_val(b[pos + 1]) is Some && (b.len() - pos >= 3 ==> b64_val(b[pos + 2]) is Some)
            && (b.len() - pos >= 4 ==> b64_val(b[pos + 3]) is Some)),
{
    assert forall|x: Seq<u8>| b.skip(pos) == b64_encode_bytes(x) implies (b64_val(b[pos]) is Some
        && b64_val(b[pos + 1]) is Some && (b.len() - pos >= 3 ==> b64_val(b[pos + 2]) is Some)
        && (b.len() - pos >= 4 ==> b64_val(b[pos + 3]) is Some)) by {
        lemma_b64_len_cases(x, b.len() - pos);
        let e = b.skip(pos);
        assert(e[0] == b[pos] && e[1] == b[pos + 1]);
        if b.len() - pos >= 3 {
            assert(e[2] == b[pos + 2]);
        }
        if b.len() - pos >= 4 {
            assert(e[3] == b[pos + 3]);
        }
        if x.len() == 1 {
            lemma_group_bounds(x[0], 0, 0);
            lemma_b64_char(x[0] >> 2);
            lemma_b64_char((x[0] & 3) << 4);
        } else if x.len() == 2 {
            lemma_group_bounds(x[0], x[1], 0);
            lemma_b64_char(x[0] >> 2);
            lemma_b64_char(((x[0] & 3) << 4) | (x[1] >> 4));
            lemma_b64_char((x[1] & 15) << 2);
        } else {
            lemma_group_bounds(x[0], x[1], x[2]);
            lemma_b64_char(x[0] >> 2);
            lemma_b64_char(((x[0] & 3) << 4) | (x[1] >> 4));
            lemma_b64_char(((x[1] & 15) << 2) | (x[2] >> 6));
            lemma_b64_char(x[2] & 63);
        }
    }
}

} // verus!
