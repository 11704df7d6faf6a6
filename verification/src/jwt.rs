//! Signed session tokens.
//!
//! A token is `base64url(header) "." base64url(claims) "." signature`,
//! the JWT shape: the header is the fixed HMAC-SHA256 header, the
//! claims are a JSON record in one canonical spelling, and the
//! signature comes from the jsonwebtokens crate. Everything but the
//! HMAC itself — serializing, splitting, decoding, parsing, and the
//! temporal checks — is verified here; verification recomputes the
//! signature over the re-serialized claims and compares tokens whole,
//! which is also how the crate's own HMAC verifier works.

use vstd::prelude::*;
use vstd::utf8::encode_utf8;
use vstd::utf8::valid_utf8;

use crate::MaaError;
use crate::MaaResult;
use crate::b64::b64_encode;
use crate::b64::b64_encode_bytes;
use crate::b64::b64_decode_into;
use crate::b64::lemma_b64_encode_wf;
use crate::codec::ascii_string;
use crate::codec::bytes_eq;
use crate::codec::esc_at;
use crate::codec::esc_seq;
use crate::codec::push_esc;
use crate::codec::scan_esc;
use crate::codec::utf8_string;
use crate::codec::copy_range;
use crate::codec::dec_digits;
use crate::codec::find_byte;
use crate::codec::match_lit;
use crate::codec::push_bytes;
use crate::codec::push_dec;
use crate::codec::scan_dec;

verus! {

// The literal pieces of the canonical claims JSON, as bytes.
/// `{"sub":"`
pub open spec fn k_open_sub() -> Seq<u8> {
    seq![123u8, 34, 115, 117, 98, 34, 58, 34]
}

/// `,"jti":"`
pub open spec fn k_jti() -> Seq<u8> {
    seq![44u8, 34, 106, 116, 105, 34, 58, 34]
}

/// `,"Authorities":[`
pub open spec fn k_auths() -> Seq<u8> {
    seq![44u8, 34, 65, 117, 116, 104, 111, 114, 105, 116, 105, 101, 115, 34, 58, 91]
}

/// `],"iat":`
pub open spec fn k_iat() -> Seq<u8> {
    seq![93u8, 44, 34, 105, 97, 116, 34, 58]
}

/// `,"iat":` (for the refresh record, which has no list before it)
pub open spec fn k_iat_refresh() -> Seq<u8> {
    seq![44u8, 34, 105, 97, 116, 34, 58]
}

/// `,"exp":`
pub open spec fn k_exp() -> Seq<u8> {
    seq![44u8, 34, 101, 120, 112, 34, 58]
}

/// `,"nbf":`
pub open spec fn k_nbf() -> Seq<u8> {
    seq![44u8, 34, 110, 98, 102, 34, 58]
}

/// `,"typ":"`
pub open spec fn k_typ() -> Seq<u8> {
    seq![44u8, 34, 116, 121, 112, 34, 58, 34]
}

/// `"}`
pub open spec fn k_end() -> Seq<u8> {
    seq![34u8, 125]
}

/// `"` alone: the quote that closes a string.
pub open spec fn q() -> Seq<u8> {
    seq![34u8]
}

/// `{"alg":"HS256"}` — the fixed token header.
pub open spec fn k_header() -> Seq<u8> {
    seq![123u8, 34, 97, 108, 103, 34, 58, 34, 72, 83, 50, 53, 54, 34, 125]
}

/// `auth` — the type tag of access tokens.
pub open spec fn k_typ_auth() -> Seq<u8> {
    seq![97u8, 117, 116, 104]
}

/// `refresh` — the type tag of refresh tokens.
pub open spec fn k_typ_refresh() -> Seq<u8> {
    seq![114u8, 101, 102, 114, 101, 115, 104]
}

fn k_open_sub_vec() -> (v: Vec<u8>)
    ensures
        v@ == k_open_sub(),
{
    let v = vec![123u8, 34, 115, 117, 98, 34, 58, 34];
    proof {
        assert(v@ =~= k_open_sub());
    }
    v
}

fn k_jti_vec() -> (v: Vec<u8>)
    ensures
        v@ == k_jti(),
{
    let v = vec![44u8, 34, 106, 116, 105, 34, 58, 34];
    proof {
        assert(v@ =~= k_jti());
    }
    v
}

fn k_auths_vec() -> (v: Vec<u8>)
    ensures
        v@ == k_auths(),
{
    let v = vec![44u8, 34, 65, 117, 116, 104, 111, 114, 105, 116, 105, 101, 115, 34, 58, 91];
    proof {
        assert(v@ =~= k_auths());
    }
    v
}

fn k_iat_vec() -> (v: Vec<u8>)
    ensures
        v@ == k_iat(),
{
    let v = vec![93u8, 44, 34, 105, 97, 116, 34, 58];
    proof {
        assert(v@ =~= k_iat());
    }
    v
}

fn k_iat_refresh_vec() -> (v: Vec<u8>)
    ensures
        v@ == k_iat_refresh(),
{
    let v = vec![44u8, 34, 105, 97, 116, 34, 58];
    proof {
        assert(v@ =~= k_iat_refresh());
    }
    v
}

fn k_exp_vec() -> (v: Vec<u8>)
    ensures
        v@ == k_exp(),
{
    let v = vec![44u8, 34, 101, 120, 112, 34, 58];
    proof {
        assert(v@ =~= k_exp());
    }
    v
}

fn k_nbf_vec() -> (v: Vec<u8>)
    ensures
        v@ == k_nbf(),
{
    let v = vec![44u8, 34, 110, 98, 102, 34, 58];
    proof {
        assert(v@ =~= k_nbf());
    }
    v
}

fn k_typ_vec() -> (v: Vec<u8>)
    ensures
        v@ == k_typ(),
{
    let v = vec![44u8, 34, 116, 121, 112, 34, 58, 34];
    proof {
        assert(v@ =~= k_typ());
    }
    v
}

fn k_header_vec() -> (v: Vec<u8>)
    ensures
        v@ == k_header(),
{
    let v = vec![123u8, 34, 97, 108, 103, 34, 58, 34, 72, 83, 50, 53, 54, 34, 125];
    proof {
        assert(v@ =~= k_header());
    }
    v
}

fn k_typ_auth_vec() -> (v: Vec<u8>)
    ensures
        v@ == k_typ_auth(),
{
    let v = vec![97u8, 117, 116, 104];
    proof {
        assert(v@ =~= k_typ_auth());
    }
    v
}

fn k_typ_refresh_vec() -> (v: Vec<u8>)
    ensures
        v@ == k_typ_refresh(),
{
    let v = vec![114u8, 101, 102, 114, 101, 115, 104];
    proof {
        assert(v@ =~= k_typ_refresh());
    }
    v
}

/// The claims of an access token.
pub struct JwtAuthClaims {
    pub sub: String,
    pub jti: Option<String>,
    pub auth: Vec<String>,
    pub iat: i64,
    pub exp: i64,
    pub nbf: i64,
    pub typ: String,
}

/// The claims of a refresh token.
pub struct JwtRefreshClaims {
    pub sub: String,
    pub jti: Option<String>,
    pub iat: i64,
    pub exp: i64,
    pub nbf: i64,
    pub typ: String,
}

/// The mathematical image of access-token claims: each string as its
/// UTF-8 bytes, each timestamp as an integer.
pub struct AuthClaimsView {
    pub sub: Seq<u8>,
    pub jti: Option<Seq<u8>>,
    pub auth: Seq<Seq<u8>>,
    pub iat: int,
    pub exp: int,
    pub nbf: int,
    pub typ: Seq<u8>,
}

/// The mathematical image of refresh-token claims.
pub struct RefreshClaimsView {
    pub sub: Seq<u8>,
    pub jti: Option<Seq<u8>>,
    pub iat: int,
    pub exp: int,
    pub nbf: int,
    pub typ: Seq<u8>,
}

impl View for JwtAuthClaims {
    type V = AuthClaimsView;

    open spec fn view(&self) -> AuthClaimsView {
        AuthClaimsView {
            sub: encode_utf8(self.sub@),
            jti: match self.jti {
                Some(j) => Some(encode_utf8(j@)),
                None => None,
            },
            auth: self.auth@.map_values(|s: String| encode_utf8(s@)),
            iat: self.iat as int,
            exp: self.exp as int,
            nbf: self.nbf as int,
            typ: encode_utf8(self.typ@),
        }
    }
}

impl View for JwtRefreshClaims {
    type V = RefreshClaimsView;

    open spec fn view(&self) -> RefreshClaimsView {
        RefreshClaimsView {
            sub: encode_utf8(self.sub@),
            jti: match self.jti {
                Some(j) => Some(encode_utf8(j@)),
                None => None,
            },
            iat: self.iat as int,
            exp: self.exp as int,
            nbf: self.nbf as int,
            typ: encode_utf8(self.typ@),
        }
    }
}

/// A timestamp the codec can carry: non-negative and below 10^18
/// (about 31 billion years after the epoch), so that its decimal form
/// has at most 18 digits.
pub open spec fn wf_stamp(n: int) -> bool {
    0 <= n < 1_000_000_000_000_000_000
}

pub open spec fn wf_opt_utf8(j: Option<Seq<u8>>) -> bool {
    match j {
        Some(s) => valid_utf8(s),
        None => true,
    }
}

/// Claims the codec can carry: every string the bytes of some text
/// (valid UTF-8 — true of every Rust string), every timestamp in
/// range.
pub open spec fn wf_auth_claims(c: AuthClaimsView) -> bool {
    &&& valid_utf8(c.sub)
    &&& wf_opt_utf8(c.jti)
    &&& forall|i: int| 0 <= i < c.auth.len() ==> valid_utf8(#[trigger] c.auth[i])
    &&& wf_stamp(c.iat)
    &&& wf_stamp(c.exp)
    &&& wf_stamp(c.nbf)
    &&& valid_utf8(c.typ)
}

pub open spec fn wf_refresh_claims(c: RefreshClaimsView) -> bool {
    &&& valid_utf8(c.sub)
    &&& wf_opt_utf8(c.jti)
    &&& wf_stamp(c.iat)
    &&& wf_stamp(c.exp)
    &&& wf_stamp(c.nbf)
    &&& valid_utf8(c.typ)
}

/// A JSON string: the escaped content between double quotes.
pub open spec fn json_str(s: Seq<u8>) -> Seq<u8> {
    q() + esc_seq(s) + q()
}

/// A JSON list of strings, comma separated, without the brackets.
pub open spec fn json_str_list(l: Seq<Seq<u8>>) -> Seq<u8>
    decreases l.len(),
{
    if l.len() == 0 {
        Seq::empty()
    } else if l.len() == 1 {
        json_str(l[0])
    } else {
        json_str(l[0]) + seq![44u8] + json_str_list(l.drop_first())
    }
}

/// The canonical JSON record of access-token claims, in the order
/// sub, jti (omitted when absent), Authorities, iat, exp, nbf, typ.
#[verifier::opaque]
pub open spec fn auth_claims_json(c: AuthClaimsView) -> Seq<u8> {
    k_open_sub() + esc_seq(c.sub) + q() + (match c.jti {
        Some(j) => k_jti() + esc_seq(j) + q(),
        None => Seq::empty(),
    }) + k_auths() + json_str_list(c.auth) + k_iat() + dec_digits(c.iat as nat) + k_exp()
        + dec_digits(c.exp as nat) + k_nbf() + dec_digits(c.nbf as nat) + k_typ() + esc_seq(c.typ)
        + k_end()
}

/// The canonical JSON record of refresh-token claims: the same without
/// the authority list.
#[verifier::opaque]
pub open spec fn refresh_claims_json(c: RefreshClaimsView) -> Seq<u8> {
    k_open_sub() + esc_seq(c.sub) + q() + (match c.jti {
        Some(j) => k_jti() + esc_seq(j) + q(),
        None => Seq::empty(),
    }) + k_iat_refresh() + dec_digits(c.iat as nat) + k_exp() + dec_digits(c.exp as nat) + k_nbf()
        + dec_digits(c.nbf as nat) + k_typ() + esc_seq(c.typ) + k_end()
}

/// Extending a string list by one element appends a comma (after a
/// non-empty prefix) and the new string.
proof fn lemma_json_str_list_snoc(l: Seq<Seq<u8>>, k: int)
    requires
        0 <= k < l.len(),
    ensures
        json_str_list(l.take(k + 1)) == if k == 0 {
            json_str(l[0])
        } else {
            json_str_list(l.take(k)) + seq![44u8] + json_str(l[k])
        },
    decreases k,
{
    if k == 0 {
        assert(l.take(1) =~= seq![l[0]]);
        assert(json_str_list(seq![l[0]]) == json_str(l[0]));
    } else {
        let l1 = l.drop_first();
        lemma_json_str_list_snoc(l1, k - 1);
        assert(l.take(k + 1).drop_first() =~= l1.take(k));
        assert(l.take(k).drop_first() =~= l1.take(k - 1));
        assert(l.take(k + 1)[0] == l[0]);
        assert(l.take(k)[0] == l[0]);
        assert(l.take(k + 1).len() == k + 1);
        assert(l1[k - 1] == l[k]);
        if k == 1 {
            assert(json_str_list(l.take(2)) == json_str(l[0]) + seq![44u8] + json_str_list(
                l1.take(1),
            ));
            assert(l1.take(1) =~= seq![l1[0]]);
            assert(json_str_list(l.take(1)) == json_str(l.take(1)[0]));
            assert(l.take(1)[0] == l[0]);
            assert(json_str_list(l.take(2)) =~= json_str_list(l.take(1)) + seq![44u8] + json_str(
                l[1],
            ));
        } else {
            assert(json_str_list(l.take(k + 1)) == json_str(l[0]) + seq![44u8] + json_str_list(
                l1.take(k),
            ));
            assert(json_str_list(l.take(k)) == json_str(l[0]) + seq![44u8] + json_str_list(
                l1.take(k - 1),
            ));
            assert(json_str_list(l.take(k + 1)) =~= json_str_list(l.take(k)) + seq![44u8]
                + json_str(l[k]));
        }
    }
}

/// Appends the escaped content of a string and its closing quote
/// (the opening quote belongs to the literal before it).
fn push_str_close(out: &mut Vec<u8>, s: &str)
    ensures
        final(out)@ == old(out)@ + esc_seq(encode_utf8(s@)) + q(),
{
    push_esc(out, s.as_bytes());
    out.push(34);
    proof {
        assert(final(out)@ =~= old(out)@ + esc_seq(encode_utf8(s@)) + q());
    }
}

/// Appends `"content"` for a string, escaped.
fn push_json_str(out: &mut Vec<u8>, s: &str)
    ensures
        final(out)@ == old(out)@ + json_str(encode_utf8(s@)),
{
    out.push(34);
    push_esc(out, s.as_bytes());
    out.push(34);
    proof {
        assert(final(out)@ =~= old(out)@ + json_str(encode_utf8(s@)));
    }
}

/// Serializes access-token claims into their canonical JSON record.
pub fn ser_auth_claims(c: &JwtAuthClaims) -> (out: Vec<u8>)
    requires
        wf_auth_claims(c@),
    ensures
        out@ == auth_claims_json(c@),
{
    let mut out: Vec<u8> = Vec::new();
    let ks = k_open_sub_vec();
    push_bytes(&mut out, ks.as_slice());
    proof {
        assert(out@ =~= k_open_sub());
    }
    push_str_close(&mut out, c.sub.as_str());
    let ghost after_sub = k_open_sub() + esc_seq(c@.sub) + q();
    proof {
        assert(out@ =~= after_sub);
    }
    match &c.jti {
        Some(j) => {
            let kj = k_jti_vec();
            push_bytes(&mut out, kj.as_slice());
            push_str_close(&mut out, j.as_str());
        },
        None => {},
    }
    let ghost after_jti = after_sub + (match c@.jti {
        Some(jv) => k_jti() + esc_seq(jv) + q(),
        None => Seq::<u8>::empty(),
    });
    proof {
        assert(out@ =~= after_jti);
    }
    let ka = k_auths_vec();
    push_bytes(&mut out, ka.as_slice());
    let n = c.auth.len();
    let mut i: usize = 0;
    proof {
        assert(c@.auth.take(0) =~= Seq::<Seq<u8>>::empty());
    }
    while i < n
        invariant
            n == c.auth.len(),
            c@.auth.len() == n,
            wf_auth_claims(c@),
            i <= n,
            out@ == after_jti + k_auths() + json_str_list(c@.auth.take(i as int)),
            after_jti == k_open_sub() + esc_seq(c@.sub) + q() + (match c@.jti {
                Some(jv) => k_jti() + esc_seq(jv) + q(),
                None => Seq::<u8>::empty(),
            }),
        decreases n - i,
    {
        if i > 0 {
            out.push(44);
        }
        push_json_str(&mut out, c.auth[i].as_str());
        proof {
            lemma_json_str_list_snoc(c@.auth, i as int);
            assert(c@.auth[i as int] == encode_utf8(c.auth@[i as int]@));
            assert(out@ =~= after_jti + k_auths() + json_str_list(c@.auth.take(i + 1)));
        }
        i = i + 1;
    }
    proof {
        assert(c@.auth.take(n as int) =~= c@.auth);
    }
    let ki = k_iat_vec();
    push_bytes(&mut out, ki.as_slice());
    push_dec(&mut out, c.iat as u64);
    let ke = k_exp_vec();
    push_bytes(&mut out, ke.as_slice());
    push_dec(&mut out, c.exp as u64);
    let kn = k_nbf_vec();
    push_bytes(&mut out, kn.as_slice());
    push_dec(&mut out, c.nbf as u64);
    let kt = k_typ_vec();
    push_bytes(&mut out, kt.as_slice());
    push_esc(&mut out, c.typ.as_str().as_bytes());
    out.push(34);
    out.push(125);
    proof {
        reveal(auth_claims_json);
        assert(out@ =~= auth_claims_json(c@));
    }
    out
}

/// The byte images of a sequence of strings.
pub open spec fn strs_bytes(ss: Seq<String>) -> Seq<Seq<u8>> {
    ss.map_values(|s: String| encode_utf8(s@))
}

/// Parses the comma-separated strings of the authority list, stopping
/// before the closing bracket (which it does not consume). Wherever
/// the buffer carries a canonical list followed by `]` at `pos`, the
/// parse appends exactly those strings and stops at the bracket.
fn parse_items(b: &[u8], pos: usize, out: &mut Vec<String>) -> (r: Option<usize>)
    requires
        pos <= b@.len(),
    ensures
        r matches Some(p) ==> pos <= p <= b@.len(),
        r matches Some(p) ==> final(out)@.len() >= old(out)@.len() && forall|i: int|
            0 <= i < old(out)@.len() ==> final(out)@[i] == old(out)@[i],
        forall|l: Seq<Seq<u8>>|
            {
                &&& (forall|i: int| 0 <= i < l.len() ==> valid_utf8(#[trigger] l[i]))
                &&& pos + json_str_list(l).len() + 1 <= b@.len()
                &&& b@.subrange(pos as int, pos + json_str_list(l).len()) == json_str_list(l)
                &&& b@[pos + json_str_list(l).len()] == 93
            } ==> (r matches Some(p) && p == pos + json_str_list(l).len() && strs_bytes(
                final(out)@,
            ) == strs_bytes(old(out)@) + l),
    decreases b@.len() - pos,
{
    let blen = b.len();
    if pos < blen && b[pos] == 93 {
        proof {
            assert forall|l: Seq<Seq<u8>>|
                {
                    &&& (forall|i: int| 0 <= i < l.len() ==> valid_utf8(#[trigger] l[i]))
                    &&& pos + json_str_list(l).len() + 1 <= b@.len()
                    &&& b@.subrange(pos as int, pos + json_str_list(l).len()) == json_str_list(l)
                    &&& b@[pos + json_str_list(l).len()] == 93
                } implies pos == pos + json_str_list(l).len() && strs_bytes(out@) == strs_bytes(
                out@,
            ) + l by {
                if l.len() > 0 {
                    assert(json_str_list(l)[0] == 34);
                    assert(b@[pos as int] == 34);
                    assert(false);
                }
                assert(l =~= Seq::<Seq<u8>>::empty());
                assert(strs_bytes(out@) =~= strs_bytes(out@) + l);
            }
        }
        return Some(pos);
    }
    if pos >= blen || b[pos] != 34 {
        proof {
            assert forall|l: Seq<Seq<u8>>|
                {
                    &&& (forall|i: int| 0 <= i < l.len() ==> valid_utf8(#[trigger] l[i]))
                    &&& pos + json_str_list(l).len() + 1 <= b@.len()
                    &&& b@.subrange(pos as int, pos + json_str_list(l).len()) == json_str_list(l)
                    &&& b@[pos + json_str_list(l).len()] == 93
                } implies false by {
                if l.len() == 0 {
                    assert(b@[pos as int] == 93);
                } else {
                    assert(json_str_list(l)[0] == 34);
                    assert(b@[pos as int] == 34);
                }
            }
        }
        return None;
    }
    // an item: opening quote, escaped content, closing quote
    let mut itemv: Vec<u8> = Vec::new();
    let p1 = match scan_esc(b, pos + 1, &mut itemv) {
        Some(p) => p,
        None => {
            proof {
                assert forall|l: Seq<Seq<u8>>|
                    {
                        &&& (forall|i: int| 0 <= i < l.len() ==> valid_utf8(#[trigger] l[i]))
                        &&& pos + json_str_list(l).len() + 1 <= b@.len()
                        &&& b@.subrange(pos as int, pos + json_str_list(l).len()) == json_str_list(
                            l,
                        )
                        &&& b@[pos + json_str_list(l).len()] == 93
                    } implies false by {
                    assert(l.len() > 0);
                    lemma_item_head(b@, pos as int, l);
                    assert(false);
                }
            }
            return None;
        },
    };
    let s = match utf8_string(itemv.as_slice()) {
        Some(s) => s,
        None => {
            proof {
                assert forall|l: Seq<Seq<u8>>|
                    {
                        &&& (forall|i: int| 0 <= i < l.len() ==> valid_utf8(#[trigger] l[i]))
                        &&& pos + json_str_list(l).len() + 1 <= b@.len()
                        &&& b@.subrange(pos as int, pos + json_str_list(l).len()) == json_str_list(
                            l,
                        )
                        &&& b@[pos + json_str_list(l).len()] == 93
                    } implies false by {
                    assert(l.len() > 0);
                    lemma_item_head(b@, pos as int, l);
                    assert(itemv@ == l[0]);
                    assert(valid_utf8(itemv@));
                    assert(false);
                }
            }
            return None;
        },
    };
    let ghost out_mid = out@;
    out.push(s);
    proof {
        assert(strs_bytes(out@) =~= strs_bytes(out_mid) + seq![itemv@]);
    }
    if p1 < blen && b[p1] == 44 {
        let rec = parse_items(b, p1 + 1, out);
        proof {
            assert forall|l: Seq<Seq<u8>>|
                {
                    &&& (forall|i: int| 0 <= i < l.len() ==> valid_utf8(#[trigger] l[i]))
                    &&& pos + json_str_list(l).len() + 1 <= b@.len()
                    &&& b@.subrange(pos as int, pos + json_str_list(l).len()) == json_str_list(l)
                    &&& b@[pos + json_str_list(l).len()] == 93
                } implies (rec matches Some(p) && p == pos + json_str_list(l).len() && strs_bytes(
                out@,
            ) == strs_bytes(old(out)@) + l) by {
                assert(l.len() > 0);
                lemma_item_head(b@, pos as int, l);
                let l0 = l[0];
                let el = esc_seq(l0).len() as int;
                assert(itemv@ == l0 && p1 == pos + el + 2);
                if l.len() == 1 {
                    assert(json_str_list(l) == json_str(l0));
                    assert(b@[p1 as int] == 93);
                    assert(false);
                }
                let rest = l.drop_first();
                assert(json_str_list(l) == json_str(l0) + seq![44u8] + json_str_list(rest));
                assert(b@[p1 as int] == json_str_list(l)[p1 - pos]);
                let jl = json_str_list(rest);
                assert forall|k: int| 0 <= k < jl.len() implies b@[p1 + 1 + k] == jl[k] by {
                    assert(json_str_list(l)[el + 3 + k] == jl[k]);
                }
                assert(b@.subrange(p1 + 1, p1 + 1 + jl.len()) =~= jl);
                assert(b@[p1 + 1 + jl.len()] == 93);
                assert(rec matches Some(p) && p == p1 + 1 + jl.len() && strs_bytes(out@)
                    == strs_bytes(out_mid + seq![s]) + rest);
                assert(strs_bytes(out_mid + seq![s]) =~= strs_bytes(out_mid) + seq![l0]);
                assert(strs_bytes(out_mid) + seq![l0] + rest =~= strs_bytes(out_mid) + l);
            }
        }
        return rec;
    }
    proof {
        assert forall|l: Seq<Seq<u8>>|
            {
                &&& (forall|i: int| 0 <= i < l.len() ==> valid_utf8(#[trigger] l[i]))
                &&& pos + json_str_list(l).len() + 1 <= b@.len()
                &&& b@.subrange(pos as int, pos + json_str_list(l).len()) == json_str_list(l)
                &&& b@[pos + json_str_list(l).len()] == 93
            } implies (p1 == pos + json_str_list(l).len() && strs_bytes(out@) == strs_bytes(
            old(out)@,
        ) + l) by {
            assert(l.len() > 0);
            lemma_item_head(b@, pos as int, l);
            let l0 = l[0];
            let el = esc_seq(l0).len() as int;
            assert(itemv@ == l0 && p1 == pos + el + 2);
            if l.len() > 1 {
                let rest = l.drop_first();
                assert(json_str_list(l) == json_str(l0) + seq![44u8] + json_str_list(rest));
                assert(b@[p1 as int] == json_str_list(l)[el + 2]);
                assert(b@[p1 as int] == 44);
                assert(p1 < b@.len());
                assert(false);
            }
            assert(json_str_list(l) == json_str(l0));
            assert(strs_bytes(out@) =~= strs_bytes(old(out)@) + l);
        }
    }
    Some(p1)
}

/// In a buffer that carries a non-empty canonical list at `pos`, the
/// first item's escaped content sits after an opening quote and ends
/// with a closing quote, so the escape scan pins it.
proof fn lemma_item_head(b: Seq<u8>, pos: int, l: Seq<Seq<u8>>)
    requires
        l.len() > 0,
        0 <= pos,
        pos + json_str_list(l).len() + 1 <= b.len(),
        b.subrange(pos, pos + json_str_list(l).len()) == json_str_list(l),
    ensures
        esc_at(b, pos + 1, l[0]),
{
    let l0 = l[0];
    let e0 = esc_seq(l0);
    let jl = json_str_list(l);
    if l.len() == 1 {
        assert(jl == json_str(l0));
        assert(jl.len() == e0.len() + 2);
        assert forall|k: int| 0 <= k < e0.len() implies b[pos + 1 + k] == e0[k] by {
            assert(jl[1 + k] == e0[k]);
        }
        assert(b.subrange(pos + 1, pos + 1 + e0.len()) =~= e0);
        assert(jl[e0.len() as int + 1] == 34);
    } else {
        assert(jl == json_str(l0) + seq![44u8] + json_str_list(l.drop_first()));
        assert forall|k: int| 0 <= k < e0.len() implies b[pos + 1 + k] == e0[k] by {
            assert(jl[1 + k] == json_str(l0)[1 + k]);
            assert(json_str(l0)[1 + k] == e0[k]);
        }
        assert(b.subrange(pos + 1, pos + 1 + e0.len()) =~= e0);
        assert(jl[e0.len() as int + 1] == json_str(l0)[e0.len() as int + 1]);
        assert(jl[e0.len() as int + 1] == 34);
    }
}

// The offsets of the pieces of the canonical access-claims record.
spec fn a_p2(c: AuthClaimsView) -> int {
    9 + esc_seq(c.sub).len() as int
}

spec fn jti_seg_len(j: Option<Seq<u8>>) -> int {
    match j {
        Some(s) => 9 + esc_seq(s).len() as int,
        None => 0,
    }
}

spec fn a_p3(c: AuthClaimsView) -> int {
    a_p2(c) + jti_seg_len(c.jti)
}

spec fn a_p4(c: AuthClaimsView) -> int {
    a_p3(c) + 16
}

spec fn a_p5(c: AuthClaimsView) -> int {
    a_p4(c) + json_str_list(c.auth).len()
}

spec fn a_p6(c: AuthClaimsView) -> int {
    a_p5(c) + 8
}

spec fn a_p7(c: AuthClaimsView) -> int {
    a_p6(c) + dec_digits(c.iat as nat).len()
}

spec fn a_p8(c: AuthClaimsView) -> int {
    a_p7(c) + 7
}

spec fn a_p9(c: AuthClaimsView) -> int {
    a_p8(c) + dec_digits(c.exp as nat).len()
}

spec fn a_p10(c: AuthClaimsView) -> int {
    a_p9(c) + 7
}

spec fn a_p11(c: AuthClaimsView) -> int {
    a_p10(c) + dec_digits(c.nbf as nat).len()
}

spec fn a_p12(c: AuthClaimsView) -> int {
    a_p11(c) + 8
}

spec fn a_p13(c: AuthClaimsView) -> int {
    a_p12(c) + esc_seq(c.typ).len() as int + 1
}

/// Splits a known prefix of `b` into its two parts.
proof fn lemma_peel(b: Seq<u8>, x: Seq<u8>, s: Seq<u8>, n: int)
    requires
        0 <= n <= b.len(),
        x.len() + s.len() == n,
        b.subrange(0, n) == x + s,
    ensures
        b.subrange(0, x.len() as int) == x,
        b.subrange(x.len() as int, n) == s,
{
    assert forall|i: int| 0 <= i < x.len() implies b.subrange(0, x.len() as int)[i] == x[i] by {
        assert(b.subrange(0, n)[i] == (x + s)[i]);
    }
    assert(b.subrange(0, x.len() as int) =~= x);
    assert forall|i: int| 0 <= i < s.len() implies b.subrange(x.len() as int, n)[i] == s[i] by {
        assert(b.subrange(0, n)[x.len() + i] == (x + s)[x.len() + i]);
        assert((x + s)[x.len() + i] == s[i]);
        assert(b.subrange(0, n)[x.len() + i] == b[x.len() + i]);
        assert(b.subrange(x.len() as int, n)[i] == b[x.len() + i]);
    }
    assert(b.subrange(x.len() as int, n) =~= s);
}

/// Splits a known slice of `b` into its two parts.
proof fn lemma_peel_at(b: Seq<u8>, p: int, x: Seq<u8>, s: Seq<u8>, n: int)
    requires
        0 <= p,
        p + x.len() + s.len() == n,
        n <= b.len(),
        b.subrange(p, n) == x + s,
    ensures
        b.subrange(p, p + x.len()) == x,
        b.subrange(p + x.len(), n) == s,
{
    assert forall|i: int| 0 <= i < x.len() implies b.subrange(p, p + x.len())[i] == x[i] by {
        assert(b.subrange(p, n)[i] == (x + s)[i]);
    }
    assert(b.subrange(p, p + x.len()) =~= x);
    assert forall|i: int| 0 <= i < s.len() implies b.subrange(p + x.len(), n)[i] == s[i] by {
        assert(b.subrange(p, n)[x.len() + i] == (x + s)[x.len() + i]);
        assert((x + s)[x.len() + i] == s[i]);
        assert(b.subrange(p, n)[x.len() + i] == b[p + x.len() + i]);
        assert(b.subrange(p + x.len(), n)[i] == b[p + x.len() + i]);
    }
    assert(b.subrange(p + x.len(), n) =~= s);
}

/// The optional jti piece of the record.
spec fn jti_seg(j: Option<Seq<u8>>) -> Seq<u8> {
    match j {
        Some(s) => k_jti() + esc_seq(s) + q(),
        None => Seq::<u8>::empty(),
    }
}

/// The record up to and including the authority list: everything
/// before `],"iat":`.
spec fn auth_json_front(c: AuthClaimsView) -> Seq<u8> {
    k_open_sub() + esc_seq(c.sub) + q() + jti_seg(c.jti) + k_auths() + json_str_list(c.auth)
}

/// Where the pieces from `],"iat":` on stand in a buffer that carries
/// the canonical access-claims record.
#[verifier::rlimit(100)]
proof fn lemma_auth_back(b: Seq<u8>, c: AuthClaimsView)
    requires
        wf_auth_claims(c),
        b == auth_claims_json(c),
    ensures
        b.len() == a_p13(c) + 1,
        b.subrange(0, a_p5(c)) == auth_json_front(c),
        match_lit_holds(b, a_p5(c), k_iat()),
        b.subrange(a_p6(c), a_p7(c)) == dec_digits(c.iat as nat),
        b[a_p7(c)] == 44,
        match_lit_holds(b, a_p7(c), k_exp()),
        b.subrange(a_p8(c), a_p9(c)) == dec_digits(c.exp as nat),
        b[a_p9(c)] == 44,
        match_lit_holds(b, a_p9(c), k_nbf()),
        b.subrange(a_p10(c), a_p11(c)) == dec_digits(c.nbf as nat),
        b[a_p11(c)] == 44,
        match_lit_holds(b, a_p11(c), k_typ()),
        b.subrange(a_p12(c), a_p12(c) + esc_seq(c.typ).len() as int) == esc_seq(c.typ),
        b[a_p12(c) + esc_seq(c.typ).len() as int] == 34,
        b[a_p13(c)] == 125,
{
    reveal(auth_claims_json);
    let d_iat = dec_digits(c.iat as nat);
    let d_exp = dec_digits(c.exp as nat);
    let d_nbf = dec_digits(c.nbf as nat);
    let x6 = auth_json_front(c);
    let x7 = x6 + k_iat();
    let x8 = x7 + d_iat;
    let x9 = x8 + k_exp();
    let x10 = x9 + d_exp;
    let x11 = x10 + k_nbf();
    let x12 = x11 + d_nbf;
    let x13 = x12 + k_typ();
    let x14 = x13 + esc_seq(c.typ);
    assert(b == x14 + k_end());
    assert(b.subrange(0, b.len() as int) =~= b);
    lemma_peel(b, x14, k_end(), b.len() as int);
    lemma_peel(b, x13, esc_seq(c.typ), x14.len() as int);
    lemma_peel(b, x12, k_typ(), x13.len() as int);
    lemma_peel(b, x11, d_nbf, x12.len() as int);
    lemma_peel(b, x10, k_nbf(), x11.len() as int);
    lemma_peel(b, x9, d_exp, x10.len() as int);
    lemma_peel(b, x8, k_exp(), x9.len() as int);
    lemma_peel(b, x7, d_iat, x8.len() as int);
    lemma_peel(b, x6, k_iat(), x7.len() as int);
    assert(a_p5(c) == x6.len());
    assert(a_p6(c) == x7.len());
    assert(a_p7(c) == x8.len());
    assert(a_p8(c) == x9.len());
    assert(a_p9(c) == x10.len());
    assert(a_p10(c) == x11.len());
    assert(a_p11(c) == x12.len());
    assert(a_p12(c) == x13.len());
    assert(a_p13(c) == x14.len() + 1);
    assert(b[a_p7(c)] == b.subrange(x8.len() as int, x9.len() as int)[0]);
    assert(b[a_p9(c)] == b.subrange(x10.len() as int, x11.len() as int)[0]);
    assert(b[a_p11(c)] == b.subrange(x12.len() as int, x13.len() as int)[0]);
    assert(b[a_p12(c) + esc_seq(c.typ).len() as int] == b.subrange(
        x14.len() as int,
        b.len() as int,
    )[0]);
    assert(b[a_p13(c)] == b.subrange(x14.len() as int, b.len() as int)[1]);
}

/// Where the pieces up to the authority list stand in a buffer whose
/// prefix is the front of the canonical access-claims record.
#[verifier::rlimit(100)]
proof fn lemma_auth_front(b: Seq<u8>, c: AuthClaimsView)
    requires
        wf_auth_claims(c),
        a_p5(c) <= b.len(),
        b.subrange(0, a_p5(c)) == auth_json_front(c),
    ensures
        match_lit_holds(b, 0, k_open_sub()),
        esc_at(b, 8, c.sub),
        match c.jti {
            Some(j) => match_lit_holds(b, a_p2(c), k_jti()) && esc_at(b, a_p2(c) + 8, j),
            None => !match_lit_holds(b, a_p2(c), k_jti()),
        },
        match_lit_holds(b, a_p3(c), k_auths()),
        b.subrange(a_p4(c), a_p5(c)) == json_str_list(c.auth),
{
    let jsl = json_str_list(c.auth);
    let x1 = k_open_sub();
    let x2 = x1 + esc_seq(c.sub);
    let x3 = x2 + q();
    let x4 = x3 + jti_seg(c.jti);
    let x5 = x4 + k_auths();
    assert(auth_json_front(c) == x5 + jsl);
    lemma_peel(b, x5, jsl, a_p5(c));
    lemma_peel(b, x4, k_auths(), x5.len() as int);
    lemma_peel(b, x3, jti_seg(c.jti), x4.len() as int);
    lemma_peel(b, x2, q(), x3.len() as int);
    lemma_peel(b, x1, esc_seq(c.sub), x2.len() as int);
    assert(a_p2(c) == x3.len());
    assert(a_p3(c) == x4.len());
    assert(a_p4(c) == x5.len());
    assert(b[8 + esc_seq(c.sub).len() as int] == b.subrange(x2.len() as int, x3.len() as int)[0]);
    match c.jti {
        Some(j) => {
            assert(b.subrange(x3.len() as int, x4.len() as int) == (k_jti() + esc_seq(j)) + q());
            lemma_peel_at(b, x3.len() as int, k_jti() + esc_seq(j), q(), x4.len() as int);
            lemma_peel_at(
                b,
                x3.len() as int,
                k_jti(),
                esc_seq(j),
                x3.len() + (k_jti() + esc_seq(j)).len() as int,
            );
            assert(b[a_p2(c) + 8 + esc_seq(j).len() as int] == b.subrange(
                x3.len() + (k_jti() + esc_seq(j)).len() as int,
                x4.len() as int,
            )[0]);
        },
        None => {
            assert(jti_seg(c.jti) =~= Seq::<u8>::empty());
            assert(x4 =~= x3);
            assert(b[a_p2(c) + 2] == b.subrange(x4.len() as int, x5.len() as int)[2]);
            if match_lit_holds(b, a_p2(c), k_jti()) {
                assert(b.subrange(a_p2(c), a_p2(c) + 8)[2] == k_jti()[2]);
                assert(b.subrange(a_p2(c), a_p2(c) + 8)[2] == b[a_p2(c) + 2]);
                assert(false);
            }
        },
    }
}

/// Parses the record up to the authority list: the subject, the
/// optional token id, and the authorities, with the position of the
/// closing bracket.
#[verifier::rlimit(100)]
fn parse_auth_head(b: &[u8]) -> (r: Option<(Vec<u8>, Option<Vec<u8>>, Vec<String>, usize)>)
    ensures
        r matches Some(t) ==> t.3 <= b@.len(),
        forall|c: AuthClaimsView| wf_auth_claims(c) && b@ == auth_claims_json(c) ==> (r matches Some(
            t,
        ) && {
            &&& t.0@ == c.sub
            &&& (match c.jti {
                Some(j) => t.1 matches Some(v) && v@ == j,
                None => t.1 is None,
            })
            &&& strs_bytes(t.2@) == c.auth
            &&& t.3 == a_p5(c)
        }),
{
    let blen = b.len();
    let mut ok = true;
    let mut cur: usize = 0;
    let ks = k_open_sub_vec();
    if match_lit(b, cur, ks.as_slice()) {
        cur = cur + ks.len();
    } else {
        ok = false;
    }
    let mut sub_v: Vec<u8> = Vec::new();
    if ok {
        match scan_esc(b, cur, &mut sub_v) {
            Some(p) => {
                cur = p;
            },
            None => {
                ok = false;
            },
        }
    }
    let kj = k_jti_vec();
    let mut jti_v: Option<Vec<u8>> = None;
    if ok {
        if match_lit(b, cur, kj.as_slice()) {
            cur = cur + kj.len();
            let mut jv: Vec<u8> = Vec::new();
            match scan_esc(b, cur, &mut jv) {
                Some(p) => {
                    jti_v = Some(jv);
                    cur = p;
                },
                None => {
                    ok = false;
                },
            }
        }
    }
    let ka = k_auths_vec();
    if ok {
        if match_lit(b, cur, ka.as_slice()) {
            cur = cur + ka.len();
        } else {
            ok = false;
        }
    }
    let mut auths: Vec<String> = Vec::new();
    if ok {
        match parse_items(b, cur, &mut auths) {
            Some(p) => {
                cur = p;
            },
            None => {
                ok = false;
            },
        }
    }
    proof {
        assert forall|c: AuthClaimsView| wf_auth_claims(c) && b@ == auth_claims_json(c) implies {
            &&& ok
            &&& sub_v@ == c.sub
            &&& (match c.jti {
                Some(j) => jti_v matches Some(v) && v@ == j,
                None => jti_v is None,
            })
            &&& strs_bytes(auths@) == c.auth
            &&& cur == a_p5(c)
        } by {
            lemma_auth_back(b@, c);
            lemma_auth_front(b@, c);
            assert(esc_at(b@, 8, c.sub));
            assert(sub_v@ == c.sub);
            assert(strs_bytes(Seq::<String>::empty()) =~= Seq::<Seq<u8>>::empty());
            assert(b@[a_p4(c) + json_str_list(c.auth).len()] == 93);
            assert(strs_bytes(auths@) =~= c.auth);
            assert(ok && cur == a_p5(c));
        }
    }
    if !ok {
        return None;
    }
    Some((sub_v, jti_v, auths, cur))
}

/// Parses the record from `],"iat":` on: the three timestamps and the
/// type tag, expecting the record to end with the buffer.
#[verifier::rlimit(100)]
fn parse_auth_tail(b: &[u8], start: usize) -> (r: Option<(u64, u64, u64, Vec<u8>)>)
    requires
        start <= b@.len(),
    ensures
        r matches Some(t) ==> {
            &&& t.0 < 1_000_000_000_000_000_000
            &&& t.1 < 1_000_000_000_000_000_000
            &&& t.2 < 1_000_000_000_000_000_000
        },
        forall|c: AuthClaimsView|
            wf_auth_claims(c) && b@ == auth_claims_json(c) && start == a_p5(c) ==> (r matches Some(
                t,
            ) && t.0 == c.iat && t.1 == c.exp && t.2 == c.nbf && t.3@ == c.typ),
{
    let blen = b.len();
    let mut ok = true;
    let mut cur: usize = start;
    let ki = k_iat_vec();
    if match_lit(b, cur, ki.as_slice()) {
        cur = cur + ki.len();
    } else {
        ok = false;
    }
    let mut iat: u64 = 0;
    if ok {
        match scan_dec(b, cur) {
            Some(t) => {
                iat = t.0;
                cur = t.1;
            },
            None => {
                ok = false;
            },
        }
    }
    let ke = k_exp_vec();
    if ok {
        if match_lit(b, cur, ke.as_slice()) {
            cur = cur + ke.len();
        } else {
            ok = false;
        }
    }
    let mut exp: u64 = 0;
    if ok {
        match scan_dec(b, cur) {
            Some(t) => {
                exp = t.0;
                cur = t.1;
            },
            None => {
                ok = false;
            },
        }
    }
    let kn = k_nbf_vec();
    if ok {
        if match_lit(b, cur, kn.as_slice()) {
            cur = cur + kn.len();
        } else {
            ok = false;
        }
    }
    let mut nbf: u64 = 0;
    if ok {
        match scan_dec(b, cur) {
            Some(t) => {
                nbf = t.0;
                cur = t.1;
            },
            None => {
                ok = false;
            },
        }
    }
    let kt = k_typ_vec();
    if ok {
        if match_lit(b, cur, kt.as_slice()) {
            cur = cur + kt.len();
        } else {
            ok = false;
        }
    }
    let mut typ_v: Vec<u8> = Vec::new();
    if ok {
        match scan_esc(b, cur, &mut typ_v) {
            Some(p) => {
                cur = p;
            },
            None => {
                ok = false;
            },
        }
    }
    if ok {
        if cur < blen && b[cur] == 125 {
            cur = cur + 1;
        } else {
            ok = false;
        }
    }
    if ok && cur != blen {
        ok = false;
    }
    proof {
        assert forall|c: AuthClaimsView|
            wf_auth_claims(c) && b@ == auth_claims_json(c) && start == a_p5(c) implies {
            &&& ok
            &&& iat == c.iat
            &&& exp == c.exp
            &&& nbf == c.nbf
            &&& typ_v@ == c.typ
        } by {
            lemma_auth_back(b@, c);
            assert(iat == c.iat);
            assert(exp == c.exp);
            assert(nbf == c.nbf);
            assert(esc_at(b@, a_p12(c), c.typ));
            assert(typ_v@ == c.typ);
            assert(ok);
        }
    }
    if !ok {
        return None;
    }
    Some((iat, exp, nbf, typ_v))
}

/// Parses the canonical JSON record of access-token claims. Wherever
/// the buffer is exactly the record of some well-formed claims, the
/// parse yields exactly those claims.
#[verifier::rlimit(100)]
pub fn parse_auth_claims(b: &[u8]) -> (r: Option<JwtAuthClaims>)
    ensures
        r matches Some(cl) ==> wf_auth_claims(cl@),
        forall|c: AuthClaimsView| wf_auth_claims(c) && b@ == auth_claims_json(c) ==> (r matches Some(
            cl,
        ) && cl@ == c),
{
    let head = match parse_auth_head(b) {
        Some(h) => h,
        None => {
            return None;
        },
    };
    let (sub_v, jti_v, auths, start) = head;
    let tail = match parse_auth_tail(b, start) {
        Some(t) => t,
        None => {
            return None;
        },
    };
    let (iat, exp, nbf, typ_v) = tail;
    let ghost sub_bytes = sub_v@;
    let ghost jti_bytes: Option<Seq<u8>> = match &jti_v {
        Some(v) => Some(v@),
        None => None,
    };
    let ghost auths_view = auths@;
    let ghost typ_bytes = typ_v@;
    let sub = match utf8_string(sub_v.as_slice()) {
        Some(s) => s,
        None => {
            proof {
                claims_premise_valid_auth(b@, sub_bytes, jti_bytes, typ_bytes);
            }
            return None;
        },
    };
    let jti = match &jti_v {
        Some(v) => match utf8_string(v.as_slice()) {
            Some(s) => Some(s),
            None => {
                proof {
                    claims_premise_valid_auth(b@, sub_bytes, jti_bytes, typ_bytes);
                }
                return None;
            },
        },
        None => None,
    };
    let typ = match utf8_string(typ_v.as_slice()) {
        Some(s) => s,
        None => {
            proof {
                claims_premise_valid_auth(b@, sub_bytes, jti_bytes, typ_bytes);
            }
            return None;
        },
    };
    let cl = JwtAuthClaims {
        sub,
        jti,
        auth: auths,
        iat: iat as i64,
        exp: exp as i64,
        nbf: nbf as i64,
        typ,
    };
    proof {
        assert forall|c: AuthClaimsView| wf_auth_claims(c) && b@ == auth_claims_json(c) implies cl@
            == c by {
            assert(cl@.sub == sub_bytes && sub_bytes == c.sub);
            assert(cl@.jti == jti_bytes && jti_bytes == c.jti);
            assert(cl@.auth == strs_bytes(auths_view) && strs_bytes(auths_view) == c.auth);
            assert(cl@.iat == c.iat && cl@.exp == c.exp && cl@.nbf == c.nbf);
            assert(cl@.typ == typ_bytes && typ_bytes == c.typ);
        }
    }
    proof {
        lemma_claims_strings_valid(&cl);
    }
    Some(cl)
}

/// In a world where the buffer is a canonical record whose pieces the
/// parse already pinned, every pinned string is the byte image of a
/// string, hence valid UTF-8; a failed conversion refutes that world.
proof fn claims_premise_valid_auth(
    b: Seq<u8>,
    sub_bytes: Seq<u8>,
    jti_bytes: Option<Seq<u8>>,
    typ_bytes: Seq<u8>,
)
    ensures
        forall|c: AuthClaimsView|
            wf_auth_claims(c) && b == auth_claims_json(c) ==> (valid_utf8(sub_bytes)
                && wf_opt_utf8(jti_bytes) && valid_utf8(typ_bytes)) || !(sub_bytes == c.sub
                && jti_bytes == c.jti && typ_bytes == c.typ),
{
}

/// Every string field's byte view is the encoding of that string, so
/// it is valid UTF-8.
proof fn lemma_claims_strings_valid(cl: &JwtAuthClaims)
    ensures
        valid_utf8(cl@.sub),
        wf_opt_utf8(cl@.jti),
        forall|i: int| 0 <= i < cl@.auth.len() ==> valid_utf8(#[trigger] cl@.auth[i]),
        valid_utf8(cl@.typ),
{
    vstd::utf8::encode_utf8_valid_utf8(cl.sub@);
    match &cl.jti {
        Some(j) => {
            vstd::utf8::encode_utf8_valid_utf8(j@);
        },
        None => {},
    }
    assert forall|i: int| 0 <= i < cl@.auth.len() implies valid_utf8(
        #[trigger] cl@.auth[i],
    ) by {
        assert(cl@.auth[i] == encode_utf8(cl.auth@[i]@));
        vstd::utf8::encode_utf8_valid_utf8(cl.auth@[i]@);
    }
    vstd::utf8::encode_utf8_valid_utf8(cl.typ@);
}

/// Whether `b` carries `l` at `pos` (the condition that `match_lit`
/// decides).
pub open spec fn match_lit_holds(b: Seq<u8>, pos: int, l: Seq<u8>) -> bool {
    pos + l.len() <= b.len() && b.subrange(pos, pos + l.len()) == l
}

/// Serializes refresh-token claims into their canonical JSON record.
pub fn ser_refresh_claims(c: &JwtRefreshClaims) -> (out: Vec<u8>)
    requires
        wf_refresh_claims(c@),
    ensures
        out@ == refresh_claims_json(c@),
{
    let mut out: Vec<u8> = Vec::new();
    let ks = k_open_sub_vec();
    push_bytes(&mut out, ks.as_slice());
    proof {
        assert(out@ =~= k_open_sub());
    }
    push_str_close(&mut out, c.sub.as_str());
    match &c.jti {
        Some(j) => {
            let kj = k_jti_vec();
            push_bytes(&mut out, kj.as_slice());
            push_str_close(&mut out, j.as_str());
        },
        None => {},
    }
    let ki = k_iat_refresh_vec();
    push_bytes(&mut out, ki.as_slice());
    push_dec(&mut out, c.iat as u64);
    let ke = k_exp_vec();
    push_bytes(&mut out, ke.as_slice());
    push_dec(&mut out, c.exp as u64);
    let kn = k_nbf_vec();
    push_bytes(&mut out, kn.as_slice());
    push_dec(&mut out, c.nbf as u64);
    let kt = k_typ_vec();
    push_bytes(&mut out, kt.as_slice());
    push_esc(&mut out, c.typ.as_str().as_bytes());
    out.push(34);
    out.push(125);
    proof {
        reveal(refresh_claims_json);
        assert(out@ =~= refresh_claims_json(c@));
    }
    out
}

// The offsets of the pieces of the canonical refresh-claims record.
spec fn r_p2(c: RefreshClaimsView) -> int {
    9 + esc_seq(c.sub).len() as int
}

spec fn r_p3(c: RefreshClaimsView) -> int {
    r_p2(c) + jti_seg_len(c.jti)
}

spec fn r_p4(c: RefreshClaimsView) -> int {
    r_p3(c) + 7
}

spec fn r_p5(c: RefreshClaimsView) -> int {
    r_p4(c) + dec_digits(c.iat as nat).len() as int
}

spec fn r_p6(c: RefreshClaimsView) -> int {
    r_p5(c) + 7
}

spec fn r_p7(c: RefreshClaimsView) -> int {
    r_p6(c) + dec_digits(c.exp as nat).len() as int
}

spec fn r_p8(c: RefreshClaimsView) -> int {
    r_p7(c) + 7
}

spec fn r_p9(c: RefreshClaimsView) -> int {
    r_p8(c) + dec_digits(c.nbf as nat).len() as int
}

spec fn r_p10(c: RefreshClaimsView) -> int {
    r_p9(c) + 8
}

spec fn r_p11(c: RefreshClaimsView) -> int {
    r_p10(c) + esc_seq(c.typ).len() as int + 1
}

/// The refresh record up to the optional jti: everything before
/// `,"iat":`.
spec fn refresh_json_front(c: RefreshClaimsView) -> Seq<u8> {
    k_open_sub() + esc_seq(c.sub) + q() + jti_seg(c.jti)
}

/// Where the pieces from `,"iat":` on stand in a buffer that carries
/// the canonical refresh-claims record.
#[verifier::rlimit(100)]
proof fn lemma_refresh_back(b: Seq<u8>, c: RefreshClaimsView)
    requires
        wf_refresh_claims(c),
        b == refresh_claims_json(c),
    ensures
        b.len() == r_p11(c) + 1,
        b.subrange(0, r_p3(c)) == refresh_json_front(c),
        match_lit_holds(b, r_p3(c), k_iat_refresh()),
        b.subrange(r_p4(c), r_p5(c)) == dec_digits(c.iat as nat),
        b[r_p5(c)] == 44,
        match_lit_holds(b, r_p5(c), k_exp()),
        b.subrange(r_p6(c), r_p7(c)) == dec_digits(c.exp as nat),
        b[r_p7(c)] == 44,
        match_lit_holds(b, r_p7(c), k_nbf()),
        b.subrange(r_p8(c), r_p9(c)) == dec_digits(c.nbf as nat),
        b[r_p9(c)] == 44,
        match_lit_holds(b, r_p9(c), k_typ()),
        b.subrange(r_p10(c), r_p10(c) + esc_seq(c.typ).len() as int) == esc_seq(c.typ),
        b[r_p10(c) + esc_seq(c.typ).len() as int] == 34,
        b[r_p11(c)] == 125,
{
    reveal(refresh_claims_json);
    let d_iat = dec_digits(c.iat as nat);
    let d_exp = dec_digits(c.exp as nat);
    let d_nbf = dec_digits(c.nbf as nat);
    let x4 = refresh_json_front(c);
    let x5 = x4 + k_iat_refresh();
    let x6 = x5 + d_iat;
    let x7 = x6 + k_exp();
    let x8 = x7 + d_exp;
    let x9 = x8 + k_nbf();
    let x10 = x9 + d_nbf;
    let x11 = x10 + k_typ();
    let x12 = x11 + esc_seq(c.typ);
    assert(b == x12 + k_end());
    assert(b.subrange(0, b.len() as int) =~= b);
    lemma_peel(b, x12, k_end(), b.len() as int);
    lemma_peel(b, x11, esc_seq(c.typ), x12.len() as int);
    lemma_peel(b, x10, k_typ(), x11.len() as int);
    lemma_peel(b, x9, d_nbf, x10.len() as int);
    lemma_peel(b, x8, k_nbf(), x9.len() as int);
    lemma_peel(b, x7, d_exp, x8.len() as int);
    lemma_peel(b, x6, k_exp(), x7.len() as int);
    lemma_peel(b, x5, d_iat, x6.len() as int);
    lemma_peel(b, x4, k_iat_refresh(), x5.len() as int);
    assert(r_p3(c) == x4.len());
    assert(r_p4(c) == x5.len());
    assert(r_p5(c) == x6.len());
    assert(r_p6(c) == x7.len());
    assert(r_p7(c) == x8.len());
    assert(r_p8(c) == x9.len());
    assert(r_p9(c) == x10.len());
    assert(r_p10(c) == x11.len());
    assert(r_p11(c) == x12.len() + 1);
    assert(b[r_p5(c)] == b.subrange(x6.len() as int, x7.len() as int)[0]);
    assert(b[r_p7(c)] == b.subrange(x8.len() as int, x9.len() as int)[0]);
    assert(b[r_p9(c)] == b.subrange(x10.len() as int, x11.len() as int)[0]);
    assert(b[r_p10(c) + esc_seq(c.typ).len() as int] == b.subrange(
        x12.len() as int,
        b.len() as int,
    )[0]);
    assert(b[r_p11(c)] == b.subrange(x12.len() as int, b.len() as int)[1]);
}

/// Where the subject and the optional jti stand in a buffer whose
/// prefix is the front of the canonical refresh-claims record.
#[verifier::rlimit(100)]
proof fn lemma_refresh_front(b: Seq<u8>, c: RefreshClaimsView)
    requires
        wf_refresh_claims(c),
        r_p3(c) + 7 <= b.len(),
        b.subrange(0, r_p3(c)) == refresh_json_front(c),
        match_lit_holds(b, r_p3(c), k_iat_refresh()),
    ensures
        match_lit_holds(b, 0, k_open_sub()),
        esc_at(b, 8, c.sub),
        match c.jti {
            Some(j) => match_lit_holds(b, r_p2(c), k_jti()) && esc_at(b, r_p2(c) + 8, j),
            None => !match_lit_holds(b, r_p2(c), k_jti()),
        },
{
    let x1 = k_open_sub();
    let x2 = x1 + esc_seq(c.sub);
    let x3 = x2 + q();
    assert(refresh_json_front(c) == x3 + jti_seg(c.jti));
    lemma_peel(b, x3, jti_seg(c.jti), r_p3(c));
    lemma_peel(b, x2, q(), x3.len() as int);
    lemma_peel(b, x1, esc_seq(c.sub), x2.len() as int);
    assert(r_p2(c) == x3.len());
    assert(b[8 + esc_seq(c.sub).len() as int] == b.subrange(x2.len() as int, x3.len() as int)[0]);
    match c.jti {
        Some(j) => {
            assert(b.subrange(x3.len() as int, r_p3(c)) == (k_jti() + esc_seq(j)) + q());
            lemma_peel_at(b, x3.len() as int, k_jti() + esc_seq(j), q(), r_p3(c));
            lemma_peel_at(
                b,
                x3.len() as int,
                k_jti(),
                esc_seq(j),
                x3.len() + (k_jti() + esc_seq(j)).len() as int,
            );
            assert(b[r_p2(c) + 8 + esc_seq(j).len() as int] == b.subrange(
                x3.len() + (k_jti() + esc_seq(j)).len() as int,
                r_p3(c),
            )[0]);
        },
        None => {
            assert(jti_seg(c.jti) =~= Seq::<u8>::empty());
            assert(r_p3(c) == x3.len());
            // the next run is `,"iat":`, which differs from `,"jti":"` at its third byte
            assert(b.subrange(r_p3(c), r_p3(c) + 7) == k_iat_refresh());
            assert(b[r_p2(c) + 2] == b.subrange(r_p3(c), r_p3(c) + 7)[2]);
            if match_lit_holds(b, r_p2(c), k_jti()) {
                assert(b.subrange(r_p2(c), r_p2(c) + 8)[2] == k_jti()[2]);
                assert(b.subrange(r_p2(c), r_p2(c) + 8)[2] == b[r_p2(c) + 2]);
                assert(false);
            }
        },
    }
}

/// Parses the canonical JSON record of refresh-token claims. Wherever
/// the buffer is exactly the record of some well-formed claims, the
/// parse yields exactly those claims.
#[verifier::rlimit(100)]
pub fn parse_refresh_claims(b: &[u8]) -> (r: Option<JwtRefreshClaims>)
    ensures
        r matches Some(cl) ==> wf_refresh_claims(cl@),
        forall|c: RefreshClaimsView| wf_refresh_claims(c) && b@ == refresh_claims_json(c) ==> (
        r matches Some(cl) && cl@ == c),
{
    let blen = b.len();
    let mut ok = true;
    let mut cur: usize = 0;
    let ks = k_open_sub_vec();
    if match_lit(b, cur, ks.as_slice()) {
        cur = cur + ks.len();
    } else {
        ok = false;
    }
    let mut sub_v: Vec<u8> = Vec::new();
    if ok {
        match scan_esc(b, cur, &mut sub_v) {
            Some(p) => {
                cur = p;
            },
            None => {
                ok = false;
            },
        }
    }
    let kj = k_jti_vec();
    let mut jti_v: Option<Vec<u8>> = None;
    if ok {
        if match_lit(b, cur, kj.as_slice()) {
            cur = cur + kj.len();
            let mut jv: Vec<u8> = Vec::new();
            match scan_esc(b, cur, &mut jv) {
                Some(p) => {
                    jti_v = Some(jv);
                    cur = p;
                },
                None => {
                    ok = false;
                },
            }
        }
    }
    let ki = k_iat_refresh_vec();
    if ok {
        if match_lit(b, cur, ki.as_slice()) {
            cur = cur + ki.len();
        } else {
            ok = false;
        }
    }
    let mut iat: u64 = 0;
    if ok {
        match scan_dec(b, cur) {
            Some(t) => {
                iat = t.0;
                cur = t.1;
            },
            None => {
                ok = false;
            },
        }
    }
    let ke = k_exp_vec();
    if ok {
        if match_lit(b, cur, ke.as_slice()) {
            cur = cur + ke.len();
        } else {
            ok = false;
        }
    }
    let mut exp: u64 = 0;
    if ok {
        match scan_dec(b, cur) {
            Some(t) => {
                exp = t.0;
                cur = t.1;
            },
            None => {
                ok = false;
            },
        }
    }
    let kn = k_nbf_vec();
    if ok {
        if match_lit(b, cur, kn.as_slice()) {
            cur = cur + kn.len();
        } else {
            ok = false;
        }
    }
    let mut nbf: u64 = 0;
    if ok {
        match scan_dec(b, cur) {
            Some(t) => {
                nbf = t.0;
                cur = t.1;
            },
            None => {
                ok = false;
            },
        }
    }
    let kt = k_typ_vec();
    if ok {
        if match_lit(b, cur, kt.as_slice()) {
            cur = cur + kt.len();
        } else {
            ok = false;
        }
    }
    let mut typ_v: Vec<u8> = Vec::new();
    if ok {
        match scan_esc(b, cur, &mut typ_v) {
            Some(p) => {
                cur = p;
            },
            None => {
                ok = false;
            },
        }
    }
    if ok {
        if cur < blen && b[cur] == 125 {
            cur = cur + 1;
        } else {
            ok = false;
        }
    }
    if ok && cur != blen {
        ok = false;
    }
    proof {
        assert forall|c: RefreshClaimsView|
            wf_refresh_claims(c) && b@ == refresh_claims_json(c) implies {
            &&& ok
            &&& sub_v@ == c.sub
            &&& (match c.jti {
                Some(j) => jti_v matches Some(v) && v@ == j,
                None => jti_v is None,
            })
            &&& iat == c.iat
            &&& exp == c.exp
            &&& nbf == c.nbf
            &&& typ_v@ == c.typ
        } by {
            lemma_refresh_back(b@, c);
            lemma_refresh_front(b@, c);
            assert(esc_at(b@, 8, c.sub));
            assert(sub_v@ == c.sub);
            assert(iat == c.iat);
            assert(exp == c.exp);
            assert(nbf == c.nbf);
            assert(esc_at(b@, r_p10(c), c.typ));
            assert(typ_v@ == c.typ);
            assert(ok);
        }
    }
    if !ok {
        return None;
    }
    let ghost sub_bytes = sub_v@;
    let ghost jti_bytes: Option<Seq<u8>> = match &jti_v {
        Some(v) => Some(v@),
        None => None,
    };
    let ghost typ_bytes = typ_v@;
    let sub = match utf8_string(sub_v.as_slice()) {
        Some(s) => s,
        None => {
            proof {
                refresh_premise_valid(b@, sub_bytes, jti_bytes, typ_bytes);
            }
            return None;
        },
    };
    let jti = match &jti_v {
        Some(v) => match utf8_string(v.as_slice()) {
            Some(s) => Some(s),
            None => {
                proof {
                    refresh_premise_valid(b@, sub_bytes, jti_bytes, typ_bytes);
                }
                return None;
            },
        },
        None => None,
    };
    let typ = match utf8_string(typ_v.as_slice()) {
        Some(s) => s,
        None => {
            proof {
                refresh_premise_valid(b@, sub_bytes, jti_bytes, typ_bytes);
            }
            return None;
        },
    };
    let cl = JwtRefreshClaims { sub, jti, iat: iat as i64, exp: exp as i64, nbf: nbf as i64, typ };
    proof {
        assert forall|c: RefreshClaimsView|
            wf_refresh_claims(c) && b@ == refresh_claims_json(c) implies cl@ == c by {
            assert(cl@.sub == sub_bytes && sub_bytes == c.sub);
            assert(cl@.jti == jti_bytes && jti_bytes == c.jti);
            assert(cl@.iat == c.iat && cl@.exp == c.exp && cl@.nbf == c.nbf);
            assert(cl@.typ == typ_bytes && typ_bytes == c.typ);
        }
    }
    proof {
        lemma_refresh_strings_valid(&cl);
    }
    Some(cl)
}

/// The refresh-record counterpart of the validity refutation.
proof fn refresh_premise_valid(
    b: Seq<u8>,
    sub_bytes: Seq<u8>,
    jti_bytes: Option<Seq<u8>>,
    typ_bytes: Seq<u8>,
)
    ensures
        forall|c: RefreshClaimsView|
            wf_refresh_claims(c) && b == refresh_claims_json(c) ==> (valid_utf8(sub_bytes)
                && wf_opt_utf8(jti_bytes) && valid_utf8(typ_bytes)) || !(sub_bytes == c.sub
                && jti_bytes == c.jti && typ_bytes == c.typ),
{
}

/// Every string field's byte view is the encoding of that string, so
/// it is valid UTF-8.
proof fn lemma_refresh_strings_valid(cl: &JwtRefreshClaims)
    ensures
        valid_utf8(cl@.sub),
        wf_opt_utf8(cl@.jti),
        valid_utf8(cl@.typ),
{
    vstd::utf8::encode_utf8_valid_utf8(cl.sub@);
    match &cl.jti {
        Some(j) => {
            vstd::utf8::encode_utf8_valid_utf8(j@);
        },
        None => {},
    }
    vstd::utf8::encode_utf8_valid_utf8(cl.typ@);
}

/// What the HMAC-SHA256 signing call returns: the base64url text of
/// the tag over `msg` under `key`, a function of the two alone.
pub uninterp spec fn hmac_sig_b64(key: Seq<u8>, msg: Seq<u8>) -> Seq<u8>;

/// The part of a token that is signed: encoded header, dot, encoded
/// claims.
pub open spec fn signing_input(claims_json: Seq<u8>) -> Seq<u8> {
    b64_encode_bytes(k_header()) + seq![46u8] + b64_encode_bytes(claims_json)
}

/// A whole token: the signed part, a dot, and the signature.
pub open spec fn token_bytes(key: Seq<u8>, claims_json: Seq<u8>) -> Seq<u8> {
    signing_input(claims_json) + seq![46u8] + hmac_sig_b64(key, signing_input(claims_json))
}

/// Relies on jsonwebtokens' `Algorithm::new_hmac` and `Algorithm::sign`:
/// the base64url (no padding) HMAC-SHA256 tag of `message` under `key`.
/// With the HMAC-SHA256 identifier both calls succeed for every key and
/// message, the tag depends on the two arguments alone, and its text is
/// ASCII (the base64 alphabet).
#[verifier::external_body]
fn hmac_sign_b64(key: &str, message: &str) -> (r: MaaResult<String>)
    ensures
        r matches Ok(s) && encode_utf8(s@) == hmac_sig_b64(
            encode_utf8(key@),
            encode_utf8(message@),
        ) && forall|i: int|
            0 <= i < encode_utf8(s@).len() ==> encode_utf8(s@)[i] < 128,
{
    let alg = match jsonwebtokens::Algorithm::new_hmac(jsonwebtokens::AlgorithmID::HS256, key) {
        Ok(a) => a,
        Err(_) => {
            return Err(MaaError::JsonWebTokensError);
        },
    };
    match alg.sign(message) {
        Ok(s) => Ok(s),
        Err(_) => Err(MaaError::JsonWebTokensError),
    }
}

/// Relies on std's `SystemTime`: the current Unix timestamp in
/// seconds (negative before the epoch, saturated at the ends; never
/// panics). The value depends on the clock, so nothing is promised
/// of it.
#[verifier::external_body]
fn now_timestamp() -> i64 {
    match std::time::SystemTime::now().duration_since(std::time::UNIX_EPOCH) {
        Ok(d) => i64::try_from(d.as_secs()).unwrap_or(i64::MAX),
        Err(e) => {
            let d = e.duration();
            let s = if d.subsec_nanos() > 0 { d.as_secs() + 1 } else { d.as_secs() };
            i64::try_from(s).map_or(i64::MIN, |v| -v)
        },
    }
}

/// Builds the token for an already-serialized claims record.
fn token_for_json(key: &str, json: &[u8]) -> (r: MaaResult<String>)
    ensures
        r matches Ok(t) && encode_utf8(t@) == token_bytes(encode_utf8(key@), json@),
{
    let kh = k_header_vec();
    let hb = b64_encode(kh.as_slice());
    let pb = b64_encode(json);
    let mut msg = hb;
    msg.push(46);
    push_bytes(&mut msg, pb.as_slice());
    proof {
        lemma_b64_encode_wf(k_header());
        lemma_b64_encode_wf(json@);
        assert(msg@ =~= signing_input(json@));
        assert forall|i: int| 0 <= i < msg@.len() implies msg@[i] < 128 by {
            if i < b64_encode_bytes(k_header()).len() {
                assert(msg@[i] == b64_encode_bytes(k_header())[i]);
            } else if i > b64_encode_bytes(k_header()).len() {
                assert(msg@[i] == b64_encode_bytes(json@)[i - b64_encode_bytes(
                    k_header(),
                ).len() - 1]);
            }
        }
    }
    let msg_str = ascii_string(msg.as_slice());
    let sig = match hmac_sign_b64(key, msg_str.as_str()) {
        Ok(s) => s,
        Err(e) => {
            return Err(e);
        },
    };
    let mut token_v = msg;
    token_v.push(46);
    push_bytes(&mut token_v, sig.as_str().as_bytes());
    proof {
        assert(token_v@ =~= token_bytes(encode_utf8(key@), json@));
        assert forall|i: int| 0 <= i < token_v@.len() implies token_v@[i] < 128 by {
            let si = signing_input(json@);
            if i < si.len() {
                assert(token_v@[i] == si[i]);
                if i < b64_encode_bytes(k_header()).len() {
                    assert(si[i] == b64_encode_bytes(k_header())[i]);
                } else if i > b64_encode_bytes(k_header()).len() {
                    assert(si[i] == b64_encode_bytes(json@)[i - b64_encode_bytes(
                        k_header(),
                    ).len() - 1]);
                }
            } else if i > si.len() {
                assert(token_v@[i] == encode_utf8(sig@)[i - si.len() - 1]);
            }
        }
    }
    let token = ascii_string(token_v.as_slice());
    Ok(token)
}

/// A token as handed to the caller: the signed text and its validity
/// window.
pub struct SignedJwt {
    pub token: String,
    pub expires_at: i64,
    pub not_before: i64,
}

/// The access-token claims built at issuance: issued now, valid from
/// now for `life` seconds.
pub open spec fn auth_claims_of(
    sub: Seq<u8>,
    jti: Option<Seq<u8>>,
    auths: Seq<Seq<u8>>,
    now: int,
    life: int,
) -> AuthClaimsView {
    AuthClaimsView { sub, jti, auth: auths, iat: now, exp: now + life, nbf: now, typ: k_typ_auth() }
}

/// The refresh-token claims built at issuance or rotation.
pub open spec fn refresh_claims_of(
    sub: Seq<u8>,
    jti: Option<Seq<u8>>,
    iat: int,
    exp: int,
    nbf: int,
) -> RefreshClaimsView {
    RefreshClaimsView { sub, jti, iat, exp, nbf, typ: k_typ_refresh() }
}

/// The temporal window of claims at time `now`: already issued,
/// already valid, not yet expired.
pub open spec fn temporal_ok(iat: int, exp: int, nbf: int, now: int) -> bool {
    iat <= now && nbf <= now && exp > now
}

/// Issues and verifies signed session tokens, with a symmetric key
/// and a fixed token lifetime in seconds.
pub struct JwtService {
    pub key: String,
    pub expire_time: u64,
}

fn clone_strings(v: &Vec<String>) -> (r: Vec<String>)
    ensures
        r@ == v@,
{
    let n = v.len();
    let mut r: Vec<String> = Vec::new();
    let mut i: usize = 0;
    while i < n
        invariant
            n == v@.len(),
            i <= n,
            r@ == v@.take(i as int),
        decreases n - i,
    {
        r.push(v[i].clone());
        proof {
            assert(r@ =~= v@.take(i + 1));
        }
        i = i + 1;
    }
    proof {
        assert(v@.take(n as int) =~= v@);
    }
    r
}

impl JwtService {
    pub fn new(key: String, expire_time: u64) -> (r: Self)
        ensures
            r.key == key,
            r.expire_time == expire_time,
    {
        Self { key, expire_time }
    }

    /// Issues an access token as of time `now`: claims issued and valid
    /// at `now`, expiring one configured lifetime later, signed with
    /// the service key. Succeeds exactly when the window fits the
    /// codec's timestamp range; every string is carried (escaped) as
    /// it is.
    pub fn issue_auth_at(
        &self,
        subject: &str,
        jwt_id: Option<&str>,
        authorities: &Vec<String>,
        now: i64,
    ) -> (r: MaaResult<SignedJwt>)
        ensures
            ({
                let sub = encode_utf8(subject@);
                let jti = match jwt_id {
                    Some(j) => Some(encode_utf8(j@)),
                    None => None,
                };
                let auths = strs_bytes(authorities@);
                let key = encode_utf8(self.key@);
                &&& (r is Ok <==> 0 <= now && now + self.expire_time
                    < 1_000_000_000_000_000_000)
                &&& (r matches Ok(t) ==> {
                    &&& t.not_before == now
                    &&& t.expires_at == now + self.expire_time
                    &&& encode_utf8(t.token@) == token_bytes(
                        key,
                        auth_claims_json(
                            auth_claims_of(sub, jti, auths, now as int, self.expire_time as int),
                        ),
                    )
                })
                &&& (r matches Err(e) ==> e matches MaaError::JsonWebTokensError)
            }),
    {
        if now < 0 {
            return Err(MaaError::JsonWebTokensError);
        }
        if self.expire_time >= 1_000_000_000_000_000_000 {
            return Err(MaaError::JsonWebTokensError);
        }
        let nu = now as u64;
        if nu >= 1_000_000_000_000_000_000 - self.expire_time {
            return Err(MaaError::JsonWebTokensError);
        }
        let exp = now + self.expire_time as i64;
        let tv = k_typ_auth_vec();
        let claims = JwtAuthClaims {
            sub: subject.to_owned(),
            jti: match jwt_id {
                Some(j) => Some(j.to_owned()),
                None => None,
            },
            auth: clone_strings(authorities),
            iat: now,
            exp,
            nbf: now,
            typ: ascii_string(tv.as_slice()),
        };
        proof {
            assert(claims@ == auth_claims_of(
                encode_utf8(subject@),
                match jwt_id {
                    Some(j) => Some(encode_utf8(j@)),
                    None => None,
                },
                strs_bytes(authorities@),
                now as int,
                self.expire_time as int,
            ));
            lemma_claims_strings_valid(&claims);
        }
        let json = ser_auth_claims(&claims);
        let token = match token_for_json(self.key.as_str(), json.as_slice()) {
            Ok(t) => t,
            Err(e) => {
                return Err(e);
            },
        };
        Ok(SignedJwt { token, expires_at: exp, not_before: now })
    }

    /// Issues an access token as of the current clock reading.
    pub fn issue_auth_token(
        &self,
        subject: String,
        jwt_id: Option<String>,
        authorities: Vec<String>,
    ) -> (r: MaaResult<SignedJwt>)
        ensures
            r matches Ok(t) ==> ({
                let sub = encode_utf8(subject@);
                let jti = match jwt_id {
                    Some(j) => Some(encode_utf8(j@)),
                    None => None,
                };
                let auths = strs_bytes(authorities@);
                &&& t.expires_at == t.not_before + self.expire_time
                &&& 0 <= t.not_before
                &&& t.expires_at < 1_000_000_000_000_000_000
                &&& encode_utf8(t.token@) == token_bytes(
                    encode_utf8(self.key@),
                    auth_claims_json(
                        auth_claims_of(
                            sub,
                            jti,
                            auths,
                            t.not_before as int,
                            self.expire_time as int,
                        ),
                    ),
                )
            }),
            r matches Err(e) ==> e matches MaaError::JsonWebTokensError,
    {
        let now = now_timestamp();
        self.issue_auth_at(
            subject.as_str(),
            match &jwt_id {
                Some(j) => Some(j.as_str()),
                None => None,
            },
            &authorities,
            now,
        )
    }

    /// Verifies an access token as of time `now`: accepts exactly the
    /// tokens this service signs over well-formed claims whose window
    /// contains `now`, and returns those claims. In particular, a
    /// token from `issue_auth_at` verified inside its window yields
    /// back exactly the subject, authorities and window it was issued
    /// with.
    #[verifier::rlimit(100)]
    pub fn verify_auth_at(&self, auth_token: &str, now: i64) -> (r: MaaResult<JwtAuthClaims>)
        ensures
            r matches Ok(cl) ==> wf_auth_claims(cl@) && encode_utf8(auth_token@) == token_bytes(
                encode_utf8(self.key@),
                auth_claims_json(cl@),
            ) && temporal_ok(cl@.iat, cl@.exp, cl@.nbf, now as int),
            forall|c: AuthClaimsView|
                wf_auth_claims(c) && temporal_ok(c.iat, c.exp, c.nbf, now as int) && encode_utf8(
                    auth_token@,
                ) == token_bytes(encode_utf8(self.key@), auth_claims_json(c)) ==> (r matches Ok(cl)
                && cl@ == c),
            r matches Err(e) ==> e matches MaaError::JwtVerifyFailed,
    {
        let tb = auth_token.as_bytes();
        let blen = tb.len();
        let mut ok = true;
        let mut i: usize = 0;
        let mut j: usize = 0;
        match find_byte(tb, 0, 46) {
            Some(x) => {
                i = x;
            },
            None => {
                ok = false;
            },
        }
        if ok {
            match find_byte(tb, i + 1, 46) {
                Some(x) => {
                    j = x;
                },
                None => {
                    ok = false;
                },
            }
        }
        let kh = k_header_vec();
        let hb = b64_encode(kh.as_slice());
        if ok {
            if !(match_lit(tb, 0, hb.as_slice()) && i == hb.len()) {
                ok = false;
            }
        }
        let mut jb: Vec<u8> = Vec::new();
        let mut payload: Vec<u8> = Vec::new();
        if ok {
            payload = copy_range(tb, i + 1, j);
            if !b64_decode_into(payload.as_slice(), 0, &mut jb) {
                ok = false;
            }
        }
        let mut cl_opt: Option<JwtAuthClaims> = None;
        if ok {
            match parse_auth_claims(jb.as_slice()) {
                Some(cl) => {
                    cl_opt = Some(cl);
                },
                None => {
                    ok = false;
                },
            }
        }
        if ok {
            match &cl_opt {
                Some(cl) => {
                    let json2 = ser_auth_claims(cl);
                    match token_for_json(self.key.as_str(), json2.as_slice()) {
                        Ok(t2) => {
                            if !bytes_eq(tb, t2.as_str().as_bytes()) {
                                ok = false;
                            }
                        },
                        Err(_) => {
                            ok = false;
                        },
                    }
                    if cl.iat > now || cl.nbf > now || cl.exp <= now {
                        ok = false;
                    }
                },
                None => {
                    ok = false;
                },
            }
        }
        proof {
            assert forall|c: AuthClaimsView|
                wf_auth_claims(c) && temporal_ok(c.iat, c.exp, c.nbf, now as int) && encode_utf8(
                    auth_token@,
                ) == token_bytes(encode_utf8(self.key@), auth_claims_json(c)) implies (ok && (
            cl_opt matches Some(cl) && cl@ == c)) by {
                let key = encode_utf8(self.key@);
                let json_c = auth_claims_json(c);
                lemma_token_structure(tb@, key, json_c);
                let hl = b64_encode_bytes(k_header()).len() as int;
                let pl = b64_encode_bytes(json_c).len() as int;
                assert(i == hl);
                assert(j == hl + 1 + pl);
                assert(tb@.subrange(i + 1, j as int) == b64_encode_bytes(json_c));
                assert(payload@ == b64_encode_bytes(json_c));
                assert(payload@.skip(0) =~= payload@);
                assert(jb@ == json_c);
                assert(cl_opt matches Some(cl) && cl@ == c);
                assert(ok);
            }
        }
        match cl_opt {
            Some(cl) => {
                if ok {
                    Ok(cl)
                } else {
                    Err(MaaError::JwtVerifyFailed)
                }
            },
            None => Err(MaaError::JwtVerifyFailed),
        }
    }

    /// Verifies an access token as of the current clock reading.
    pub fn verify_and_parse_auth_token(&self, auth_token: &str) -> (r: MaaResult<JwtAuthClaims>)
        ensures
            r matches Ok(cl) ==> wf_auth_claims(cl@) && encode_utf8(auth_token@) == token_bytes(
                encode_utf8(self.key@),
                auth_claims_json(cl@),
            ),
            r matches Err(e) ==> e matches MaaError::JwtVerifyFailed,
    {
        let now = now_timestamp();
        self.verify_auth_at(auth_token, now)
    }
}

/// Where the pieces of a token stand: header text, dot, claims text,
/// dot, signature, with no dot inside the two encoded parts.
proof fn lemma_token_structure(tb: Seq<u8>, key: Seq<u8>, json: Seq<u8>)
    requires
        tb == token_bytes(key, json),
    ensures
        ({
            let hb = b64_encode_bytes(k_header());
            let pb = b64_encode_bytes(json);
            &&& tb.len() == hb.len() + 1 + pb.len() + 1 + hmac_sig_b64(
                key,
                signing_input(json),
            ).len()
            &&& tb.subrange(0, hb.len() as int) == hb
            &&& tb[hb.len() as int] == 46
            &&& tb.subrange(hb.len() as int + 1, hb.len() + 1 + pb.len() as int) == pb
            &&& tb[hb.len() + 1 + pb.len() as int] == 46
            &&& forall|k: int| 0 <= k < hb.len() ==> tb[k] != 46
            &&& forall|k: int| hb.len() + 1 <= k < hb.len() + 1 + pb.len() as int ==> tb[k] != 46
        }),
{
    let hb = b64_encode_bytes(k_header());
    let pb = b64_encode_bytes(json);
    let sig = hmac_sig_b64(key, signing_input(json));
    let x1 = hb;
    let x2 = x1 + seq![46u8];
    let x3 = x2 + pb;
    let x4 = x3 + seq![46u8];
    assert(tb == x4 + sig);
    assert(tb.subrange(0, tb.len() as int) =~= tb);
    lemma_peel(tb, x4, sig, tb.len() as int);
    lemma_peel(tb, x3, seq![46u8], x4.len() as int);
    lemma_peel(tb, x2, pb, x3.len() as int);
    lemma_peel(tb, x1, seq![46u8], x2.len() as int);
    lemma_b64_encode_wf(k_header());
    lemma_b64_encode_wf(json);
    assert(tb[hb.len() as int] == tb.subrange(x1.len() as int, x2.len() as int)[0]);
    assert(tb[hb.len() + 1 + pb.len() as int] == tb.subrange(x3.len() as int, x4.len() as int)[0]);
    assert forall|k: int| 0 <= k < hb.len() implies tb[k] != 46 by {
        assert(tb[k] == tb.subrange(0, x1.len() as int)[k]);
        assert(tb[k] == hb[k]);
    }
    assert forall|k: int| hb.len() + 1 <= k < hb.len() + 1 + pb.len() implies tb[k] != 46 by {
        assert(tb[k] == tb.subrange(x2.len() as int, x3.len() as int)[k - hb.len() - 1]);
        assert(tb[k] == pb[k - hb.len() - 1]);
    }
}

impl JwtService {
    /// Issues a refresh token as of time `now`, valid from `now` to
    /// `now` plus the configured lifetime.
    pub fn issue_refresh_at(&self, subject: &str, jwt_id: Option<&str>, now: i64) -> (r:
        MaaResult<SignedJwt>)
        ensures
            ({
                let sub = encode_utf8(subject@);
                let jti = match jwt_id {
                    Some(j) => Some(encode_utf8(j@)),
                    None => None,
                };
                &&& (r is Ok <==> 0 <= now && now + self.expire_time
                    < 1_000_000_000_000_000_000)
                &&& (r matches Ok(t) ==> {
                    &&& t.not_before == now
                    &&& t.expires_at == now + self.expire_time
                    &&& encode_utf8(t.token@) == token_bytes(
                        encode_utf8(self.key@),
                        refresh_claims_json(
                            refresh_claims_of(
                                sub,
                                jti,
                                now as int,
                                now + self.expire_time,
                                now as int,
                            ),
                        ),
                    )
                })
                &&& (r matches Err(e) ==> e matches MaaError::JsonWebTokensError)
            }),
    {
        if now < 0 {
            return Err(MaaError::JsonWebTokensError);
        }
        if self.expire_time >= 1_000_000_000_000_000_000 {
            return Err(MaaError::JsonWebTokensError);
        }
        let nu = now as u64;
        if nu >= 1_000_000_000_000_000_000 - self.expire_time {
            return Err(MaaError::JsonWebTokensError);
        }
        let exp = now + self.expire_time as i64;
        let tv = k_typ_refresh_vec();
        let claims = JwtRefreshClaims {
            sub: subject.to_owned(),
            jti: match jwt_id {
                Some(j) => Some(j.to_owned()),
                None => None,
            },
            iat: now,
            exp,
            nbf: now,
            typ: ascii_string(tv.as_slice()),
        };
        proof {
            assert(claims@ == refresh_claims_of(
                encode_utf8(subject@),
                match jwt_id {
                    Some(j) => Some(encode_utf8(j@)),
                    None => None,
                },
                now as int,
                now + self.expire_time,
                now as int,
            ));
            lemma_refresh_strings_valid(&claims);
        }
        let json = ser_refresh_claims(&claims);
        let token = match token_for_json(self.key.as_str(), json.as_slice()) {
            Ok(t) => t,
            Err(e) => {
                return Err(e);
            },
        };
        Ok(SignedJwt { token, expires_at: exp, not_before: now })
    }

    /// Issues a refresh token as of the current clock reading.
    pub fn issue_refresh_token(&self, subject: String, jwt_id: Option<String>) -> (r:
        MaaResult<SignedJwt>)
        ensures
            r matches Ok(t) ==> ({
                let sub = encode_utf8(subject@);
                let jti = match jwt_id {
                    Some(j) => Some(encode_utf8(j@)),
                    None => None,
                };
                &&& t.expires_at == t.not_before + self.expire_time
                &&& 0 <= t.not_before
                &&& t.expires_at < 1_000_000_000_000_000_000
                &&& encode_utf8(t.token@) == token_bytes(
                    encode_utf8(self.key@),
                    refresh_claims_json(
                        refresh_claims_of(
                            sub,
                            jti,
                            t.not_before as int,
                            t.expires_at as int,
                            t.not_before as int,
                        ),
                    ),
                )
            }),
            r matches Err(e) ==> e matches MaaError::JsonWebTokensError,
    {
        let now = now_timestamp();
        self.issue_refresh_at(
            subject.as_str(),
            match &jwt_id {
                Some(j) => Some(j.as_str()),
                None => None,
            },
            now,
        )
    }

    /// Rotates a refresh token as of time `now`: fresh issue time,
    /// validity start and session id, but the expiry of the old claims
    /// kept unchanged, so rotation never extends a session beyond its
    /// original ceiling.
    pub fn rotate_refresh_at(
        &self,
        old: &JwtRefreshClaims,
        jwt_id: Option<&str>,
        now: i64,
    ) -> (r: MaaResult<SignedJwt>)
        ensures
            ({
                let sub = old@.sub;
                let jti = match jwt_id {
                    Some(j) => Some(encode_utf8(j@)),
                    None => None,
                };
                &&& (r is Ok <==> 0 <= now < 1_000_000_000_000_000_000 && wf_stamp(old@.exp))
                &&& (r matches Ok(t) ==> {
                    &&& t.not_before == now
                    &&& t.expires_at == old@.exp
                    &&& encode_utf8(t.token@) == token_bytes(
                        encode_utf8(self.key@),
                        refresh_claims_json(
                            refresh_claims_of(sub, jti, now as int, old@.exp, now as int),
                        ),
                    )
                })
                &&& (r matches Err(e) ==> e matches MaaError::JsonWebTokensError)
            }),
    {
        if now < 0 || now >= 1_000_000_000_000_000_000 {
            return Err(MaaError::JsonWebTokensError);
        }
        if old.exp < 0 || old.exp >= 1_000_000_000_000_000_000 {
            return Err(MaaError::JsonWebTokensError);
        }
        let tv = k_typ_refresh_vec();
        let claims = JwtRefreshClaims {
            sub: old.sub.clone(),
            jti: match jwt_id {
                Some(j) => Some(j.to_owned()),
                None => None,
            },
            iat: now,
            exp: old.exp,
            nbf: now,
            typ: ascii_string(tv.as_slice()),
        };
        proof {
            assert(claims@ == refresh_claims_of(
                old@.sub,
                match jwt_id {
                    Some(j) => Some(encode_utf8(j@)),
                    None => None,
                },
                now as int,
                old@.exp,
                now as int,
            ));
            lemma_refresh_strings_valid(&claims);
        }
        let json = ser_refresh_claims(&claims);
        let token = match token_for_json(self.key.as_str(), json.as_slice()) {
            Ok(t) => t,
            Err(e) => {
                return Err(e);
            },
        };
        Ok(SignedJwt { token, expires_at: old.exp, not_before: now })
    }

    /// Rotates a refresh token as of the current clock reading. The
    /// expiry of the old claims is preserved; only the issue time, the
    /// validity start and the session id change.
    pub fn new_refresh_token(&self, old: JwtRefreshClaims, jwt_id: Option<String>) -> (r:
        MaaResult<SignedJwt>)
        ensures
            r matches Ok(t) ==> t.expires_at == old@.exp && 0 <= t.not_before
                < 1_000_000_000_000_000_000 && encode_utf8(t.token@) == token_bytes(
                encode_utf8(self.key@),
                refresh_claims_json(
                    refresh_claims_of(
                        old@.sub,
                        match jwt_id {
                            Some(j) => Some(encode_utf8(j@)),
                            None => None,
                        },
                        t.not_before as int,
                        old@.exp,
                        t.not_before as int,
                    ),
                ),
            ),
            r matches Err(e) ==> e matches MaaError::JsonWebTokensError,
    {
        let now = now_timestamp();
        self.rotate_refresh_at(
            &old,
            match &jwt_id {
                Some(j) => Some(j.as_str()),
                None => None,
            },
            now,
        )
    }

    /// Verifies a refresh token as of time `now`: accepts exactly the
    /// tokens this service signs over well-formed refresh claims whose
    /// window contains `now`, and returns those claims — for a rotated
    /// token, claims whose expiry is still the original ceiling.
    #[verifier::rlimit(100)]
    pub fn verify_refresh_at(&self, refresh_token: &str, now: i64) -> (r:
        MaaResult<JwtRefreshClaims>)
        ensures
            r matches Ok(cl) ==> wf_refresh_claims(cl@) && encode_utf8(refresh_token@)
                == token_bytes(encode_utf8(self.key@), refresh_claims_json(cl@)) && temporal_ok(
                cl@.iat,
                cl@.exp,
                cl@.nbf,
                now as int,
            ),
            forall|c: RefreshClaimsView|
                wf_refresh_claims(c) && temporal_ok(c.iat, c.exp, c.nbf, now as int)
                    && encode_utf8(refresh_token@) == token_bytes(
                    encode_utf8(self.key@),
                    refresh_claims_json(c),
                ) ==> (r matches Ok(cl) && cl@ == c),
            r matches Err(e) ==> e matches MaaError::JwtVerifyFailed,
    {
        let tb = refresh_token.as_bytes();
        let blen = tb.len();
        let mut ok = true;
        let mut i: usize = 0;
        let mut j: usize = 0;
        match find_byte(tb, 0, 46) {
            Some(x) => {
                i = x;
            },
            None => {
                ok = false;
            },
        }
        if ok {
            match find_byte(tb, i + 1, 46) {
                Some(x) => {
                    j = x;
                },
                None => {
                    ok = false;
                },
            }
        }
        let kh = k_header_vec();
        let hb = b64_encode(kh.as_slice());
        if ok {
            if !(match_lit(tb, 0, hb.as_slice()) && i == hb.len()) {
                ok = false;
            }
        }
        let mut jb: Vec<u8> = Vec::new();
        let mut payload: Vec<u8> = Vec::new();
        if ok {
            payload = copy_range(tb, i + 1, j);
            if !b64_decode_into(payload.as_slice(), 0, &mut jb) {
                ok = false;
            }
        }
        let mut cl_opt: Option<JwtRefreshClaims> = None;
        if ok {
            match parse_refresh_claims(jb.as_slice()) {
                Some(cl) => {
                    cl_opt = Some(cl);
                },
                None => {
                    ok = false;
                },
            }
        }
        if ok {
            match &cl_opt {
                Some(cl) => {
                    let json2 = ser_refresh_claims(cl);
                    match token_for_json(self.key.as_str(), json2.as_slice()) {
                        Ok(t2) => {
                            if !bytes_eq(tb, t2.as_str().as_bytes()) {
                                ok = false;
                            }
                        },
                        Err(_) => {
                            ok = false;
                        },
                    }
                    if cl.iat > now || cl.nbf > now || cl.exp <= now {
                        ok = false;
                    }
                },
                None => {
                    ok = false;
                },
            }
        }
        proof {
            assert forall|c: RefreshClaimsView|
                wf_refresh_claims(c) && temporal_ok(c.iat, c.exp, c.nbf, now as int)
                    && encode_utf8(refresh_token@) == token_bytes(
                    encode_utf8(self.key@),
                    refresh_claims_json(c),
                ) implies (ok && (cl_opt matches Some(cl) && cl@ == c)) by {
                let key = encode_utf8(self.key@);
                let json_c = refresh_claims_json(c);
                lemma_token_structure(tb@, key, json_c);
                let hl = b64_encode_bytes(k_header()).len() as int;
                let pl = b64_encode_bytes(json_c).len() as int;
                assert(i == hl);
                assert(j == hl + 1 + pl);
                assert(tb@.subrange(i + 1, j as int) == b64_encode_bytes(json_c));
                assert(payload@ == b64_encode_bytes(json_c));
                assert(payload@.skip(0) =~= payload@);
                assert(jb@ == json_c);
                assert(cl_opt matches Some(cl) && cl@ == c);
                assert(ok);
            }
        }
        match cl_opt {
            Some(cl) => {
                if ok {
                    Ok(cl)
                } else {
                    Err(MaaError::JwtVerifyFailed)
                }
            },
            None => Err(MaaError::JwtVerifyFailed),
        }
    }

    /// Verifies a refresh token as of the current clock reading.
    pub fn verify_and_parse_refresh_token(&self, refresh_token: &str) -> (r:
        MaaResult<JwtRefreshClaims>)
        ensures
            r matches Ok(cl) ==> wf_refresh_claims(cl@) && encode_utf8(refresh_token@)
                == token_bytes(encode_utf8(self.key@), refresh_claims_json(cl@)),
            r matches Err(e) ==> e matches MaaError::JwtVerifyFailed,
    {
        let now = now_timestamp();
        self.verify_refresh_at(refresh_token, now)
    }
}

} // verus!
