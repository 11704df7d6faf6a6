//! One-time verification codes sent by mail.
//!
//! Per email address the shared cache holds at most one live code and
//! one short-lived resend-guard marker. The cache round trips and the
//! mail transport are external; the functions here compute the cache
//! keys and values, the code itself, and the outcome of each step:
//!
//! - sending: create the resend-guard marker only if absent
//!   (`send_vcode_guard`); if it already existed the attempt is over
//!   (`send_vcode_issue` with `guard_created == false`), otherwise a
//!   fresh code is issued and stored upper-cased with the configured
//!   TTL;
//! - verifying: compare the upper-cased candidate against the stored
//!   code and delete it in one cache operation
//!   (`verify_vcode_request`), then read the outcome
//!   (`verify_vcode_outcome`).

use vstd::prelude::*;

use crate::{MaaError, MaaResult};

verus! {

/// ASCII upper-casing of one character, as std defines it: `a`-`z` map
/// to `A`-`Z`, everything else is unchanged.
pub open spec fn upper_char(c: char) -> char {
    if 'a' <= c && c <= 'z' {
        (((c as u8) - 32) as u8) as char
    } else {
        c
    }
}

/// ASCII upper-casing of a string's characters.
pub open spec fn upper_chars(s: Seq<char>) -> Seq<char> {
    s.map_values(|c: char| upper_char(c))
}

/// Relies on `str::to_ascii_uppercase`: each character is mapped to its
/// ASCII upper-case equivalent, non-ASCII characters are unchanged.
#[verifier::external_body]
fn to_ascii_upper(s: &str) -> (r: String)
    ensures
        r@ == upper_chars(s@),
{
    s.to_ascii_uppercase()
}

/// One alphanumeric ASCII character: `0`-`9`, `a`-`z` or `A`-`Z`.
pub open spec fn is_alnum_char(c: char) -> bool {
    ('0' <= c && c <= '9') || ('a' <= c && c <= 'z') || ('A' <= c && c <= 'Z')
}

/// Relies on `rand`'s `Alphanumeric` distribution: six characters drawn
/// uniformly from `0`-`9`, `a`-`z`, `A`-`Z`. The value is random, so
/// only its length and alphabet are promised.
#[verifier::external_body]
fn random_alnum6() -> (r: String)
    ensures
        r@.len() == 6,
        forall|i: int| 0 <= i < r@.len() ==> is_alnum_char(r@[i]),
{
    let mut rng = rand::rng();
    (0..6).map(|_| char::from(rand::RngExt::sample(&mut rng, rand::distr::Alphanumeric))).collect()
}

/// Everything the application needs to finish one successful
/// `send` attempt: the code to put in the mail, and the cache write
/// that stores its upper-cased form.
pub struct VcodeIssue {
    pub code: String,
    pub store_key: String,
    pub store_value: String,
    pub ttl_seconds: u64,
}

/// The verification-code service: all state lives in the shared cache,
/// only the configured code lifetime is held here.
pub struct MailService {
    pub vcode_expire: u64,
}

impl MailService {
    pub fn new(vcode_expire: u64) -> (r: Self)
        ensures
            r.vcode_expire == vcode_expire,
    {
        Self { vcode_expire }
    }

    /// The first step of sending: the set-if-absent request that
    /// creates the resend-guard marker, as `(key, value, ttl_seconds)`.
    /// The marker lives a tenth of the code's lifetime; its value is
    /// never read, the marker's existence alone blocks resending.
    pub fn send_vcode_guard(&self, email: &str) -> (r: (String, u64, u64))
        ensures
            r.0@ == "HasBeenSentVCode:"@ + email@,
            r.1 == self.vcode_expire / 10,
            r.2 == self.vcode_expire / 10,
    {
        let mut key = "HasBeenSentVCode:".to_owned();
        key.append(email);
        let timeout = self.vcode_expire / 10;
        (key, timeout, timeout)
    }

    /// The second step of sending, given whether the guard marker was
    /// created. If it already existed the attempt fails and nothing
    /// else happens; otherwise a fresh six-character alphanumeric code
    /// is drawn, to be mailed as is and stored upper-cased under the
    /// email's code key with the configured lifetime.
    pub fn send_vcode_issue(&self, email: &str, guard_created: bool) -> (r: MaaResult<VcodeIssue>)
        ensures
            !guard_created ==> (r matches Err(e) && e matches MaaError::VCodeSentTooFrequently),
            guard_created ==> (r matches Ok(p) && {
                &&& p.code@.len() == 6
                &&& forall|i: int| 0 <= i < p.code@.len() ==> is_alnum_char(#[trigger] p.code@[i])
                &&& p.store_key@ == "vCodeEmail:"@ + email@
                &&& p.store_value@ == upper_chars(p.code@)
                &&& p.ttl_seconds == self.vcode_expire
            }),
    {
        if !guard_created {
            return Err(MaaError::VCodeSentTooFrequently);
        }
        let code = random_alnum6();
        let mut key = "vCodeEmail:".to_owned();
        key.append(email);
        let value = to_ascii_upper(code.as_str());
        Ok(VcodeIssue { code, store_key: key, store_value: value, ttl_seconds: self.vcode_expire })
    }

    /// The delete-if-equals request that checks a candidate code: the
    /// email's code key, and the upper-cased candidate. Deleting on
    /// match makes a successful verification single-use.
    pub fn verify_vcode_request(&self, email: &str, vcode: &str) -> (r: (String, String))
        ensures
            r.0@ == "vCodeEmail:"@ + email@,
            r.1@ == upper_chars(vcode@),
    {
        let mut key = "vCodeEmail:".to_owned();
        key.append(email);
        (key, to_ascii_upper(vcode))
    }

    /// The mail body that delivers a code: a small HTML page with the
    /// code embedded.
    pub fn vcode_email_html(&self, code: &str) -> (r: String)
        ensures
            r@ == "<html><body><p>Your verification code is <b>"@ + code@
                + "</b>.</p></body></html>"@,
    {
        let mut body = "<html><body><p>Your verification code is <b>".to_owned();
        body.append(code);
        body.append("</b>.</p></body></html>");
        body
    }

    /// The outcome of a verify attempt: it succeeds exactly when the
    /// stored code existed, matched, and was removed.
    pub fn verify_vcode_outcome(&self, deleted: bool) -> (r: MaaResult<()>)
        ensures
            r is Ok <==> deleted,
            !deleted ==> (r matches Err(e) && e matches MaaError::VCodeNotMatch),
    {
        if !deleted {
            return Err(MaaError::VCodeNotMatch);
        }
        Ok(())
    }
}

} // verus!
