//! Adaptive password hashing.
//!
//! Hashing and verification are delegated to the bcrypt algorithm; the
//! work factor is not fixed but calibrated once, at construction, to
//! the machine the service runs on: the cost is raised step by step
//! until one hash takes longer than a fixed wall-clock target, or the
//! algorithm's maximum cost is reached.

use vstd::prelude::*;
use vstd::utf8::encode_utf8;

use crate::{MaaError, MaaResult};

verus! {

/// What `bcrypt::verify(password, hash)` returns: `Some(b)` when the
/// hash parses as a bcrypt hash and the comparison yields `b`, `None`
/// when verification fails with an error. The result is a function of
/// the two arguments alone: the salt and cost are read back out of the
/// hash string and the comparison is a re-derivation.
pub uninterp spec fn bcrypt_verify_result(password: Seq<u8>, hash: Seq<u8>) -> Option<bool>;

/// Relies on `bcrypt::hash`: a freshly salted hash of `password` at the
/// given cost. `bcrypt::verify` accepts the pair: its `_verify` re-derives
/// the hash from the cost and salt embedded in the hash string and
/// compares, so a hash just produced for `password` always matches it.
#[verifier::external_body]
fn bcrypt_hash(password: &str, cost: u32) -> (r: MaaResult<String>)
    requires
        4 <= cost <= 31,
    ensures
        r matches Ok(h) ==> bcrypt_verify_result(encode_utf8(password@), encode_utf8(h@))
            == Some(true),
        r matches Err(e) ==> e matches MaaError::BcryptError,
{
    match bcrypt::hash(password, cost) {
        Ok(h) => Ok(h),
        Err(_) => Err(MaaError::BcryptError),
    }
}

/// Relies on `bcrypt::verify`: deterministic in the password and the
/// hash string, erring exactly when the hash string does not parse as
/// a bcrypt hash.
#[verifier::external_body]
fn bcrypt_verify(password: &str, hash: &str) -> (r: MaaResult<bool>)
    ensures
        r matches Ok(b) ==> bcrypt_verify_result(encode_utf8(password@), encode_utf8(hash@))
            == Some(b),
        r is Err <==> bcrypt_verify_result(encode_utf8(password@), encode_utf8(hash@)) is None,
        r matches Err(e) ==> e matches MaaError::BcryptError,
{
    match bcrypt::verify(password, hash) {
        Ok(b) => Ok(b),
        Err(_) => Err(MaaError::BcryptError),
    }
}

/// Relies on `bcrypt::hash` and `std::time::Instant`: hashes the
/// given test string at the given cost and reports how many
/// wall-clock milliseconds the call took (saturated to `u64::MAX`).
/// The duration depends on the machine and the moment, so nothing is
/// promised of it.
#[verifier::external_body]
fn hash_duration_ms(password: &str, cost: u32) -> (r: MaaResult<u64>)
    requires
        4 <= cost <= 31,
{
    let start = std::time::Instant::now();
    if bcrypt::hash(password, cost).is_err() {
        return Err(MaaError::BcryptError);
    }
    let ms = start.elapsed().as_millis();
    Ok(u64::try_from(ms).unwrap_or(u64::MAX))
}

/// The calibration loop: measure one hash per cost, from the minimum
/// cost upward, and stop at the first cost whose hash takes more than
/// 1000 ms, or at the maximum cost 31.
///
/// On success, the chosen cost comes with the measured durations, one
/// per tried cost starting at cost 4, and they witness the stopping
/// rule: every measurement but the last was within the target, and the
/// last one exceeded it unless the maximum cost was reached.
pub fn calibrate_cost() -> (r: MaaResult<(u32, Vec<u64>)>)
    ensures
        r matches Ok(p) ==> {
            &&& 4 <= p.0 <= 31
            &&& p.1@.len() == p.0 - 3
            &&& forall|i: int| 0 <= i < p.1@.len() - 1 ==> p.1@[i] <= 1000
            &&& (p.1@[p.1@.len() - 1] > 1000 || p.0 == 31)
        },
{
    let mut cost: u32 = 4;
    let mut ms: Vec<u64> = Vec::new();
    loop
        invariant
            4 <= cost <= 31,
            ms@.len() == cost - 4,
            forall|i: int| 0 <= i < ms@.len() ==> ms@[i] <= 1000,
        decreases 31 - cost,
    {
        let d = match hash_duration_ms("password", cost) {
            Ok(d) => d,
            Err(e) => return Err(e),
        };
        ms.push(d);
        if d > 1000 {
            return Ok((cost, ms));
        }
        if cost >= 31 {
            return Ok((cost, ms));
        }
        cost = cost + 1;
    }
}

/// Hashes passwords with a work factor calibrated at construction.
pub struct PasswordEncoder {
    pub cost: u32,
}

impl PasswordEncoder {
    /// Runs the calibration loop once and fixes the resulting cost for
    /// the lifetime of the encoder. Deliberately slow at startup.
    pub fn new() -> (r: MaaResult<Self>)
        ensures
            r matches Ok(pe) ==> 4 <= pe.cost <= 31,
    {
        let (cost, _ms) = calibrate_cost()?;
        Ok(Self { cost })
    }

    /// A fresh salted hash of `password` at the calibrated cost.
    /// Whatever `matches` is asked about the returned hash and the same
    /// password, it answers `Ok(true)`.
    pub fn encode(&self, password: &str) -> (r: MaaResult<String>)
        requires
            4 <= self.cost <= 31,
        ensures
            r matches Ok(h) ==> bcrypt_verify_result(encode_utf8(password@), encode_utf8(h@))
                == Some(true),
            r matches Err(e) ==> e matches MaaError::BcryptError,
    {
        bcrypt_hash(password, self.cost)
    }

    /// Whether `password` is the password that `hash` was derived from.
    /// Never touches the calibrated cost: the cost used for comparison
    /// is the one embedded in the hash itself.
    pub fn matches(&self, password: &str, hash: &str) -> (r: MaaResult<bool>)
        ensures
            r matches Ok(b) ==> bcrypt_verify_result(encode_utf8(password@), encode_utf8(hash@))
                == Some(b),
            r is Err <==> bcrypt_verify_result(encode_utf8(password@), encode_utf8(hash@)) is None,
            r matches Err(e) ==> e matches MaaError::BcryptError,
    {
        bcrypt_verify(password, hash)
    }
}

} // verus!
