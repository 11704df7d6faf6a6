//! Core of a backend authentication and access-control service:
//! token issuance and verification, adaptive password hashing,
//! one-time verification codes, per-client request throttling, and
//! the login orchestration that ties them together.
//!
//! All stateful coordination (a shared key-value cache with TTLs, a
//! mail transport, a user directory) is external to this crate and is
//! consumed through narrow interfaces: the functions here compute the
//! keys, values and decisions, and the surrounding application performs
//! the I/O.

use vstd::prelude::*;

pub mod access_limit;
pub mod password;
pub mod b64;
pub mod codec;
pub mod jwt;
pub mod user;
pub mod vcode;

verus! {

/// One failing field of a validated request, with its message.
#[derive(Debug)]
pub struct FieldError {
    pub field: String,
    pub message: String,
}

/// The error taxonomy of the service.
///
/// Infrastructure errors (cache, directory, mail, configuration) carry
/// no detail here; they are all rendered as a generic server error.
/// Business errors each map to a distinct user-facing outcome.
#[derive(Debug)]
pub enum MaaError {
    EnvError,
    MongoError,
    NoDefaultDBError,
    RedisError,
    RedisPoolError,
    BcryptError,
    ParseIntError,
    JsonWebTokensError,
    MailSendError,
    LoginFail,
    UserNotEnabled,
    JwtVerifyFailed,
    NoneUserId,
    ValidationError(Vec<FieldError>),
    VCodeSentTooFrequently,
    RegistrationUserExist,
    VCodeNotMatch,
}

pub type MaaResult<T> = Result<T, MaaError>;

/// One line of a validation report: `field: message`, newline
/// terminated.
pub open spec fn line_of(fe: FieldError) -> Seq<char> {
    fe.field@ + ": "@ + fe.message@ + "\n"@
}

/// The validation report: one line per failing field, in order.
pub open spec fn field_lines(l: Seq<FieldError>) -> Seq<char>
    decreases l.len(),
{
    if l.len() == 0 {
        Seq::empty()
    } else {
        line_of(l[0]) + field_lines(l.drop_first())
    }
}

proof fn lemma_field_lines_snoc(l: Seq<FieldError>, k: int)
    requires
        0 <= k < l.len(),
    ensures
        field_lines(l.take(k + 1)) == field_lines(l.take(k)) + line_of(l[k]),
    decreases k,
{
    if k == 0 {
        assert(l.take(1) =~= seq![l[0]]);
        assert(l.take(0) =~= Seq::<FieldError>::empty());
        assert(seq![l[0]].drop_first() =~= Seq::<FieldError>::empty());
        assert(field_lines(l.take(1)) =~= line_of(l[0]));
        assert(field_lines(l.take(0)) + line_of(l[0]) =~= line_of(l[0]));
    } else {
        let l1 = l.drop_first();
        lemma_field_lines_snoc(l1, k - 1);
        assert(l.take(k + 1).drop_first() =~= l1.take(k));
        assert(l.take(k).drop_first() =~= l1.take(k - 1));
        assert(l.take(k + 1)[0] == l[0]);
        assert(l.take(k)[0] == l[0]);
        assert(l1[k - 1] == l[k]);
        assert(field_lines(l.take(k + 1)) =~= field_lines(l.take(k)) + line_of(l[k]));
    }
}

/// The text of each error as the service reports it: business errors
/// carry their message, a validation failure carries one line per
/// failing field, and everything else is deliberately blank — internal
/// detail is never rendered to the caller.
pub open spec fn spec_message(e: &MaaError) -> Seq<char> {
    match e {
        MaaError::LoginFail => "用户不存在或密码错误"@,
        MaaError::UserNotEnabled => "用户未启用"@,
        MaaError::JwtVerifyFailed => "JWT验证失败"@,
        MaaError::NoneUserId => "用户id不存在"@,
        MaaError::ValidationError(fe) => field_lines(fe@),
        MaaError::VCodeSentTooFrequently => "验证码发送过于频繁"@,
        MaaError::RegistrationUserExist => "用户已存在"@,
        MaaError::VCodeNotMatch => "验证码不匹配"@,
        _ => Seq::empty(),
    }
}

impl MaaError {
    /// Renders the error's user-facing text.
    pub fn message(&self) -> (r: String)
        ensures
            r@ == spec_message(self),
    {
        match self {
            MaaError::LoginFail => "用户不存在或密码错误".to_owned(),
            MaaError::UserNotEnabled => "用户未启用".to_owned(),
            MaaError::JwtVerifyFailed => "JWT验证失败".to_owned(),
            MaaError::NoneUserId => "用户id不存在".to_owned(),
            MaaError::ValidationError(fe) => {
                let n = fe.len();
                let mut out = String::new();
                let mut i: usize = 0;
                proof {
                    assert(fe@.take(0) =~= Seq::<FieldError>::empty());
                }
                while i < n
                    invariant
                        n == fe@.len(),
                        i <= n,
                        out@ == field_lines(fe@.take(i as int)),
                    decreases n - i,
                {
                    out.append(fe[i].field.as_str());
                    out.append(": ");
                    out.append(fe[i].message.as_str());
                    out.append("\n");
                    proof {
                        lemma_field_lines_snoc(fe@, i as int);
                        assert(out@ =~= field_lines(fe@.take(i + 1)));
                    }
                    i = i + 1;
                }
                proof {
                    assert(fe@.take(n as int) =~= fe@);
                }
                out
            },
            MaaError::VCodeSentTooFrequently => "验证码发送过于频繁".to_owned(),
            MaaError::RegistrationUserExist => "用户已存在".to_owned(),
            MaaError::VCodeNotMatch => "验证码不匹配".to_owned(),
            _ => String::new(),
        }
    }

    /// The HTTP-facing status for each error: business errors get a
    /// specific status, everything else collapses to a generic 500.
    pub fn status_code(&self) -> (c: u16)
        ensures
            c == match self {
                MaaError::LoginFail => 401u16,
                MaaError::UserNotEnabled => 10003u16,
                MaaError::NoneUserId => 400u16,
                MaaError::ValidationError(_) => 400u16,
                MaaError::VCodeSentTooFrequently => 403u16,
                MaaError::RegistrationUserExist => 10004u16,
                MaaError::VCodeNotMatch => 401u16,
                _ => 500u16,
            },
    {
        match self {
            MaaError::LoginFail => 401,
            MaaError::UserNotEnabled => 10003,
            MaaError::NoneUserId => 400,
            MaaError::ValidationError(_) => 400,
            MaaError::VCodeSentTooFrequently => 403,
            MaaError::RegistrationUserExist => 10004,
            MaaError::VCodeNotMatch => 401,
            _ => 500,
        }
    }
}

} // verus!
