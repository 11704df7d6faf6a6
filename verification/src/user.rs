//! The login use-case: request validation, the user record, and the
//! orchestration that checks a password, updates the bounded session
//! list, and issues the session tokens.
//!
//! The user directory (lookup by email, persisting the updated record)
//! is external: `login` receives the looked-up record and hands the
//! updated one back for the caller to persist.

use vstd::prelude::*;
use vstd::utf8::encode_utf8;

use crate::FieldError;
use crate::MaaError;
use crate::MaaResult;
use crate::codec::ascii_string;
use crate::codec::dec_digits;
use crate::codec::push_dec;
use crate::codec::wf_text;
use crate::jwt::JwtService;
use crate::jwt::auth_claims_json;
use crate::jwt::auth_claims_of;
use crate::jwt::refresh_claims_json;
use crate::jwt::refresh_claims_of;
use crate::jwt::strs_bytes;
use crate::jwt::token_bytes;
use crate::password::PasswordEncoder;
use crate::password::bcrypt_verify_result;

verus! {

/// A user record as the directory holds it.
pub struct MaaUser {
    pub user_id: Option<String>,
    pub user_name: String,
    pub email: String,
    pub password: String,
    pub status: i32,
    pub refresh_jwt_ids: Vec<String>,
}

impl MaaUser {
    /// The placeholder record for an unknown user: disabled, with no
    /// identifier and no sessions.
    pub fn unknown() -> (r: Self)
        ensures
            r.user_id is None,
            r.user_name@ == "未知用户:("@,
            r.email@ == "unknown@unkown.unkown"@,
            r.password@ == "unknown"@,
            r.status == 0,
            r.refresh_jwt_ids@.len() == 0,
    {
        Self {
            user_id: None,
            user_name: "未知用户:(".to_owned(),
            email: "unknown@unkown.unkown".to_owned(),
            password: "unknown".to_owned(),
            status: 0,
            refresh_jwt_ids: Vec::new(),
        }
    }
}

/// A login request: credentials as the client sent them.
pub struct LoginRequest {
    pub email: String,
    pub password: String,
}

/// A registration request (the registration flow itself is not part of
/// this crate's logic).
pub struct RegisterRequest {
    pub email: String,
    pub user_name: String,
    pub password: String,
    pub registration_token: String,
}

/// What the email validator accepts: a function of the string alone.
pub uninterp spec fn is_valid_email(s: Seq<char>) -> bool;

/// Relies on validator's `ValidateEmail` for `&str`: whether the
/// string is a well-formed email address, a function of the string
/// alone.
#[verifier::external_body]
fn validate_email_str(s: &str) -> (r: bool)
    ensures
        r == is_valid_email(s@),
{
    validator::ValidateEmail::validate_email(&s)
}

impl LoginRequest {
    /// Field validation: the email must be well formed and the
    /// password non-empty; all failing fields are reported together,
    /// each with its message.
    pub fn validate(&self) -> (r: MaaResult<()>)
        ensures
            r is Ok <==> is_valid_email(self.email@) && self.password@.len() >= 1,
            r matches Err(e) ==> (e matches MaaError::ValidationError(fe) && {
                let email_ok = is_valid_email(self.email@);
                let pw_ok = self.password@.len() >= 1;
                &&& fe@.len() == (if email_ok {
                    0int
                } else {
                    1int
                }) + (if pw_ok {
                    0int
                } else {
                    1int
                })
                &&& (!email_ok ==> fe@[0].field@ == "email"@ && fe@[0].message@ == "邮箱格式错误"@)
                &&& (!pw_ok ==> fe@[fe@.len() - 1].field@ == "password"@ && fe@[fe@.len()
                    - 1].message@ == "请输入用户密码"@)
            }),
    {
        let email_ok = validate_email_str(self.email.as_str());
        let pw_ok = !self.password.as_str().is_empty();
        if email_ok && pw_ok {
            return Ok(());
        }
        let mut fe: Vec<FieldError> = Vec::new();
        if !email_ok {
            fe.push(
                FieldError { field: "email".to_owned(), message: "邮箱格式错误".to_owned() },
            );
        }
        if !pw_ok {
            fe.push(
                FieldError {
                    field: "password".to_owned(),
                    message: "请输入用户密码".to_owned(),
                },
            );
        }
        Err(MaaError::ValidationError(fe))
    }
}

/// The public face of a user, as login answers it.
pub struct MaaUserInfo {
    pub id: String,
    pub user_name: String,
    pub activated: bool,
}

impl MaaUserInfo {
    /// The public view of a record: its identifier (empty when
    /// absent), its name, and whether its status is exactly 1.
    pub fn of_user(user: &MaaUser) -> (r: Self)
        ensures
            r.id@ == match user.user_id {
                Some(id) => id@,
                None => Seq::<char>::empty(),
            },
            r.user_name == user.user_name,
            r.activated == (user.status == 1),
    {
        Self {
            id: match &user.user_id {
                Some(id) => id.clone(),
                None => String::new(),
            },
            user_name: user.user_name.clone(),
            activated: user.status == 1,
        }
    }
}

/// A successful login: both tokens with their windows, and the user's
/// public record.
pub struct MaaLoginResponse {
    pub token: String,
    pub valid_before: i64,
    pub valid_after: i64,
    pub refresh_token: String,
    pub refresh_token_valid_before: i64,
    pub refresh_token_valid_after: i64,
    pub user_info: MaaUserInfo,
}

/// Relies on uuid's `Uuid::new_v4` and its hyphenated rendering: 36
/// characters of lowercase hex digits and hyphens. The value is
/// random, so only its shape is promised.
#[verifier::external_body]
fn new_session_id() -> (r: String)
    ensures
        r@.len() == 36,
        wf_text(encode_utf8(r@)),
{
    uuid::Uuid::new_v4().to_string()
}

/// The authority list derived from a status: one entry per entitlement
/// count, each the decimal text of its index.
pub open spec fn status_authorities(status: int) -> Seq<Seq<u8>> {
    if status <= 0 {
        Seq::empty()
    } else {
        Seq::new(status as nat, |i: int| dec_digits(i as nat))
    }
}

fn make_authorities(status: i32) -> (r: Vec<String>)
    requires
        status >= 1,
    ensures
        strs_bytes(r@) == status_authorities(status as int),
{
    let n = status as u64;
    let mut r: Vec<String> = Vec::new();
    let mut i: u64 = 0;
    while i < n
        invariant
            i <= n,
            r@.len() == i,
            strs_bytes(r@) =~= status_authorities(n as int).take(i as int),
            n >= 1,
        decreases n - i,
    {
        let mut d: Vec<u8> = Vec::new();
        push_dec(&mut d, i);
        proof {
            crate::codec::lemma_dec_digits_are_digits(i as nat);
        }
        let s = ascii_string(d.as_slice());
        r.push(s);
        proof {
            assert(strs_bytes(r@) =~= status_authorities(n as int).take(i + 1));
        }
        i = i + 1;
    }
    proof {
        assert(status_authorities(n as int).take(n as int) =~= status_authorities(n as int));
        assert(strs_bytes(r@) =~= status_authorities(status as int));
    }
    r
}

/// The last `m` elements of a session list (all of it when it is
/// within the bound).
pub open spec fn keep_last(s: Seq<String>, m: int) -> Seq<String> {
    if s.len() <= m {
        s
    } else {
        s.skip(s.len() - m)
    }
}

/// The login orchestration: validation, password check, status check,
/// session bookkeeping, token issuance.
pub struct UserService {
    pub password_encoder: PasswordEncoder,
    pub jwt_service: JwtService,
    pub max_login: usize,
}

impl UserService {
    pub fn new(password_encoder: PasswordEncoder, jwt_service: JwtService, max_login: usize) -> (r:
        Self)
        ensures
            r.password_encoder == password_encoder,
            r.jwt_service == jwt_service,
            r.max_login == max_login,
    {
        Self { password_encoder, jwt_service, max_login }
    }

    /// One login attempt against the record the directory returned for
    /// the request's email (`None` when the address is unknown). Every
    /// gate has its own outcome: invalid fields, unknown user and wrong
    /// password (deliberately the same error), a record without an
    /// identifier, a disabled account. On success the updated record —
    /// the new session id appended and the oldest sessions evicted
    /// down to the cap — comes back with the response, to be persisted
    /// by the caller.
    pub fn login(&self, req: LoginRequest, user_opt: Option<MaaUser>) -> (r: MaaResult<
        (MaaLoginResponse, MaaUser),
    >)
        ensures
            !(is_valid_email(req.email@) && req.password@.len() >= 1) ==> (r matches Err(e)
                && e matches MaaError::ValidationError(fe) && {
                let email_ok = is_valid_email(req.email@);
                let pw_ok = req.password@.len() >= 1;
                &&& fe@.len() == (if email_ok {
                    0int
                } else {
                    1int
                }) + (if pw_ok {
                    0int
                } else {
                    1int
                })
                &&& (!email_ok ==> fe@[0].field@ == "email"@ && fe@[0].message@ == "邮箱格式错误"@)
                &&& (!pw_ok ==> fe@[fe@.len() - 1].field@ == "password"@ && fe@[fe@.len()
                    - 1].message@ == "请输入用户密码"@)
            }),
            ({
                let valid = is_valid_email(req.email@) && req.password@.len() >= 1;
                &&& (valid && user_opt is None ==> (r matches Err(e)
                    && e matches MaaError::LoginFail))
                &&& (valid && user_opt is Some ==> {
                    let u = user_opt->0;
                    let pw = bcrypt_verify_result(
                        encode_utf8(req.password@),
                        encode_utf8(u.password@),
                    );
                    &&& (u.user_id is None ==> (r matches Err(e)
                        && e matches MaaError::NoneUserId))
                    &&& (u.user_id is Some && pw is None ==> (r matches Err(e)
                        && e matches MaaError::BcryptError))
                    &&& (u.user_id is Some && pw == Some(false) ==> (r matches Err(e)
                        && e matches MaaError::LoginFail))
                    &&& (u.user_id is Some && pw == Some(true) && u.status == 0 ==> (
                    r matches Err(e) && e matches MaaError::UserNotEnabled))
                    &&& (u.user_id is Some && pw == Some(true) && u.status != 0 && r is Err ==> (
                    r matches Err(e) && e matches MaaError::JsonWebTokensError))
                })
            }),
            r matches Ok(p) ==> ({
                let u = user_opt->0;
                let newids = p.1.refresh_jwt_ids@;
                &&& is_valid_email(req.email@) && req.password@.len() >= 1
                &&& user_opt is Some
                &&& u.user_id is Some
                &&& bcrypt_verify_result(encode_utf8(req.password@), encode_utf8(u.password@))
                    == Some(true)
                &&& u.status != 0
                &&& p.1.user_id == u.user_id
                &&& p.1.user_name == u.user_name
                &&& p.1.email == u.email
                &&& p.1.password == u.password
                &&& p.1.status == u.status
                &&& newids.len() <= self.max_login
                &&& (self.max_login >= 1 ==> newids.len() >= 1 && newids == keep_last(
                    u.refresh_jwt_ids@.push(newids.last()),
                    self.max_login as int,
                ) && newids.len() == vstd::math::min(
                    u.refresh_jwt_ids@.len() as int + 1,
                    self.max_login as int,
                ))
                &&& p.0.valid_before == p.0.valid_after + self.jwt_service.expire_time
                &&& p.0.refresh_token_valid_before == p.0.valid_before
                &&& p.0.refresh_token_valid_after == p.0.valid_after
                &&& encode_utf8(p.0.token@) == token_bytes(
                    encode_utf8(self.jwt_service.key@),
                    auth_claims_json(
                        auth_claims_of(
                            encode_utf8(u.user_id->0@),
                            None,
                            status_authorities(u.status as int),
                            p.0.valid_after as int,
                            self.jwt_service.expire_time as int,
                        ),
                    ),
                )
                &&& (self.max_login >= 1 ==> exists|t2: int|
                    0 <= t2 < 1_000_000_000_000_000_000 && encode_utf8(p.0.refresh_token@)
                        == token_bytes(
                        encode_utf8(self.jwt_service.key@),
                        refresh_claims_json(
                            #[trigger] refresh_claims_of(
                                encode_utf8(u.user_id->0@),
                                Some(encode_utf8(newids.last()@)),
                                t2,
                                t2 + self.jwt_service.expire_time,
                                t2,
                            ),
                        ),
                    ))
                &&& p.0.user_info.user_name == u.user_name
                &&& p.0.user_info.activated == (u.status == 1)
                &&& p.0.user_info.id@ == u.user_id->0@
            }),
    {
        match req.validate() {
            Ok(()) => {},
            Err(e) => {
                return Err(e);
            },
        }
        let mut user = match user_opt {
            Some(u) => u,
            None => {
                return Err(MaaError::LoginFail);
            },
        };
        let user_id = match &user.user_id {
            Some(id) => id.clone(),
            None => {
                return Err(MaaError::NoneUserId);
            },
        };
        let pw_ok = match self.password_encoder.matches(
            req.password.as_str(),
            user.password.as_str(),
        ) {
            Ok(b) => b,
            Err(e) => {
                return Err(e);
            },
        };
        if !pw_ok {
            return Err(MaaError::LoginFail);
        }
        if user.status == 0 {
            return Err(MaaError::UserNotEnabled);
        }
        let jwt_id = new_session_id();
        let ghost ids0 = user.refresh_jwt_ids@;
        user.refresh_jwt_ids.push(jwt_id.clone());
        let ghost pushed = user.refresh_jwt_ids@;
        let ghost user0 = user;
        proof {
            assert(pushed.skip(0) =~= pushed);
        }
        while user.refresh_jwt_ids.len() > self.max_login
            invariant
                user.user_id == user0.user_id,
                user.user_name == user0.user_name,
                user.email == user0.email,
                user.password == user0.password,
                user.status == user0.status,
                user.refresh_jwt_ids@.len() <= pushed.len(),
                user.refresh_jwt_ids@ == pushed.skip(
                    pushed.len() - user.refresh_jwt_ids@.len(),
                ),
                user.refresh_jwt_ids@.len() >= self.max_login || user.refresh_jwt_ids@.len()
                    == pushed.len(),
            decreases user.refresh_jwt_ids@.len(),
        {
            let ghost pre = user.refresh_jwt_ids@;
            user.refresh_jwt_ids.remove(0);
            proof {
                assert(user.refresh_jwt_ids@ == pre.remove(0));
                let k = pushed.len() - pre.len();
                assert(pre == pushed.skip(k as int));
                assert(pre.remove(0) =~= pushed.skip(k + 1));
            }
        }
        proof {
            let newids = user.refresh_jwt_ids@;
            if self.max_login >= 1 {
                assert(newids.len() >= 1);
                assert(newids.last() == pushed.last());
                assert(newids.last() == jwt_id);
                assert(ids0.push(newids.last()) =~= pushed);
                if pushed.len() <= self.max_login {
                    assert(newids == pushed);
                    assert(keep_last(pushed, self.max_login as int) == pushed);
                } else {
                    assert(newids.len() == self.max_login);
                    assert(keep_last(pushed, self.max_login as int) == pushed.skip(
                        pushed.len() - self.max_login,
                    ));
                    assert(newids =~= keep_last(pushed, self.max_login as int));
                }
            }
        }
        let authorities = if user.status >= 1 {
            make_authorities(user.status)
        } else {
            Vec::new()
        };
        proof {
            if user.status < 1 {
                assert(strs_bytes(Seq::<String>::empty()) =~= Seq::<Seq<u8>>::empty());
                assert(strs_bytes(authorities@) =~= status_authorities(user.status as int));
            }
        }
        let auth_token = match self.jwt_service.issue_auth_token(
            user_id.clone(),
            None,
            authorities,
        ) {
            Ok(t) => t,
            Err(e) => {
                return Err(e);
            },
        };
        let ghost uid_view = user_id@;
        let ghost jti_view = jwt_id@;
        let refresh_token = match self.jwt_service.issue_refresh_token(
            user_id,
            Some(jwt_id),
        ) {
            Ok(t) => t,
            Err(e) => {
                return Err(e);
            },
        };
        let ghost rt_not_before = refresh_token.not_before as int;
        proof {
            if self.max_login >= 1 {
                let key = encode_utf8(self.jwt_service.key@);
                assert(user.refresh_jwt_ids@.last()@ == jti_view);
                assert(0 <= rt_not_before < 1_000_000_000_000_000_000);
                assert(encode_utf8(refresh_token.token@) == token_bytes(
                    key,
                    refresh_claims_json(
                        refresh_claims_of(
                            encode_utf8(uid_view),
                            Some(encode_utf8(jti_view)),
                            rt_not_before,
                            rt_not_before + self.jwt_service.expire_time,
                            rt_not_before,
                        ),
                    ),
                ));
            }
        }
        let resp = MaaLoginResponse {
            token: auth_token.token,
            valid_before: auth_token.expires_at,
            valid_after: auth_token.not_before,
            refresh_token: refresh_token.token,
            refresh_token_valid_before: auth_token.expires_at,
            refresh_token_valid_after: auth_token.not_before,
            user_info: MaaUserInfo::of_user(&user),
        };
        Ok((resp, user))
    }
}

} // verus!
