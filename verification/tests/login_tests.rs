use maa_auth_core::MaaError;
use maa_auth_core::jwt::JwtService;
use maa_auth_core::password::PasswordEncoder;
use maa_auth_core::user::{LoginRequest, MaaUser, UserService};

fn test_user(hash: String, status: i32) -> MaaUser {
    MaaUser {
        user_id: Some("id-42".to_owned()),
        user_name: "tester".to_owned(),
        email: "tester@example.com".to_owned(),
        password: hash,
        status,
        refresh_jwt_ids: Vec::new(),
    }
}

fn service(max_login: usize) -> UserService {
    // the minimum bcrypt cost keeps the tests fast; calibration is
    // exercised separately
    let encoder = PasswordEncoder { cost: 4 };
    let jwt = JwtService::new("login-test-key".to_owned(), 3600);
    UserService::new(encoder, jwt, max_login)
}

fn login_req(email: &str, password: &str) -> LoginRequest {
    LoginRequest { email: email.to_owned(), password: password.to_owned() }
}

#[test]
fn unknown_email_fails_login() {
    let svc = service(1);
    let r = svc.login(login_req("tester@example.com", "pw"), None);
    assert!(matches!(r, Err(MaaError::LoginFail)));
}

#[test]
fn wrong_password_fails_like_unknown_email() {
    let svc = service(1);
    let hash = svc.password_encoder.encode("right-password").unwrap();
    let user = test_user(hash, 1);
    let r = svc.login(login_req("tester@example.com", "wrong-password"), Some(user));
    assert!(matches!(r, Err(MaaError::LoginFail)));
}

#[test]
fn disabled_user_is_reported() {
    let svc = service(1);
    let hash = svc.password_encoder.encode("right-password").unwrap();
    let user = test_user(hash, 0);
    let r = svc.login(login_req("tester@example.com", "right-password"), Some(user));
    assert!(matches!(r, Err(MaaError::UserNotEnabled)));
}

#[test]
fn user_without_id_is_reported() {
    let svc = service(1);
    let hash = svc.password_encoder.encode("right-password").unwrap();
    let mut user = test_user(hash, 1);
    user.user_id = None;
    let r = svc.login(login_req("tester@example.com", "right-password"), Some(user));
    assert!(matches!(r, Err(MaaError::NoneUserId)));
}

#[test]
fn invalid_fields_are_aggregated() {
    let svc = service(1);
    let r = svc.login(login_req("not-an-email", ""), None);
    match r {
        Err(MaaError::ValidationError(fe)) => {
            assert_eq!(fe.len(), 2);
            assert_eq!(fe[0].field, "email");
            assert_eq!(fe[0].message, "邮箱格式错误");
            assert_eq!(fe[1].field, "password");
            assert_eq!(fe[1].message, "请输入用户密码");
        },
        _ => panic!("expected a validation error"),
    }
    let e = MaaError::ValidationError(vec![]);
    assert_eq!(e.status_code(), 400);
}

#[test]
fn successful_login_issues_verifiable_tokens() {
    let svc = service(3);
    let hash = svc.password_encoder.encode("right-password").unwrap();
    let user = test_user(hash, 2);
    let (resp, updated) = svc
        .login(login_req("tester@example.com", "right-password"), Some(user))
        .unwrap();
    assert_eq!(updated.refresh_jwt_ids.len(), 1);
    assert_eq!(resp.user_info.id, "id-42");
    assert_eq!(resp.user_info.user_name, "tester");
    assert!(!resp.user_info.activated, "status 2 is enabled but not exactly 1");
    assert_eq!(resp.valid_before, resp.valid_after + 3600);
    assert_eq!(resp.refresh_token_valid_before, resp.valid_before);

    let claims = svc
        .jwt_service
        .verify_and_parse_auth_token(resp.token.as_str())
        .unwrap();
    assert_eq!(claims.sub, "id-42");
    assert_eq!(claims.auth, vec!["0".to_owned(), "1".to_owned()]);

    let rclaims = svc
        .jwt_service
        .verify_and_parse_refresh_token(resp.refresh_token.as_str())
        .unwrap();
    assert_eq!(rclaims.sub, "id-42");
    // the refresh token carries the session id that was appended
    assert_eq!(rclaims.jti.as_deref(), Some(updated.refresh_jwt_ids[0].as_str()));
}

#[test]
fn session_list_is_truncated_at_the_cap() {
    let svc = service(1);
    let hash = svc.password_encoder.encode("right-password").unwrap();
    let mut user = test_user(hash, 1);
    for _ in 0..3 {
        let (_, updated) = svc
            .login(
                login_req("tester@example.com", "right-password"),
                Some(user),
            )
            .unwrap();
        assert_eq!(updated.refresh_jwt_ids.len(), 1);
        user = updated;
    }
}

#[test]
fn session_list_keeps_newest_and_evicts_oldest() {
    let svc = service(2);
    let hash = svc.password_encoder.encode("right-password").unwrap();
    let mut user = test_user(hash, 1);
    user.refresh_jwt_ids = vec!["old-a".to_owned(), "old-b".to_owned()];
    let (_, updated) = svc
        .login(login_req("tester@example.com", "right-password"), Some(user))
        .unwrap();
    assert_eq!(updated.refresh_jwt_ids.len(), 2);
    // the oldest was evicted, the next-oldest kept, the new one appended
    assert_eq!(updated.refresh_jwt_ids[0], "old-b");
    assert_ne!(updated.refresh_jwt_ids[1], "old-b");
    assert_eq!(updated.refresh_jwt_ids[1].len(), 36);
}

#[test]
fn login_accepts_a_non_ascii_user_id() {
    let svc = service(1);
    let hash = svc.password_encoder.encode("right-password").unwrap();
    let mut user = test_user(hash, 1);
    user.user_id = Some("用户-42".to_owned());
    let (resp, _) = svc
        .login(login_req("tester@example.com", "right-password"), Some(user))
        .unwrap();
    let claims = svc
        .jwt_service
        .verify_and_parse_auth_token(resp.token.as_str())
        .unwrap();
    assert_eq!(claims.sub, "用户-42");
}

#[test]
fn unknown_user_placeholder() {
    let u = MaaUser::unknown();
    assert!(u.user_id.is_none());
    assert_eq!(u.user_name, "未知用户:(");
    assert_eq!(u.email, "unknown@unkown.unkown");
    assert_eq!(u.password, "unknown");
    assert_eq!(u.status, 0);
    assert!(u.refresh_jwt_ids.is_empty());
}

#[test]
fn error_statuses_and_messages() {
    assert_eq!(MaaError::LoginFail.status_code(), 401);
    assert_eq!(MaaError::UserNotEnabled.status_code(), 10003);
    assert_eq!(MaaError::NoneUserId.status_code(), 400);
    assert_eq!(MaaError::VCodeSentTooFrequently.status_code(), 403);
    assert_eq!(MaaError::VCodeNotMatch.status_code(), 401);
    assert_eq!(MaaError::RegistrationUserExist.status_code(), 10004);
    assert_eq!(MaaError::JwtVerifyFailed.status_code(), 500);
    assert_eq!(MaaError::RedisError.status_code(), 500);

    assert_eq!(MaaError::LoginFail.message(), "用户不存在或密码错误");
    assert_eq!(MaaError::UserNotEnabled.message(), "用户未启用");
    assert_eq!(MaaError::VCodeNotMatch.message(), "验证码不匹配");
    assert_eq!(MaaError::RedisError.message(), "");
    let e = MaaError::ValidationError(vec![maa_auth_core::FieldError {
        field: "email".to_owned(),
        message: "bad".to_owned(),
    }]);
    assert_eq!(e.message(), "email: bad\n");
}
