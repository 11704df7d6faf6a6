use maa_auth_core::jwt::JwtService;

fn service() -> JwtService {
    JwtService::new("test-secret-key".to_owned(), 3600)
}

#[test]
fn auth_round_trip_preserves_claims() {
    let svc = service();
    let auths = vec!["0".to_owned(), "1".to_owned()];
    let t = svc
        .issue_auth_token("user-1".to_owned(), None, auths.clone())
        .unwrap();
    let claims = svc.verify_and_parse_auth_token(t.token.as_str()).unwrap();
    assert_eq!(claims.sub, "user-1");
    assert_eq!(claims.auth, auths);
    assert_eq!(claims.jti, None);
    assert_eq!(claims.typ, "auth");
    assert_eq!(claims.exp, claims.iat + 3600);
    assert_eq!(claims.iat, t.not_before);
    assert_eq!(claims.exp, t.expires_at);
    assert_eq!(claims.nbf, claims.iat);
}

#[test]
fn auth_round_trip_at_fixed_time() {
    let svc = service();
    let t = svc
        .issue_auth_at("subject", Some("session-9"), &vec!["0".to_owned()], 5_000)
        .unwrap();
    assert_eq!(t.not_before, 5_000);
    assert_eq!(t.expires_at, 8_600);
    let claims = svc.verify_auth_at(t.token.as_str(), 6_000).unwrap();
    assert_eq!(claims.sub, "subject");
    assert_eq!(claims.jti.as_deref(), Some("session-9"));
    assert_eq!(claims.iat, 5_000);
    assert_eq!(claims.exp, 8_600);
}

#[test]
fn expired_token_is_rejected() {
    let svc = service();
    let t = svc
        .issue_auth_at("subject", None, &Vec::new(), 5_000)
        .unwrap();
    // at the expiry instant the token is no longer valid
    assert!(svc.verify_auth_at(t.token.as_str(), 8_600).is_err());
    // before the window opens it is not valid either
    assert!(svc.verify_auth_at(t.token.as_str(), 4_999).is_err());
    // inside the window it is
    assert!(svc.verify_auth_at(t.token.as_str(), 8_599).is_ok());
}

#[test]
fn tampered_token_is_rejected() {
    let svc = service();
    let t = svc
        .issue_auth_at("subject", None, &Vec::new(), 5_000)
        .unwrap();
    let mut s = t.token.clone();
    // flip the last character of the signature
    let last = s.pop().unwrap();
    s.push(if last == 'A' { 'B' } else { 'A' });
    assert!(matches!(
        svc.verify_auth_at(s.as_str(), 6_000),
        Err(maa_auth_core::MaaError::JwtVerifyFailed)
    ));
    assert!(matches!(
        svc.verify_auth_at("not-a-token", 6_000),
        Err(maa_auth_core::MaaError::JwtVerifyFailed)
    ));
    assert!(svc.verify_auth_at("", 6_000).is_err());
}

#[test]
fn wrong_key_is_rejected() {
    let svc = service();
    let other = JwtService::new("another-key".to_owned(), 3600);
    let t = svc
        .issue_auth_at("subject", None, &Vec::new(), 5_000)
        .unwrap();
    assert!(other.verify_auth_at(t.token.as_str(), 6_000).is_err());
}

#[test]
fn refresh_round_trip_preserves_claims() {
    let svc = service();
    let t = svc
        .issue_refresh_at("user-2", Some("sess-1"), 5_000)
        .unwrap();
    let claims = svc.verify_refresh_at(t.token.as_str(), 6_000).unwrap();
    assert_eq!(claims.sub, "user-2");
    assert_eq!(claims.jti.as_deref(), Some("sess-1"));
    assert_eq!(claims.typ, "refresh");
    assert_eq!(claims.iat, 5_000);
    assert_eq!(claims.exp, 8_600);
}

#[test]
fn auth_token_is_not_a_refresh_token() {
    let svc = service();
    let t = svc
        .issue_auth_at("subject", None, &Vec::new(), 5_000)
        .unwrap();
    assert!(svc.verify_refresh_at(t.token.as_str(), 6_000).is_err());
    let rt = svc.issue_refresh_at("subject", None, 5_000).unwrap();
    assert!(svc.verify_auth_at(rt.token.as_str(), 6_000).is_err());
}

#[test]
fn rotation_preserves_expiry() {
    let svc = service();
    let rt = svc
        .issue_refresh_at("user-3", Some("old-session"), 1_000)
        .unwrap();
    let old_claims = svc.verify_refresh_at(rt.token.as_str(), 1_500).unwrap();
    assert_eq!(old_claims.exp, 4_600);
    let rotated = svc
        .rotate_refresh_at(&old_claims, Some("new-session"), 2_000)
        .unwrap();
    // the absolute ceiling is kept, the window start moves
    assert_eq!(rotated.expires_at, 4_600);
    assert_eq!(rotated.not_before, 2_000);
    let new_claims = svc.verify_refresh_at(rotated.token.as_str(), 2_500).unwrap();
    assert_eq!(new_claims.exp, old_claims.exp);
    assert_eq!(new_claims.sub, old_claims.sub);
    assert_eq!(new_claims.jti.as_deref(), Some("new-session"));
    assert_ne!(new_claims.iat, old_claims.iat);
    assert_ne!(new_claims.nbf, old_claims.nbf);
}

#[test]
fn rotation_with_clock_reading() {
    let svc = service();
    let rt = svc
        .issue_refresh_token("user-4".to_owned(), Some("a".to_owned()))
        .unwrap();
    let old_claims = svc
        .verify_and_parse_refresh_token(rt.token.as_str())
        .unwrap();
    let rotated = svc
        .new_refresh_token(old_claims, Some("b".to_owned()))
        .unwrap();
    assert_eq!(rotated.expires_at, rt.expires_at);
}

#[test]
fn exotic_claim_strings_round_trip() {
    let svc = service();
    for sub in [
        "has\"quote",
        "back\\slash",
        "line\nbreak\tand\u{0} nul",
        "中文用户名",
        "emoji \u{1F600} id",
        "",
    ] {
        let auths = vec!["a\"b".to_owned(), "c\\d".to_owned(), "号".to_owned()];
        let t = svc
            .issue_auth_at(sub, Some("j\"t\\i"), &auths, 5_000)
            .unwrap();
        let claims = svc.verify_auth_at(t.token.as_str(), 6_000).unwrap();
        assert_eq!(claims.sub, sub);
        assert_eq!(claims.jti.as_deref(), Some("j\"t\\i"));
        assert_eq!(claims.auth, auths);
    }
}

#[test]
fn issuance_fails_only_on_clock_range() {
    let svc = service();
    assert!(svc.issue_auth_at("s", None, &Vec::new(), -1).is_err());
    assert!(svc
        .issue_auth_at("s", None, &Vec::new(), 1_000_000_000_000_000_000 - 1)
        .is_err());
    assert!(svc.issue_auth_at("s", None, &Vec::new(), 0).is_ok());
}
