use std::collections::HashMap;

use maa_auth_core::MaaError;
use maa_auth_core::access_limit::{AccessLimitLayer, RateDecision, get_ip_addr, rate_key};
use maa_auth_core::password::{PasswordEncoder, calibrate_cost};
use maa_auth_core::vcode::MailService;

// A tiny stand-in for the shared cache, playing its part in the
// protocols: entries are (value, ttl_seconds).
struct FakeCache {
    entries: HashMap<String, (String, u64)>,
}

impl FakeCache {
    fn new() -> Self {
        Self { entries: HashMap::new() }
    }

    fn get_u32(&self, key: &str) -> Option<u32> {
        self.entries.get(key).map(|(v, _)| v.parse().unwrap())
    }

    fn set_ex(&mut self, key: &str, value: String, ttl: u64) {
        self.entries.insert(key.to_owned(), (value, ttl));
    }

    fn set_if_not_exists_ex(&mut self, key: &str, value: String, ttl: u64) -> bool {
        if self.entries.contains_key(key) {
            false
        } else {
            self.entries.insert(key.to_owned(), (value, ttl));
            true
        }
    }

    fn delete_if_equals(&mut self, key: &str, expected: &str) -> bool {
        match self.entries.get(key) {
            Some((v, _)) if v == expected => {
                self.entries.remove(key);
                true
            },
            _ => false,
        }
    }

    fn expire(&mut self, key: &str) {
        self.entries.remove(key);
    }
}

fn drive_limiter(layer: &AccessLimitLayer, cache: &mut FakeCache, key: &str) -> bool {
    match layer.check(cache.get_u32(key)) {
        RateDecision::Deny => false,
        RateDecision::Allow { new_count, ttl_seconds } => {
            cache.set_ex(key, new_count.to_string(), ttl_seconds);
            true
        },
    }
}

#[test]
fn ten_requests_pass_the_eleventh_is_denied() {
    let layer = AccessLimitLayer::new(10, 60);
    let mut cache = FakeCache::new();
    let key = rate_key("10.0.0.1", "/arknights/level");
    for _ in 0..10 {
        assert!(drive_limiter(&layer, &mut cache, key.as_str()));
    }
    assert!(!drive_limiter(&layer, &mut cache, key.as_str()));
    // after the window's TTL expires the counter is gone and requests
    // pass again
    cache.expire(key.as_str());
    assert!(drive_limiter(&layer, &mut cache, key.as_str()));
}

#[test]
fn limiter_keys_are_per_client_and_route() {
    let layer = AccessLimitLayer::new(1, 60);
    let mut cache = FakeCache::new();
    let a = rate_key("10.0.0.1", "/x");
    let b = rate_key("10.0.0.2", "/x");
    let c = rate_key("10.0.0.1", "/y");
    assert_eq!(a, "10.0.0.1/x");
    assert!(drive_limiter(&layer, &mut cache, a.as_str()));
    assert!(!drive_limiter(&layer, &mut cache, a.as_str()));
    assert!(drive_limiter(&layer, &mut cache, b.as_str()));
    assert!(drive_limiter(&layer, &mut cache, c.as_str()));
}

#[test]
fn allowed_request_resets_the_window() {
    let layer = AccessLimitLayer::new(10, 60);
    match layer.check(Some(3)) {
        RateDecision::Allow { new_count, ttl_seconds } => {
            assert_eq!(new_count, 4);
            assert_eq!(ttl_seconds, 60);
        },
        RateDecision::Deny => panic!("expected the request to pass"),
    }
    assert!(matches!(layer.check(Some(10)), RateDecision::Deny));
    assert!(matches!(layer.check(Some(11)), RateDecision::Deny));
}

#[test]
fn client_address_prefers_forwarded_headers() {
    assert_eq!(
        get_ip_addr(Some("1.2.3.4"), Some("5.6.7.8"), None, Some("9.9.9.9".to_owned()), None),
        "1.2.3.4"
    );
    // an unusable first header falls through, case-insensitively
    assert_eq!(
        get_ip_addr(Some("UnKnOwN"), Some("5.6.7.8"), None, None, None),
        "5.6.7.8"
    );
    assert_eq!(get_ip_addr(Some(""), None, Some("7.7.7.7"), None, None), "7.7.7.7");
    // no header: the socket address
    assert_eq!(
        get_ip_addr(None, None, None, Some("9.9.9.9".to_owned()), None),
        "9.9.9.9"
    );
    // loopback is replaced by the machine's own address when known
    assert_eq!(
        get_ip_addr(None, None, None, Some("127.0.0.1".to_owned()), Some("192.168.1.5".to_owned())),
        "192.168.1.5"
    );
    assert_eq!(
        get_ip_addr(None, None, None, Some("127.0.0.1".to_owned()), None),
        "127.0.0.1"
    );
    assert_eq!(get_ip_addr(None, None, None, None, None), "");
}

#[test]
fn multi_hop_list_is_cut_at_the_first_entry() {
    assert_eq!(
        get_ip_addr(Some("203.0.113.7, 70.41.3.18, 150.172.238.178"), None, None, None, None),
        "203.0.113.7"
    );
    // even a short list is cut: the first entry is the client
    assert_eq!(get_ip_addr(Some("1.2.3.4, 5.6"), None, None, None, None), "1.2.3.4");
}

#[test]
fn second_send_within_the_guard_window_is_rejected() {
    let svc = MailService::new(300);
    let mut cache = FakeCache::new();
    let email = "a@b.com";

    let (gk, gv, gttl) = svc.send_vcode_guard(email);
    assert_eq!(gk, "HasBeenSentVCode:a@b.com");
    assert_eq!(gttl, 30);
    let created = cache.set_if_not_exists_ex(gk.as_str(), gv.to_string(), gttl);
    let issue = svc.send_vcode_issue(email, created).unwrap();
    assert_eq!(issue.code.len(), 6);
    assert!(issue.code.chars().all(|c| c.is_ascii_alphanumeric()));
    assert_eq!(issue.store_key, "vCodeEmail:a@b.com");
    assert_eq!(issue.store_value, issue.code.to_ascii_uppercase());
    assert_eq!(issue.ttl_seconds, 300);
    cache.set_ex(issue.store_key.as_str(), issue.store_value.clone(), issue.ttl_seconds);

    // a second send within window/10: the guard still exists
    let (gk2, gv2, gttl2) = svc.send_vcode_guard(email);
    let created2 = cache.set_if_not_exists_ex(gk2.as_str(), gv2.to_string(), gttl2);
    assert!(!created2);
    let r = svc.send_vcode_issue(email, created2);
    assert!(matches!(r, Err(MaaError::VCodeSentTooFrequently)));
    // and the stored code is unchanged
    assert_eq!(
        cache.entries.get("vCodeEmail:a@b.com").unwrap().0,
        issue.store_value
    );
}

#[test]
fn verify_code_succeeds_exactly_once() {
    let svc = MailService::new(300);
    let mut cache = FakeCache::new();
    let email = "a@b.com";

    let (gk, gv, gttl) = svc.send_vcode_guard(email);
    let created = cache.set_if_not_exists_ex(gk.as_str(), gv.to_string(), gttl);
    let issue = svc.send_vcode_issue(email, created).unwrap();
    cache.set_ex(issue.store_key.as_str(), issue.store_value.clone(), issue.ttl_seconds);

    // the candidate is compared upper-cased, so the code as mailed
    // (mixed case) is accepted
    let (vk, vv) = svc.verify_vcode_request(email, issue.code.as_str());
    assert_eq!(vk, "vCodeEmail:a@b.com");
    let deleted = cache.delete_if_equals(vk.as_str(), vv.as_str());
    assert!(svc.verify_vcode_outcome(deleted).is_ok());

    // an immediate repeat finds nothing: the code was consumed
    let (vk2, vv2) = svc.verify_vcode_request(email, issue.code.as_str());
    let deleted2 = cache.delete_if_equals(vk2.as_str(), vv2.as_str());
    let r = svc.verify_vcode_outcome(deleted2);
    assert!(matches!(r, Err(MaaError::VCodeNotMatch)));
}

#[test]
fn wrong_code_does_not_consume_the_stored_one() {
    let svc = MailService::new(300);
    let mut cache = FakeCache::new();
    let email = "a@b.com";
    let (gk, gv, gttl) = svc.send_vcode_guard(email);
    let created = cache.set_if_not_exists_ex(gk.as_str(), gv.to_string(), gttl);
    let issue = svc.send_vcode_issue(email, created).unwrap();
    cache.set_ex(issue.store_key.as_str(), issue.store_value.clone(), issue.ttl_seconds);

    let (_, upper) = svc.verify_vcode_request(email, "abc123");
    assert_eq!(upper, "ABC123");
    let (vk, vv) = svc.verify_vcode_request(email, "zzzzzz");
    let deleted = cache.delete_if_equals(vk.as_str(), vv.as_str());
    assert!(matches!(svc.verify_vcode_outcome(deleted), Err(MaaError::VCodeNotMatch)));
    // the right code still works afterwards
    let (vk2, vv2) = svc.verify_vcode_request(email, issue.code.as_str());
    let deleted2 = cache.delete_if_equals(vk2.as_str(), vv2.as_str());
    assert!(svc.verify_vcode_outcome(deleted2).is_ok());
}

#[test]
fn password_encoder_accepts_only_its_own_hash() {
    let encoder = PasswordEncoder { cost: 4 };
    let hash = encoder.encode("p4ssw0rd").unwrap();
    assert!(encoder.matches("p4ssw0rd", hash.as_str()).unwrap());
    assert!(!encoder.matches("p4ssw0rd2", hash.as_str()).unwrap());
    assert!(!encoder.matches("", hash.as_str()).unwrap());
    // two hashes of the same password differ (fresh salts) but both match
    let hash2 = encoder.encode("p4ssw0rd").unwrap();
    assert_ne!(hash, hash2);
    assert!(encoder.matches("p4ssw0rd", hash2.as_str()).unwrap());
    // a malformed hash is an error, not a mismatch
    assert!(matches!(
        encoder.matches("p4ssw0rd", "not-a-hash"),
        Err(maa_auth_core::MaaError::BcryptError)
    ));
}

#[test]
fn calibration_stops_at_the_target_or_the_ceiling() {
    let (cost, durations) = calibrate_cost().unwrap();
    assert!((4..=31).contains(&cost));
    assert_eq!(durations.len() as u32, cost - 3);
    for d in &durations[..durations.len() - 1] {
        assert!(*d <= 1000);
    }
    let last = durations[durations.len() - 1];
    assert!(last > 1000 || cost == 31);
}
