//! Exercises the identity core end to end: the credential store with
//! its lockout policy, the token service round trip, the session
//! registry with the hijack defense, the rate limiter, and the access
//! evaluator.

use identity_core::access::AccessControl;
use identity_core::credentials::AuthDB;
use identity_core::credentials::AuthError;
use identity_core::crypto::secure_random_256;
use identity_core::ratelimit::RateLimiter;
use identity_core::session::SessionError;
use identity_core::session::SessionStore;
use identity_core::token::TokenError;
use identity_core::token::TokenService;

#[test]
fn register_rejects_duplicate_identity() {
    let mut db = AuthDB::new();
    assert!(db.register("alice", "Secr3t!", "user").is_ok());
    assert_eq!(
        db.register("alice", "other", "admin"),
        Err(AuthError::DuplicateIdentity)
    );
}

#[test]
fn authenticate_unknown_user_is_invalid_credentials() {
    let mut db = AuthDB::new();
    assert_eq!(
        db.authenticate("nobody", "pw", 0).err(),
        Some(AuthError::InvalidCredentials)
    );
}

#[test]
fn lockout_after_five_wrong_attempts() {
    let mut db = AuthDB::new();
    db.register("alice", "Secr3t!", "user").unwrap();
    for _ in 0..4 {
        assert_eq!(
            db.authenticate("alice", "wrong", 10).err(),
            Some(AuthError::InvalidCredentials)
        );
        assert!(!db.lookup("alice").unwrap().is_locked);
    }
    // the fifth wrong attempt brings the counter to the maximum and locks
    assert_eq!(
        db.authenticate("alice", "wrong", 10).err(),
        Some(AuthError::InvalidCredentials)
    );
    assert!(db.lookup("alice").unwrap().is_locked);
    // the lock persists: even the correct password is refused now
    assert_eq!(
        db.authenticate("alice", "Secr3t!", 11).err(),
        Some(AuthError::AccountLocked)
    );
}

#[test]
fn successful_login_resets_failed_counter() {
    let mut db = AuthDB::new();
    db.register("bob", "hunter2!", "user").unwrap();
    db.authenticate("bob", "wrong", 5).ok();
    db.authenticate("bob", "wrong", 6).ok();
    assert_eq!(db.lookup("bob").unwrap().failed_attempts, 2);
    let id = db.authenticate("bob", "hunter2!", 7).unwrap();
    assert_eq!(id.username, "bob");
    assert_eq!(id.role, "user");
    assert_eq!(db.lookup("bob").unwrap().failed_attempts, 0);
}

#[test]
fn token_round_trip_returns_subject() {
    let svc = TokenService::new(secure_random_256());
    let token = svc.issue("alice", 1_000_000);
    assert_eq!(svc.verify(&token, 1_000_000).unwrap(), "alice");
    // still valid at the embedded expiry itself
    assert_eq!(svc.verify(&token, 1_003_600).unwrap(), "alice");
}

#[test]
fn token_shape_is_two_dot_separated_fields() {
    let svc = TokenService::new(secure_random_256());
    let token = svc.issue("alice", 42);
    let parts: Vec<&str> = token.split('.').collect();
    assert_eq!(parts.len(), 2);
}

#[test]
fn expired_token_is_rejected_even_with_valid_signature() {
    let svc = TokenService::new(secure_random_256());
    let token = svc.issue("alice", 1_000_000);
    assert_eq!(
        svc.verify(&token, 1_003_601).err(),
        Some(TokenError::Expired)
    );
}

#[test]
fn token_from_another_key_is_a_bad_signature() {
    let a = TokenService::new(vec![1, 2, 3, 4]);
    let b = TokenService::new(vec![5, 6, 7, 8]);
    let token = a.issue("alice", 50);
    assert_eq!(b.verify(&token, 50).err(), Some(TokenError::BadSignature));
}

#[test]
fn garbage_token_is_malformed() {
    let svc = TokenService::new(secure_random_256());
    assert_eq!(
        svc.verify("no dots here", 0).err(),
        Some(TokenError::MalformedToken)
    );
    assert_eq!(
        svc.verify("two.parts", 0).err(),
        Some(TokenError::MalformedToken)
    );
}

#[test]
fn session_validates_from_issuing_ip_only() {
    let mut store = SessionStore::new(secure_random_256());
    let token = store.create_session("bob", "10.0.0.5", 500);
    assert_eq!(
        store.validate_session(&token, "10.0.0.9", 501).err(),
        Some(SessionError::IpMismatch)
    );
    assert_eq!(store.validate_session(&token, "10.0.0.5", 501).unwrap(), "bob");
}

#[test]
fn session_token_carries_payload_and_hex_tag() {
    let mut store = SessionStore::new(secure_random_256());
    let token = store.create_session("bob", "10.0.0.5", 500);
    let dot = token.rfind('.').unwrap();
    assert_eq!(&token[..8], "{\"sub\":\"");
    assert_eq!(token.len() - dot - 1, 64);
}

#[test]
fn revoked_session_is_unknown() {
    let mut store = SessionStore::new(secure_random_256());
    let token = store.create_session("bob", "10.0.0.5", 500);
    store.revoke_session(&token);
    assert_eq!(
        store.validate_session(&token, "10.0.0.5", 501).err(),
        Some(SessionError::UnknownSession)
    );
    // revoking again is not an error
    store.revoke_session(&token);
}

#[test]
fn session_expires_with_its_token() {
    let mut store = SessionStore::new(secure_random_256());
    let token = store.create_session("bob", "10.0.0.5", 500);
    assert_eq!(
        store.validate_session(&token, "10.0.0.5", 500 + 3601).err(),
        Some(SessionError::Expired)
    );
}

#[test]
fn foreign_session_token_fails() {
    let key = secure_random_256();
    let mut minted = SessionStore::new(key.clone());
    let other = SessionStore::new(key);
    let token = minted.create_session("bob", "10.0.0.5", 500);
    assert_eq!(
        other.validate_session(&token, "10.0.0.5", 501).err(),
        Some(SessionError::UnknownSession)
    );
    let stranger = SessionStore::new(vec![9, 9, 9, 9]);
    assert_eq!(
        stranger.validate_session(&token, "10.0.0.5", 501).err(),
        Some(SessionError::BadSignature)
    );
}

#[test]
fn verify_session_is_the_boolean_face() {
    let mut store = SessionStore::new(secure_random_256());
    let token = store.create_session("carol", "192.168.1.1", 700);
    assert!(store.verify_session(&token, "192.168.1.1", 701));
    assert!(!store.verify_session(&token, "10.0.0.1", 701));
    assert!(!store.verify_session("garbage", "192.168.1.1", 701));
}

#[test]
fn burst_of_105_calls_allows_exactly_first_50() {
    let mut limiter = RateLimiter::new();
    let t = 1_000;
    let mut outcomes: Vec<bool> = Vec::new();
    for _ in 0..105 {
        outcomes.push(limiter.allow_request("192.168.1.1", t));
    }
    assert!(outcomes[..50].iter().all(|&b| b));
    assert!(outcomes[50..].iter().all(|&b| !b));
    let entry = limiter.entry("192.168.1.1").unwrap();
    assert!(entry.blocked);
    assert_eq!(entry.block_start, t);
}

#[test]
fn block_lasts_the_configured_duration() {
    let mut limiter = RateLimiter::new();
    let t = 1_000;
    for _ in 0..101 {
        limiter.allow_request("10.1.1.1", t);
    }
    assert!(limiter.entry("10.1.1.1").unwrap().blocked);
    // still blocked one second before the block elapses
    assert!(!limiter.allow_request("10.1.1.1", t + 299));
    // once the block has elapsed the window restarts and requests flow
    assert!(limiter.allow_request("10.1.1.1", t + 300));
}

#[test]
fn window_elapse_resets_the_counter() {
    let mut limiter = RateLimiter::new();
    let t = 1_000;
    for _ in 0..50 {
        assert!(limiter.allow_request("10.2.2.2", t));
    }
    assert!(!limiter.allow_request("10.2.2.2", t + 30));
    assert!(limiter.allow_request("10.2.2.2", t + 61));
}

#[test]
fn distinct_identifiers_are_throttled_separately() {
    let mut limiter = RateLimiter::new();
    for _ in 0..51 {
        limiter.allow_request("first", 7);
    }
    assert!(!limiter.allow_request("first", 7));
    assert!(limiter.allow_request("second", 7));
}

#[test]
fn admin_with_all_token_is_permitted_everything() {
    let ac = AccessControl::new();
    assert!(ac.has_permission("admin", "READ"));
    assert!(ac.has_permission("admin", "WRITE"));
    assert!(ac.has_permission("admin", "ANYTHING_AT_ALL"));
    assert!(ac.is_permitted("admin", "DELETE"));
}

#[test]
fn guest_with_read_only_cannot_write() {
    let ac = AccessControl::new();
    assert!(ac.has_permission("guest", "READ"));
    assert!(!ac.has_permission("guest", "WRITE"));
    assert!(ac.has_permission("user", "WRITE"));
}

#[test]
fn unknown_role_fails_closed() {
    let ac = AccessControl::new();
    assert!(!ac.has_permission("intruder", "READ"));
    assert!(!ac.is_permitted("", "READ"));
}

#[test]
fn route_access_has_no_catch_all() {
    let ac = AccessControl::new();
    assert!(ac.is_allowed("admin", "/admin"));
    assert!(ac.is_allowed("admin", "/logs"));
    assert!(!ac.is_allowed("admin", "/profile"));
    assert!(ac.is_allowed("user", "/dashboard"));
    assert!(!ac.is_allowed("guest", "/admin"));
}

#[test]
fn administrative_role_update_takes_effect() {
    let mut ac = AccessControl::new();
    ac.set_role("auditor", vec!["READ".to_owned(), "AUDIT".to_owned()]);
    assert!(ac.has_permission("auditor", "AUDIT"));
    assert!(!ac.has_permission("auditor", "WRITE"));
}
