use rust_ssh::crypto::{hash_password, verify_password, DIGEST_PREFIX};
use rust_ssh::network::get_address;

#[test]
fn test_hash_password() {
    let password = "password123";
    let hash = hash_password(password);
    assert!(verify_password(password, &hash));
}

#[test]
fn digest_rejects_another_password_and_is_salted() {
    let hash = hash_password("password123");
    assert_ne!(hash, "password123");
    assert!(hash.starts_with(DIGEST_PREFIX));
    assert!(!verify_password("password124", &hash));
    let again = hash_password("password123");
    assert_ne!(hash, again);
}

#[test]
fn a_malformed_digest_accepts_nothing() {
    assert!(!verify_password("x", "not a phc string"));
    assert!(!verify_password("", ""));
}

#[test]
fn server_address() {
    assert_eq!(get_address(), "127.0.0.1:9999");
}

#[test]
fn digests_with_other_parameters_are_refused() {
    let hash = hash_password("pw");
    let tail = &hash[DIGEST_PREFIX.len()..];
    let huge_lanes = format!("$argon2id$v=19$m=19456,t=2,p=536870912${}", tail);
    assert!(!verify_password("pw", &huge_lanes));
    let long_run = format!("$argon2id$v=19$m=19456,t=4294967295,p=1${}", tail);
    assert!(!verify_password("pw", &long_run));
    assert!(verify_password("pw", &hash));
}
