use authkit::auth::{create_token, create_token_at, verify_token, verify_token_at, AuthError};

const SECRET: &[u8] = b"your-secret-key";

#[test]
fn test_token_creation_and_verification() {
    let user_id = "test_user";
    let token = create_token(SECRET, user_id).unwrap();
    let claims = verify_token(SECRET, &token).unwrap();
    assert_eq!(claims.sub, user_id);
}

#[test]
fn token_round_trip_with_fixed_clock() {
    let token = create_token_at(SECRET, "alice", 1000).unwrap();
    let claims = verify_token_at(SECRET, &token, 1000).unwrap();
    assert_eq!(claims.sub, "alice");
    assert_eq!(claims.iat, 1000);
    assert_eq!(claims.exp, 1000 + 86400);
    // still valid at the very last second of the window
    assert!(verify_token_at(SECRET, &token, 1000 + 86400).is_ok());
}

#[test]
fn expired_token_is_rejected() {
    let token = create_token_at(SECRET, "alice", 1000).unwrap();
    let r = verify_token_at(SECRET, &token, 1000 + 86400 + 1);
    assert_eq!(r.unwrap_err(), AuthError::Expired);
}

#[test]
fn tampered_signature_is_rejected() {
    let token = create_token_at(SECRET, "alice", 1000).unwrap();
    let last = token.chars().last().unwrap();
    let flipped = if last == '0' { '1' } else { '0' };
    let mut forged: String = token[..token.len() - 1].to_string();
    forged.push(flipped);
    let r = verify_token_at(SECRET, &forged, 1000);
    assert_eq!(r.unwrap_err(), AuthError::InvalidSignature);
}

#[test]
fn tampered_claims_are_rejected() {
    // a token claiming a later expiry but carrying the old signature
    let token = create_token_at(SECRET, "alice", 1000).unwrap();
    let forged = token.replacen("1000.", "2000.", 1);
    assert_ne!(forged, token);
    let r = verify_token_at(SECRET, &forged, 1000);
    assert_eq!(r.unwrap_err(), AuthError::InvalidSignature);
}

#[test]
fn wrong_key_is_rejected() {
    let token = create_token_at(SECRET, "alice", 1000).unwrap();
    let r = verify_token_at(b"another-key", &token, 1000);
    assert_eq!(r.unwrap_err(), AuthError::InvalidSignature);
}

#[test]
fn garbage_tokens_are_malformed() {
    assert_eq!(verify_token(SECRET, "").unwrap_err(), AuthError::Malformed);
    assert_eq!(verify_token(SECRET, "abc").unwrap_err(), AuthError::Malformed);
    let no_digits = format!("x.y.z.{}", "ab".repeat(32));
    assert_eq!(verify_token_at(SECRET, &no_digits, 0), Err(AuthError::InvalidSignature));
}

#[test]
fn unicode_subject_round_trip() {
    let token = create_token_at(SECRET, "zo\u{EB} \u{65E5}", 1000).unwrap();
    let claims = verify_token_at(SECRET, &token, 2000).unwrap();
    assert_eq!(claims.sub, "zo\u{EB} \u{65E5}");
}

#[test]
fn empty_subject_is_refused() {
    assert_eq!(create_token(SECRET, ""), Err(AuthError::Malformed));
}

#[test]
fn token_signature_matches_the_hmac_crate() {
    // the tag embedded in a token is the real HMAC-SHA-256 of the claim text
    let token = create_token_at(SECRET, "alice", 1000).unwrap();
    let claims_text = &token[..token.len() - 65];
    assert_eq!(claims_text, "1000.87400.alice");
    let mut mac =
        <hmac::Hmac<sha2::Sha256> as hmac::KeyInit>::new_from_slice(SECRET).unwrap();
    hmac::Mac::update(&mut mac, claims_text.as_bytes());
    let tag = hmac::Mac::finalize(mac).into_bytes();
    let hex: String = tag.iter().map(|b| format!("{:02x}", b)).collect();
    assert_eq!(&token[token.len() - 64..], hex);
}
