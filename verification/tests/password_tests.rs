use authkit::password::{hash_password, validate_password, verify_password, PasswordError,
    PolicyViolation};

#[test]
fn test_password_hash_and_verify() {
    let password = "TestPassword123!";
    let hash = hash_password(password).unwrap();
    assert!(verify_password(password, &hash).unwrap());
    assert!(!verify_password("wrong_password", &hash).unwrap());
}

#[test]
fn test_password_validation() {
    assert!(validate_password("TestPassword123!").is_ok());
    assert!(validate_password("short").is_err());
    assert!(validate_password("nocapital123!").is_err());
    assert!(validate_password("NOCAPS123!").is_err());
    assert!(validate_password("NoSpecial123").is_err());
    assert!(validate_password("NoNumbers!").is_err());
}

#[test]
fn each_rule_violation_is_named() {
    assert!(matches!(validate_password("short"), Err(PolicyViolation::TooShort)));
    assert!(matches!(validate_password(""), Err(PolicyViolation::TooShort)));
    assert!(matches!(
        validate_password("nocapital123!"),
        Err(PolicyViolation::MissingUppercase)
    ));
    assert!(matches!(
        validate_password("NOCAPS123!"),
        Err(PolicyViolation::MissingLowercase)
    ));
    assert!(matches!(validate_password("NoNumbers!"), Err(PolicyViolation::MissingDigit)));
    assert!(matches!(
        validate_password("NoSpecial123"),
        Err(PolicyViolation::MissingSpecial)
    ));
    assert!(validate_password("Aa1!Aa1!").is_ok());
}

#[test]
fn policy_counts_unicode_classes() {
    // a non-ASCII uppercase letter satisfies the uppercase rule
    assert!(validate_password("\u{C4}abcdef1!").is_ok());
    // a non-ASCII letter is alphanumeric, so it is no special character
    assert!(matches!(
        validate_password("Abcdefg1\u{E9}"),
        Err(PolicyViolation::MissingSpecial)
    ));
}

#[test]
fn distinct_salts_still_verify() {
    let password = "TestPassword123!";
    let first = hash_password(password).unwrap();
    let second = hash_password(password).unwrap();
    assert_ne!(first, second);
    assert!(verify_password(password, &first).unwrap());
    assert!(verify_password(password, &second).unwrap());
}

#[test]
fn malformed_record_is_an_error_not_a_mismatch() {
    let r = verify_password("TestPassword123!", "not-a-phc-record");
    assert!(matches!(r, Err(PasswordError::VerificationError(_))));
}
