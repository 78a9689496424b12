use vstd::prelude::*;
use vstd::string::StrSliceExecFns;

use argon2::PasswordHasher;
use argon2::PasswordVerifier;

verus! {

/// The one complexity rule a password broke, reported to the end user as
/// guidance. The rules are checked in this order and the first violation
/// wins.
#[derive(Debug, Clone, Copy, PartialEq, Eq, Structural)]
pub enum PolicyViolation {
    /// Fewer than eight characters.
    TooShort,
    /// No uppercase letter.
    MissingUppercase,
    /// No lowercase letter.
    MissingLowercase,
    /// No decimal digit.
    MissingDigit,
    /// No character that is neither a letter nor a digit.
    MissingSpecial,
}

/// Why hashing or verifying a password failed; a mismatch is not an error.
#[derive(Debug, PartialEq, Eq)]
pub enum PasswordError {
    /// The hashing primitive rejected its parameters or failed internally.
    HashingError(String),
    /// The stored record is malformed and could not be parsed.
    VerificationError(String),
}

/// Whether `c` has the Unicode `Uppercase` property: what
/// `char::is_uppercase` returns, a fixed function of the character alone,
/// left uninterpreted here.
pub uninterp spec fn uppercase_of(c: char) -> bool;

/// Whether `c` has the Unicode `Lowercase` property: what
/// `char::is_lowercase` returns.
pub uninterp spec fn lowercase_of(c: char) -> bool;

/// Whether `c` is a Unicode letter or digit: what `char::is_alphanumeric`
/// returns.
pub uninterp spec fn alphanumeric_of(c: char) -> bool;

/// Relies on std's `char::is_uppercase`: the Unicode `Uppercase` property,
/// which in the ASCII range exactly `A`-`Z` have.
pub assume_specification[ char::is_uppercase ](c: char) -> (r: bool)
    ensures
        r == uppercase_of(c),
        (c as u32) < 128 ==> (r <==> ('A' <= c && c <= 'Z')),
;

/// Relies on std's `char::is_lowercase`: the Unicode `Lowercase` property,
/// which in the ASCII range exactly `a`-`z` have.
pub assume_specification[ char::is_lowercase ](c: char) -> (r: bool)
    ensures
        r == lowercase_of(c),
        (c as u32) < 128 ==> (r <==> ('a' <= c && c <= 'z')),
;

/// Relies on std's `char::is_alphanumeric`: a Unicode letter or digit, which
/// in the ASCII range are exactly the letters and `0`-`9`.
pub assume_specification[ char::is_alphanumeric ](c: char) -> (r: bool)
    ensures
        r == alphanumeric_of(c),
        (c as u32) < 128 ==> (r <==> ('A' <= c && c <= 'Z') || ('a' <= c && c <= 'z') || ('0' <= c
            && c <= '9')),
;

pub open spec fn is_uppercase_char(c: char) -> bool {
    uppercase_of(c)
}

pub open spec fn is_lowercase_char(c: char) -> bool {
    lowercase_of(c)
}

/// A decimal digit: `0`-`9`, as the policy counts digits.
pub open spec fn is_policy_digit(c: char) -> bool {
    '0' <= c && c <= '9'
}

/// Anything that is neither a letter nor a digit counts as special.
pub open spec fn is_special_char(c: char) -> bool {
    !alphanumeric_of(c)
}

pub open spec fn has_uppercase(s: Seq<char>) -> bool {
    exists|i: int| 0 <= i < s.len() && is_uppercase_char(#[trigger] s[i])
}

pub open spec fn has_lowercase(s: Seq<char>) -> bool {
    exists|i: int| 0 <= i < s.len() && is_lowercase_char(#[trigger] s[i])
}

pub open spec fn has_digit(s: Seq<char>) -> bool {
    exists|i: int| 0 <= i < s.len() && is_policy_digit(#[trigger] s[i])
}

pub open spec fn has_special(s: Seq<char>) -> bool {
    exists|i: int| 0 <= i < s.len() && is_special_char(#[trigger] s[i])
}

/// The whole policy: at least eight characters, one upper-case letter, one
/// lower-case letter, one digit and one special character, reported in that
/// order.
pub open spec fn spec_validate(s: Seq<char>) -> Result<(), PolicyViolation> {
    if s.len() < 8 {
        Err(PolicyViolation::TooShort)
    } else if !has_uppercase(s) {
        Err(PolicyViolation::MissingUppercase)
    } else if !has_lowercase(s) {
        Err(PolicyViolation::MissingLowercase)
    } else if !has_digit(s) {
        Err(PolicyViolation::MissingDigit)
    } else if !has_special(s) {
        Err(PolicyViolation::MissingSpecial)
    } else {
        Ok(())
    }
}

/// Checks a password against the complexity policy; pure, no side effects.
pub fn validate_password(password: &str) -> (r: Result<(), PolicyViolation>)
    ensures
        r == spec_validate(password@),
{
    let n = password.unicode_len();
    if n < 8 {
        return Err(PolicyViolation::TooShort);
    }
    let mut upper = false;
    let mut lower = false;
    let mut digit = false;
    let mut special = false;
    let mut i: usize = 0;
    while i < n
        invariant
            i <= n,
            n == password@.len(),
            upper == has_uppercase(password@.subrange(0, i as int)),
            lower == has_lowercase(password@.subrange(0, i as int)),
            digit == has_digit(password@.subrange(0, i as int)),
            special == has_special(password@.subrange(0, i as int)),
        decreases n - i,
    {
        let c = password.get_char(i);
        let u = c as u32;
        let ghost pre = password@.subrange(0, i as int);
        let ghost cur = password@.subrange(0, i as int + 1);
        let c_digit = 48 <= u && u <= 57;
        upper = upper || c.is_uppercase();
        lower = lower || c.is_lowercase();
        digit = digit || c_digit;
        special = special || !c.is_alphanumeric();
        proof {
            assert(cur.drop_last() =~= pre);
            assert(cur.last() == c);
            lemma_class_extend(pre, cur, c);
        }
        i = i + 1;
    }
    proof {
        assert(password@.subrange(0, n as int) =~= password@);
    }
    if !upper {
        Err(PolicyViolation::MissingUppercase)
    } else if !lower {
        Err(PolicyViolation::MissingLowercase)
    } else if !digit {
        Err(PolicyViolation::MissingDigit)
    } else if !special {
        Err(PolicyViolation::MissingSpecial)
    } else {
        Ok(())
    }
}

/// Extending a prefix by one character extends each "contains a character of
/// this class" fact by exactly that character's class.
proof fn lemma_class_extend(pre: Seq<char>, cur: Seq<char>, c: char)
    requires
        cur.len() == pre.len() + 1,
        cur.drop_last() == pre,
        cur.last() == c,
    ensures
        has_uppercase(cur) == (has_uppercase(pre) || is_uppercase_char(c)),
        has_lowercase(cur) == (has_lowercase(pre) || is_lowercase_char(c)),
        has_digit(cur) == (has_digit(pre) || is_policy_digit(c)),
        has_special(cur) == (has_special(pre) || is_special_char(c)),
{
    assert forall|i: int| 0 <= i < pre.len() implies cur[i] == pre[i] by {
        assert(cur.drop_last()[i] == cur[i]);
    }
    assert(cur[cur.len() - 1] == c);
    if has_uppercase(pre) {
        let i = choose|i: int| 0 <= i < pre.len() && is_uppercase_char(#[trigger] pre[i]);
        assert(is_uppercase_char(cur[i]));
    }
    if has_lowercase(pre) {
        let i = choose|i: int| 0 <= i < pre.len() && is_lowercase_char(#[trigger] pre[i]);
        assert(is_lowercase_char(cur[i]));
    }
    if has_digit(pre) {
        let i = choose|i: int| 0 <= i < pre.len() && is_policy_digit(#[trigger] pre[i]);
        assert(is_policy_digit(cur[i]));
    }
    if has_special(pre) {
        let i = choose|i: int| 0 <= i < pre.len() && is_special_char(#[trigger] pre[i]);
        assert(is_special_char(cur[i]));
    }
    if has_uppercase(cur) {
        let i = choose|i: int| 0 <= i < cur.len() && is_uppercase_char(#[trigger] cur[i]);
        assert(i < pre.len() ==> is_uppercase_char(pre[i]));
    }
    if has_lowercase(cur) {
        let i = choose|i: int| 0 <= i < cur.len() && is_lowercase_char(#[trigger] cur[i]);
        assert(i < pre.len() ==> is_lowercase_char(pre[i]));
    }
    if has_digit(cur) {
        let i = choose|i: int| 0 <= i < cur.len() && is_policy_digit(#[trigger] cur[i]);
        assert(i < pre.len() ==> is_policy_digit(pre[i]));
    }
    if has_special(cur) {
        let i = choose|i: int| 0 <= i < cur.len() && is_special_char(#[trigger] cur[i]);
        assert(i < pre.len() ==> is_special_char(pre[i]));
    }
}

/// A password passes the policy exactly when all five rules hold; each rule's
/// lone violation is reported as its own variant.
pub proof fn lemma_validate_complete(s: Seq<char>)
    ensures
        spec_validate(s) is Ok <==> (s.len() >= 8 && has_uppercase(s) && has_lowercase(s)
            && has_digit(s) && has_special(s)),
        spec_validate(s) == Err::<(), PolicyViolation>(PolicyViolation::TooShort) <==> s.len() < 8,
{
}

// ---------------------------------------------------------------------------
// Hashing and verifying, through Argon2
// ---------------------------------------------------------------------------

/// Whether the Argon2 verifier accepts `password` against the stored record
/// `record`: it re-derives the digest with the salt and parameters embedded
/// in the record and compares. A fixed function of the two arguments, left
/// uninterpreted here.
pub uninterp spec fn argon2_matches(password: Seq<char>, record: Seq<char>) -> bool;

/// Whether `record` parses as a well-formed PHC-format hash record: a fixed
/// function of the record text alone, left uninterpreted here.
pub uninterp spec fn argon2_record_ok(record: Seq<char>) -> bool;

/// Relies on the argon2 crate: `Argon2::default().hash_password` salts from
/// the operating system's random source and derives an Argon2id digest; the
/// returned PHC record parses back (`PasswordHash::new` accepts what
/// `PasswordHash` prints) and verifies against the same password.
#[verifier::external_body]
fn argon2_hash_raw(password: &str) -> (r: Result<String, String>)
    ensures
        r matches Ok(rec) ==> argon2_record_ok(rec@) && argon2_matches(password@, rec@),
{
    match argon2::Argon2::default().hash_password(password.as_bytes()) {
        Ok(hash) => Ok(hash.to_string()),
        Err(e) => Err(e.to_string()),
    }
}

/// Relies on the argon2 crate: `PasswordHash::new` parses the PHC record
/// (failing exactly on malformed records) and `verify_password` re-derives
/// the digest with the record's own salt and parameters and compares in
/// constant time; any verifier error counts as a mismatch, as wide as the
/// record still parsed.
#[verifier::external_body]
fn argon2_verify_raw(password: &str, record: &str) -> (r: Result<bool, String>)
    ensures
        r matches Ok(b) ==> argon2_record_ok(record@) && b == argon2_matches(password@, record@),
        r is Err ==> !argon2_record_ok(record@),
{
    match argon2::PasswordHash::new(record) {
        Ok(parsed) => Ok(
            argon2::Argon2::default().verify_password(password.as_bytes(), &parsed).is_ok(),
        ),
        Err(e) => Err(e.to_string()),
    }
}

/// Salts and hashes `password` with a memory-hard function under recommended
/// parameters; the record that comes back is self-describing and verifies
/// against the same password.
pub fn hash_password(password: &str) -> (r: Result<String, PasswordError>)
    ensures
        r matches Ok(rec) ==> argon2_record_ok(rec@) && argon2_matches(password@, rec@),
        r matches Err(e) ==> e matches PasswordError::HashingError(_),
{
    match argon2_hash_raw(password) {
        Ok(rec) => Ok(rec),
        Err(msg) => Err(PasswordError::HashingError(msg)),
    }
}

/// What checking a password against a stored record yields: the match
/// verdict for a well-formed record, nothing for a malformed one.
pub open spec fn spec_password_check(password: Seq<char>, record: Seq<char>) -> Option<bool> {
    if argon2_record_ok(record) {
        Some(argon2_matches(password, record))
    } else {
        None
    }
}

/// A record that came out of hashing a password — one the hasher vouches for
/// — verifies against exactly that password.
pub proof fn lemma_password_round_trip(password: Seq<char>, record: Seq<char>)
    requires
        argon2_record_ok(record),
        argon2_matches(password, record),
    ensures
        spec_password_check(password, record) == Some(true),
{
}

/// Checks `password` against a stored record. `Ok(false)` means a well-formed
/// record that simply does not match; an error comes exactly when the record
/// itself is malformed.
pub fn verify_password(password: &str, hash: &str) -> (r: Result<bool, PasswordError>)
    ensures
        r matches Ok(b) ==> spec_password_check(password@, hash@) == Some(b),
        r is Ok <==> argon2_record_ok(hash@),
        r matches Err(e) ==> e matches PasswordError::VerificationError(_),
{
    match argon2_verify_raw(password, hash) {
        Ok(b) => Ok(b),
        Err(msg) => Err(PasswordError::VerificationError(msg)),
    }
}

} // verus!
