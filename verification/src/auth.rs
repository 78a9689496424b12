use vstd::prelude::*;
use vstd::string::StrSliceExecFns;
use vstd::string::StringExecFns;

use crate::codec;
use crate::codec::{
    all_digits, all_hex, dec_chars, dec_value, find_char, hex_chars, hex_decode, is_digit_char,
    is_hex_char,
};

verus! {

/// Seconds a token stays valid after it is issued: a fixed 24-hour lifetime.
pub const TOKEN_LIFETIME_SECS: u64 = 86400;

/// The facts a signed token carries: an opaque subject identity and the
/// issue and expiry instants, in whole seconds since the Unix epoch.
#[derive(Debug, PartialEq, Eq)]
pub struct Claims {
    pub sub: String,
    pub iat: u64,
    pub exp: u64,
}

/// Why a token was not accepted. Callers must treat every variant alike as
/// "not authenticated"; only logs may distinguish them.
#[derive(Debug, Clone, Copy, PartialEq, Eq, Structural)]
pub enum AuthError {
    /// The signature does not match the claims.
    InvalidSignature,
    /// The token was valid once but its expiry instant has passed.
    Expired,
    /// The token or a stored claim set is not in the expected shape.
    Malformed,
}

/// The HMAC-SHA-256 tag of `msg` (as UTF-8) under `key`: a fixed function of
/// key and message alone, left uninterpreted here.
pub uninterp spec fn hmac_sha256_of(key: Seq<u8>, msg: Seq<char>) -> Seq<u8>;

/// Relies on the hmac and sha2 crates: `Hmac::<Sha256>` computes the RFC 2104
/// tag over the message bytes, a function of key and message alone, 32 bytes
/// long. HMAC accepts keys of any length, so `new_from_slice` always returns
/// `Ok` and the tag always comes back.
#[verifier::external_body]
fn hmac_sha256(key: &[u8], msg: &str) -> (r: Option<Vec<u8>>)
    ensures
        r is Some,
        r matches Some(m) ==> m@ == hmac_sha256_of(key@, msg@) && m@.len() == 32,
{
    match <hmac::Hmac<sha2::Sha256> as hmac::KeyInit>::new_from_slice(key) {
        Ok(mut mac) => {
            hmac::Mac::update(&mut mac, msg.as_bytes());
            Some(hmac::Mac::finalize(mac).into_bytes().to_vec())
        },
        Err(_) => None,
    }
}

/// Relies on chrono::Utc::now: the current wall-clock time, as whole seconds
/// since the Unix epoch (negative before 1970).
#[verifier::external_body]
pub(crate) fn unix_now() -> i64 {
    chrono::Utc::now().timestamp()
}

// ---------------------------------------------------------------------------
// The token wire format, as specification
// ---------------------------------------------------------------------------

/// The canonical claim encoding that is signed: `iat.exp.sub`, with both
/// instants in decimal. The subject comes last, so it may itself contain
/// separator characters.
pub open spec fn encode_claims(sub: Seq<char>, iat: u64, exp: u64) -> Seq<char> {
    dec_chars(iat as nat) + seq!['.'] + dec_chars(exp as nat) + seq!['.'] + sub
}

/// A complete token: the claim encoding, a separator, and the tag in
/// lower-case hexadecimal.
pub open spec fn token_chars(key: Seq<u8>, sub: Seq<char>, iat: u64, exp: u64) -> Seq<char> {
    encode_claims(sub, iat, exp) + seq!['.'] + hex_chars(
        hmac_sha256_of(key, encode_claims(sub, iat, exp)),
    )
}

/// Reads the claim encoding back: the issue instant, the expiry instant and
/// the subject, or `None` when the shape is wrong or a number does not fit.
pub open spec fn spec_parse_claims(s: Seq<char>) -> Option<(u64, u64, Seq<char>)> {
    let d1 = find_char(s, '.', 0);
    if d1 >= s.len() {
        None
    } else {
        let f1 = s.subrange(0, d1);
        if f1.len() == 0 || !all_digits(f1) || dec_value(f1) > u64::MAX {
            None
        } else {
            let d2 = find_char(s, '.', d1 + 1);
            if d2 >= s.len() {
                None
            } else {
                let f2 = s.subrange(d1 + 1, d2);
                if f2.len() == 0 || !all_digits(f2) || dec_value(f2) > u64::MAX {
                    None
                } else {
                    let sub = s.subrange(d2 + 1, s.len() as int);
                    if sub.len() == 0 {
                        None
                    } else {
                        Some((dec_value(f1) as u64, dec_value(f2) as u64, sub))
                    }
                }
            }
        }
    }
}

/// Whether the token text even has the shape of a token: room for a claim
/// part, a separator, and 64 hexadecimal tag digits at the end.
pub open spec fn token_shape_ok(t: Seq<char>) -> bool {
    t.len() >= 66 && all_hex(t.subrange(t.len() - 64, t.len() as int)) && t[t.len() - 65] == '.'
}

/// What verification returns for any token text and clock reading: the spec
/// of `verify_token_at`. The signature is checked before the claims are even
/// parsed; the expiry check comes last.
pub open spec fn spec_verify(key: Seq<u8>, t: Seq<char>, now: u64) -> Result<
    (Seq<char>, u64, u64),
    AuthError,
> {
    if t.len() < 66 {
        Err(AuthError::Malformed)
    } else {
        let mac_part = t.subrange(t.len() - 64, t.len() as int);
        if !all_hex(mac_part) {
            Err(AuthError::Malformed)
        } else if t[t.len() - 65] != '.' {
            Err(AuthError::Malformed)
        } else {
            let claims_part = t.subrange(0, t.len() - 65);
            if hex_decode(mac_part) != hmac_sha256_of(key, claims_part) {
                Err(AuthError::InvalidSignature)
            } else {
                match spec_parse_claims(claims_part) {
                    None => Err(AuthError::Malformed),
                    Some((iat, exp, sub)) => {
                        if exp <= iat {
                            Err(AuthError::Malformed)
                        } else if now > exp {
                            Err(AuthError::Expired)
                        } else {
                            Ok((sub, iat, exp))
                        }
                    },
                }
            }
        }
    }
}

// ---------------------------------------------------------------------------
// Issuing tokens
// ---------------------------------------------------------------------------

/// Builds and signs a token for `user_id` as of the instant `now`; the expiry
/// is a fixed 24 hours later. Signing a non-empty subject always succeeds.
pub fn create_token_at(secret: &[u8], user_id: &str, now: u64) -> (r: Result<String, AuthError>)
    requires
        user_id@.len() > 0,
        now + TOKEN_LIFETIME_SECS <= u64::MAX,
    ensures
        r is Ok,
        r matches Ok(t) ==> t@ == token_chars(
            secret@,
            user_id@,
            now,
            (now + TOKEN_LIFETIME_SECS) as u64,
        ),
        r matches Ok(t) ==> token_shape_ok(t@),
        hmac_sha256_of(
            secret@,
            encode_claims(user_id@, now, (now + TOKEN_LIFETIME_SECS) as u64),
        ).len() == 32,
{
    let exp: u64 = now + TOKEN_LIFETIME_SECS;
    let mut claims = String::new();
    codec::append_u64_dec(&mut claims, now);
    claims.append(".");
    codec::append_u64_dec(&mut claims, exp);
    claims.append(".");
    claims.append(user_id);
    proof {
        reveal_strlit(".");
        assert(claims@ =~= encode_claims(user_id@, now, exp));
    }
    match hmac_sha256(secret, claims.as_str()) {
        None => {
            proof {
                assert(false);
            }
            Err(AuthError::Malformed)
        },
        Some(mac) => {
            let mut token = claims;
            token.append(".");
            codec::append_hex(&mut token, &mac);
            proof {
                reveal_strlit(".");
                assert(token@ =~= token_chars(secret@, user_id@, now, exp));
                let claims_s = encode_claims(user_id@, now, exp);
                let tag = hmac_sha256_of(secret@, claims_s);
                codec::lemma_hex_chars_len(tag);
                codec::lemma_dec_chars_digits(now as nat);
                codec::lemma_dec_chars_digits(exp as nat);
                assert(token@.len() == claims_s.len() + 65);
                assert(token@.subrange(token@.len() - 64, token@.len() as int) =~= hex_chars(tag));
                assert(token@[token@.len() - 65] == '.');
                assert(token_shape_ok(token@));
            }
            Ok(token)
        },
    }
}

/// Issues a token for `user_id` as of the current wall clock. The clock
/// reading is clamped to the encodable range: never negative, never so large
/// that the expiry would not fit.
pub fn create_token(secret: &[u8], user_id: &str) -> (r: Result<String, AuthError>)
    ensures
        r is Ok <==> user_id@.len() > 0,
        r matches Err(e) ==> e == AuthError::Malformed,
        r matches Ok(t) ==> exists|iat: u64, exp: u64|
            iat + TOKEN_LIFETIME_SECS <= u64::MAX && exp == iat + TOKEN_LIFETIME_SECS && t@
                == #[trigger] token_chars(secret@, user_id@, iat, exp),
        r matches Ok(t) ==> token_shape_ok(t@),
{
    if user_id.unicode_len() == 0 {
        return Err(AuthError::Malformed);
    }
    let t = unix_now();
    let raw: u64 = if t < 0 {
        0
    } else {
        t as u64
    };
    let now: u64 = if raw > u64::MAX - TOKEN_LIFETIME_SECS {
        u64::MAX - TOKEN_LIFETIME_SECS
    } else {
        raw
    };
    let r = create_token_at(secret, user_id, now);
    proof {
        if r is Ok {
            let exp = (now + TOKEN_LIFETIME_SECS) as u64;
            assert(r->Ok_0@ == token_chars(secret@, user_id@, now, exp));
        }
    }
    r
}

// ---------------------------------------------------------------------------
// Verifying tokens
// ---------------------------------------------------------------------------

/// Reads one decimal field of the claim encoding: the digits from `start` up
/// to the next `'.'`. Returns the value and the separator's position, or
/// `None` exactly when the field is absent, empty, not all digits, or too
/// large for `u64`.
fn parse_dec_field(s: &str, start: usize) -> (r: Option<(u64, usize)>)
    requires
        start <= s@.len(),
    ensures
        r matches Some(v) ==> {
            let d = find_char(s@, '.', start as int);
            &&& v.1 == d
            &&& start < d < s@.len()
            &&& all_digits(s@.subrange(start as int, d))
            &&& dec_value(s@.subrange(start as int, d)) == v.0
        },
        r is None ==> {
            let d = find_char(s@, '.', start as int);
            ||| d >= s@.len()
            ||| d == start
            ||| !all_digits(s@.subrange(start as int, d))
            ||| dec_value(s@.subrange(start as int, d)) > u64::MAX
        },
{
    let n = s.unicode_len();
    let mut p: usize = start;
    let mut v: u64 = 0;
    while p < n
        invariant
            start <= p <= n,
            n == s@.len(),
            forall|j: int|
                start <= j < p ==> s@[j] != '.' && is_digit_char(#[trigger] s@[j]),
            v == dec_value(s@.subrange(start as int, p as int)),
        decreases n - p,
    {
        let c = s.get_char(p);
        if c == '.' {
            proof {
                codec::lemma_find_char_at(s@, '.', start as int, p as int);
            }
            if p == start {
                return None;
            }
            return Some((v, p));
        }
        match codec::char_digit_val(c) {
            None => {
                proof {
                    codec::lemma_find_char(s@, '.', start as int);
                    let d = find_char(s@, '.', start as int);
                    if d < s@.len() {
                        assert(s@[d] == '.');
                        assert(d > p);
                        assert(!is_digit_char(s@[p as int]));
                        assert(s@.subrange(start as int, d)[p - start] == s@[p as int]);
                        assert(!all_digits(s@.subrange(start as int, d)));
                    }
                }
                return None;
            },
            Some(dv) => {
                let ghost pre = s@.subrange(start as int, p as int);
                let ghost cur = s@.subrange(start as int, p as int + 1);
                proof {
                    assert(cur.drop_last() =~= pre);
                    assert(dec_value(cur) == dec_value(pre) * 10 + codec::digit_val(cur.last()));
                }
                if v > (u64::MAX - (dv as u64)) / 10 {
                    proof {
                        let q = (u64::MAX - (dv as u64)) / 10;
                        assert(v >= q + 1);
                        assert((q + 1) * 10 > u64::MAX - dv) by (nonlinear_arith)
                            requires
                                q == (u64::MAX - (dv as u64)) / 10,
                                dv < 10,
                        ;
                        assert(v * 10 >= (q + 1) * 10) by (nonlinear_arith)
                            requires
                                v >= q + 1,
                        ;
                        assert(dec_value(cur) > u64::MAX);
                        codec::lemma_find_char(s@, '.', start as int);
                        let d = find_char(s@, '.', start as int);
                        if d < s@.len() {
                            assert(d > p);
                            let f = s@.subrange(start as int, d);
                            assert(cur =~= f.subrange(0, p + 1 - start));
                            codec::lemma_dec_value_prefix(f, p + 1 - start);
                            assert(dec_value(f) > u64::MAX);
                        }
                    }
                    return None;
                }
                proof {
                    let q = (u64::MAX - (dv as u64)) / 10;
                    assert(v * 10 <= q * 10 <= u64::MAX - dv) by (nonlinear_arith)
                        requires
                            v <= q,
                            q == (u64::MAX - (dv as u64)) / 10,
                            dv < 10,
                    ;
                }
                v = v * 10 + (dv as u64);
                p = p + 1;
            },
        }
    }
    proof {
        codec::lemma_find_char(s@, '.', start as int);
        let d = find_char(s@, '.', start as int);
        if d < s@.len() {
            assert(s@[d] == '.');
        }
        assert(d >= s@.len());
    }
    None
}

/// Checks a token against the key and the clock reading `now`: the signature
/// over the claim encoding first, then the shape of the claims, then expiry.
/// Returns the reconstructed claims, or says exactly why not.
pub fn verify_token_at(secret: &[u8], token: &str, now: u64) -> (r: Result<Claims, AuthError>)
    ensures
        r matches Ok(c) ==> spec_verify(secret@, token@, now) == Ok::<_, AuthError>(
            (c.sub@, c.iat, c.exp),
        ),
        r matches Err(e) ==> spec_verify(secret@, token@, now) == Err::<
            (Seq<char>, u64, u64),
        _>(e),
        r is Ok <==> spec_verify(secret@, token@, now) is Ok,
{
    let n = token.unicode_len();
    if n < 66 {
        return Err(AuthError::Malformed);
    }
    let mac_start = n - 64;
    let mut mac_bytes: Vec<u8> = Vec::new();
    let mut i: usize = 0;
    while i < 32
        invariant
            i <= 32,
            n == token@.len(),
            66 <= n,
            mac_bytes@.len() == i,
            mac_start == n - 64,
            forall|j: int|
                n - 64 <= j < n - 64 + 2 * i ==> is_hex_char(#[trigger] token@[j]),
            mac_bytes@ == hex_decode(token@.subrange(n - 64, n - 64 + 2 * i)),
        decreases 32 - i,
    {
        let c1 = token.get_char(mac_start + 2 * i);
        let c2 = token.get_char(mac_start + 2 * i + 1);
        let h = match codec::char_hex_val(c1) {
            Some(h) => h,
            None => {
                proof {
                    assert(!is_hex_char(token@[mac_start + 2 * i]));
                    assert(token@.subrange(n - 64, n as int)[2 * i] == token@[n - 64 + 2 * i]);
                    assert(!all_hex(token@.subrange(n - 64, n as int)));
                }
                return Err(AuthError::Malformed);
            },
        };
        let l = match codec::char_hex_val(c2) {
            Some(l) => l,
            None => {
                proof {
                    assert(!is_hex_char(token@[mac_start + 2 * i + 1]));
                    assert(token@.subrange(n - 64, n as int)[2 * i + 1] == token@[n - 64 + 2 * i
                        + 1]);
                    assert(!all_hex(token@.subrange(n - 64, n as int)));
                }
                return Err(AuthError::Malformed);
            },
        };
        mac_bytes.push(h * 16 + l);
        proof {
            let prev = token@.subrange(n - 64, n - 64 + 2 * i);
            let cur = token@.subrange(n - 64, n - 64 + 2 * (i + 1));
            assert(cur.subrange(0, cur.len() - 2) =~= prev);
            assert(cur[cur.len() - 2] == token@[n - 64 + 2 * i]);
            assert(cur[cur.len() - 1] == token@[n - 64 + 2 * i + 1]);
            assert(mac_bytes@ =~= hex_decode(cur));
        }
        i = i + 1;
    }
    proof {
        assert(token@.subrange(n - 64, n - 64 + 2 * 32) =~= token@.subrange(n - 64, n as int));
        assert(all_hex(token@.subrange(n - 64, n as int)));
    }
    let dot = token.get_char(n - 65);
    if dot != '.' {
        return Err(AuthError::Malformed);
    }
    let claims_part = token.substring_char(0, n - 65);
    proof {
        assert(claims_part@ == token@.subrange(0, n - 65));
    }
    let mac_computed = match hmac_sha256(secret, claims_part) {
        None => {
            proof {
                assert(false);
            }
            return Err(AuthError::Malformed);
        },
        Some(m) => m,
    };
    let mut k: usize = 0;
    while k < 32
        invariant
            k <= 32,
            n == token@.len(),
            66 <= n,
            mac_bytes@.len() == 32,
            mac_computed@.len() == 32,
            mac_computed@ == hmac_sha256_of(secret@, claims_part@),
            claims_part@ == token@.subrange(0, n - 65),
            mac_bytes@ == hex_decode(token@.subrange(n - 64, n as int)),
            all_hex(token@.subrange(n - 64, n as int)),
            token@[n - 65] == '.',
            forall|j: int| 0 <= j < k ==> mac_bytes@[j] == mac_computed@[j],
        decreases 32 - k,
    {
        if mac_bytes[k] != mac_computed[k] {
            proof {
                assert(mac_bytes@ != mac_computed@);
            }
            return Err(AuthError::InvalidSignature);
        }
        k = k + 1;
    }
    proof {
        assert(mac_bytes@ =~= mac_computed@);
    }
    let m = n - 65;
    let (iat, d1) = match parse_dec_field(claims_part, 0) {
        None => {
            return Err(AuthError::Malformed);
        },
        Some(x) => x,
    };
    let (exp, d2) = match parse_dec_field(claims_part, d1 + 1) {
        None => {
            return Err(AuthError::Malformed);
        },
        Some(x) => x,
    };
    if d2 + 1 >= m {
        proof {
            assert(claims_part@.subrange(d2 + 1, m as int).len() == 0);
        }
        return Err(AuthError::Malformed);
    }
    let sub_str = claims_part.substring_char(d2 + 1, m);
    if exp <= iat {
        return Err(AuthError::Malformed);
    }
    if now > exp {
        return Err(AuthError::Expired);
    }
    Ok(Claims { sub: sub_str.to_owned(), iat, exp })
}

/// Checks a token against the current wall clock. A clock reading before the
/// epoch counts as the epoch; one too large for `u64` cannot occur.
pub fn verify_token(secret: &[u8], token: &str) -> (r: Result<Claims, AuthError>)
    ensures
        r matches Ok(c) ==> exists|now: u64| #[trigger] spec_verify(secret@, token@, now) == Ok::<
            _,
            AuthError,
        >((c.sub@, c.iat, c.exp)),
        r matches Err(e) ==> exists|now: u64| #[trigger] spec_verify(
            secret@,
            token@,
            now,
        ) == Err::<(Seq<char>, u64, u64), _>(e),
{
    let t = unix_now();
    let now: u64 = if t < 0 {
        0
    } else {
        t as u64
    };
    verify_token_at(secret, token, now)
}

// ---------------------------------------------------------------------------
// Laws
// ---------------------------------------------------------------------------

/// A token built over `key` for a non-empty subject with `iat < exp` is
/// accepted by verification under the same key while the clock has not
/// passed `exp`, and yields back exactly the subject and the two instants;
/// once the clock has passed `exp`, it is rejected as expired.
pub proof fn lemma_token_round_trip(key: Seq<u8>, sub: Seq<char>, iat: u64, exp: u64, now: u64)
    requires
        sub.len() > 0,
        iat < exp,
        hmac_sha256_of(key, encode_claims(sub, iat, exp)).len() == 32,
    ensures
        now <= exp ==> spec_verify(key, token_chars(key, sub, iat, exp), now) == Ok::<
            _,
            AuthError,
        >((sub, iat, exp)),
        now > exp ==> spec_verify(key, token_chars(key, sub, iat, exp), now) == Err::<
            (Seq<char>, u64, u64),
            _,
        >(AuthError::Expired),
{
    let claims = encode_claims(sub, iat, exp);
    let mac = hmac_sha256_of(key, claims);
    let hexmac = hex_chars(mac);
    let t = token_chars(key, sub, iat, exp);
    let a = dec_chars(iat as nat);
    let b = dec_chars(exp as nat);
    codec::lemma_dec_chars_digits(iat as nat);
    codec::lemma_dec_chars_digits(exp as nat);
    codec::lemma_hex_chars_len(mac);
    codec::lemma_hex_roundtrip(mac);
    codec::lemma_dec_roundtrip(iat as nat);
    codec::lemma_dec_roundtrip(exp as nat);
    assert(hexmac.len() == 64);
    assert(claims.len() == a.len() + 1 + b.len() + 1 + sub.len());
    assert(t.len() == claims.len() + 65);
    assert(t.len() >= 66);
    assert(t.subrange(t.len() - 64, t.len() as int) =~= hexmac);
    assert(all_hex(t.subrange(t.len() - 64, t.len() as int)));
    assert(t[t.len() - 65] == '.');
    assert(t.subrange(0, t.len() - 65) =~= claims);
    assert(hex_decode(hexmac) == mac);
    // the claim encoding parses back to exactly its parts
    assert forall|j: int| 0 <= j < a.len() implies claims[j] != '.' by {
        assert(is_digit_char(a[j]));
    }
    assert(claims[a.len() as int] == '.');
    codec::lemma_find_char_at(claims, '.', 0, a.len() as int);
    let d1 = find_char(claims, '.', 0);
    assert(d1 == a.len());
    assert(claims.subrange(0, d1) =~= a);
    assert(dec_value(a) == iat as nat);
    assert forall|j: int| d1 + 1 <= j < d1 + 1 + b.len() implies claims[j] != '.' by {
        assert(claims[j] == b[j - (d1 + 1)]);
        assert(is_digit_char(b[j - (d1 + 1)]));
    }
    assert(claims[d1 + 1 + b.len()] == '.');
    codec::lemma_find_char_at(claims, '.', d1 + 1, d1 + 1 + b.len());
    let d2 = find_char(claims, '.', d1 + 1);
    assert(d2 == d1 + 1 + b.len());
    assert(claims.subrange(d1 + 1, d2) =~= b);
    assert(dec_value(b) == exp as nat);
    assert(claims.subrange(d2 + 1, claims.len() as int) =~= sub);
    assert(spec_parse_claims(claims) == Some((iat, exp, sub)));
}

/// A token whose signature part does not match the tag of its claim part is
/// rejected as `InvalidSignature`, whatever the claims say and whatever the
/// clock reads.
pub proof fn lemma_tampered_token_rejected(key: Seq<u8>, t: Seq<char>, now: u64)
    requires
        t.len() >= 66,
        all_hex(t.subrange(t.len() - 64, t.len() as int)),
        t[t.len() - 65] == '.',
        hex_decode(t.subrange(t.len() - 64, t.len() as int)) != hmac_sha256_of(
            key,
            t.subrange(0, t.len() - 65),
        ),
    ensures
        spec_verify(key, t, now) == Err::<(Seq<char>, u64, u64), _>(AuthError::InvalidSignature),
{
}

} // verus!
