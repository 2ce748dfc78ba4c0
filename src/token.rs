//! The token service: issues signed, time-bounded bearer tokens and verifies
//! them.
//!
//! A token is `header.payload.signature` in compact JSON Web Signature form:
//! the URL-safe unpadded base64 of the fixed header `{"typ":"JWT","alg":"HS256"}`,
//! the same encoding of the claims' payload text, and the HMAC-SHA256 tag of
//! the first two segments under the service's secret. Verification accepts
//! only that header, so the algorithm is pinned and cannot be downgraded by
//! the token itself.
use vstd::prelude::*;
use vstd::utf8::*;
use crate::claims::{Claims, ClaimsView, labels_view, role_view};
use crate::payload::{claims_json, decode_claims, encode_claims, encodes, find_char};

verus! {

broadcast use {encode_utf8_valid_utf8, encode_utf8_decode_utf8};

/// How long an issued token stays valid, in seconds (24 hours).
pub const TOKEN_LIFETIME_SECS: u64 = 86400;

// ---------------------------------------------------------------------------
// Outside calls
// ---------------------------------------------------------------------------

/// URL-safe base64 without padding of the given bytes.
pub uninterp spec fn b64url(bytes: Seq<u8>) -> Seq<char>;

/// The base64 signature text of the HMAC-SHA256 tag of `message` under `key`.
pub uninterp spec fn hs256_tag(message: Seq<u8>, key: Seq<u8>) -> Seq<char>;

/// A character of the URL-safe base64 alphabet.
pub open spec fn is_b64url_char(c: char) -> bool {
    ('A' <= c <= 'Z') || ('a' <= c <= 'z') || ('0' <= c <= '9') || c == '-' || c == '_'
}

pub open spec fn dot_free(s: Seq<char>) -> bool {
    forall|i: int| 0 <= i < s.len() ==> #[trigger] s[i] != '.'
}

#[verifier::external_type_specification]
#[verifier::external_body]
pub struct ExJwtError(jsonwebtoken::errors::Error);

#[verifier::external_type_specification]
#[verifier::external_body]
pub struct ExDecodeError(base64::DecodeError);

#[verifier::external_type_specification]
#[verifier::external_body]
pub struct ExFromUtf8Error(std::string::FromUtf8Error);

/// Relies on base64's `URL_SAFE_NO_PAD` engine: its output uses the URL-safe
/// alphabet only and is a function of the input bytes.
#[verifier::external_body]
fn b64url_encode(bytes: &[u8]) -> (r: String)
    ensures
        r@ == b64url(bytes@),
        forall|i: int| 0 <= i < r@.len() ==> is_b64url_char(#[trigger] r@[i]),
{
    base64::Engine::encode(&base64::engine::general_purpose::URL_SAFE_NO_PAD, bytes)
}

/// Relies on base64's `URL_SAFE_NO_PAD` engine: decoding the encoding of some
/// bytes gives those bytes back.
#[verifier::external_body]
fn b64url_decode(text: &str) -> (r: Result<Vec<u8>, base64::DecodeError>)
    ensures
        forall|b: Seq<u8>| #[trigger] b64url(b) == text@ ==> (r is Ok && r->Ok_0@ == b),
{
    base64::Engine::decode(&base64::engine::general_purpose::URL_SAFE_NO_PAD, text)
}

/// Relies on `String::from_utf8`: accepts exactly the valid UTF-8 byte sequences.
#[verifier::external_body]
fn utf8_text(bytes: Vec<u8>) -> (r: Result<String, std::string::FromUtf8Error>)
    ensures
        valid_utf8(bytes@) ==> (r is Ok && r->Ok_0@ == decode_utf8(bytes@)),
        !valid_utf8(bytes@) ==> r is Err,
{
    String::from_utf8(bytes)
}

/// Relies on jsonwebtoken::crypto::sign with HS256: it returns the URL-safe
/// unpadded base64 of the HMAC-SHA256 tag, and never fails for an HMAC algorithm.
#[verifier::external_body]
fn hs256_sign(message: &[u8], key: &[u8]) -> (r: Result<String, jsonwebtoken::errors::Error>)
    ensures
        r is Ok,
        r->Ok_0@ == hs256_tag(message@, key@),
        forall|i: int| 0 <= i < r->Ok_0@.len() ==> is_b64url_char(#[trigger] r->Ok_0@[i]),
{
    jsonwebtoken::crypto::sign(
        message,
        &jsonwebtoken::EncodingKey::from_secret(key),
        jsonwebtoken::Algorithm::HS256,
    )
}

/// Relies on jsonwebtoken::crypto::verify with HS256: it signs the message again
/// with the key and compares the result with the given signature text.
#[verifier::external_body]
fn hs256_verify(signature: &str, message: &[u8], key: &[u8]) -> (r: Result<bool, jsonwebtoken::errors::Error>)
    ensures
        r is Ok,
        r->Ok_0 == (signature@ == hs256_tag(message@, key@)),
{
    jsonwebtoken::crypto::verify(
        signature,
        message,
        &jsonwebtoken::DecodingKey::from_secret(key),
        jsonwebtoken::Algorithm::HS256,
    )
}

/// Relies on `SystemTime::now` and `duration_since(UNIX_EPOCH)`: the current
/// Unix time in whole seconds, or `None` where the clock reads before 1970.
/// Nothing is known of the value: the clock is outside the library.
#[verifier::external_body]
fn unix_now() -> (r: Option<u64>) {
    match std::time::SystemTime::now().duration_since(std::time::UNIX_EPOCH) {
        Ok(d) => Some(d.as_secs()),
        Err(_) => None,
    }
}

// ---------------------------------------------------------------------------
// Configuration and errors
// ---------------------------------------------------------------------------

/// Why the token service could not be configured.
#[derive(Debug, Clone, Copy, PartialEq, Eq, Structural)]
pub enum ConfigError {
    /// No signing secret was configured, or it is empty.
    MissingSecret,
}

/// Why a token could not be issued or was not accepted.
#[derive(Debug, Clone, Copy, PartialEq, Eq, Structural)]
pub enum TokenError {
    /// The token could not be produced (internal failure).
    SigningError,
    /// Bad signature, malformed structure or expired: deliberately not told apart.
    InvalidToken,
}

/// The process-wide signing secret, set once at startup.
pub struct SigningKey {
    secret: String,
}

impl View for SigningKey {
    type V = Seq<char>;

    closed spec fn view(&self) -> Seq<char> {
        self.secret@
    }
}

impl SigningKey {
    /// A signing key from the configured secret; there is no default secret.
    pub fn from_config(secret: Option<String>) -> (r: Result<SigningKey, ConfigError>)
        ensures
            match secret {
                Some(s) => if s@.len() > 0 {
                    r is Ok && r->Ok_0@ == s@
                } else {
                    r == Err::<SigningKey, ConfigError>(ConfigError::MissingSecret)
                },
                None => r == Err::<SigningKey, ConfigError>(ConfigError::MissingSecret),
            },
    {
        match secret {
            Some(s) => {
                if s.unicode_len() > 0 {
                    Ok(SigningKey { secret: s })
                } else {
                    Err(ConfigError::MissingSecret)
                }
            },
            None => Err(ConfigError::MissingSecret),
        }
    }

    fn key_bytes(&self) -> (r: &[u8])
        ensures
            r@ == encode_utf8(self@),
    {
        self.secret.as_str().as_bytes()
    }
}

// ---------------------------------------------------------------------------
// Token text
// ---------------------------------------------------------------------------

pub open spec fn header_json() -> Seq<char> {
    "{\"typ\":\"JWT\",\"alg\":\"HS256\"}"@
}

pub open spec fn header_segment() -> Seq<char> {
    b64url(encode_utf8(header_json()))
}

pub open spec fn payload_segment(c: ClaimsView) -> Seq<char> {
    b64url(encode_utf8(claims_json(c)))
}

/// The part of a token that the signature covers.
pub open spec fn signing_input(c: ClaimsView) -> Seq<char> {
    header_segment() + seq!['.'] + payload_segment(c)
}

pub open spec fn signature_segment(c: ClaimsView, key: Seq<char>) -> Seq<char> {
    hs256_tag(encode_utf8(signing_input(c)), encode_utf8(key))
}

pub open spec fn token_text(c: ClaimsView, key: Seq<char>) -> Seq<char> {
    signing_input(c) + seq!['.'] + signature_segment(c, key)
}

/// `token` is the token of the claims `c` under `key`: its three segments are
/// the header, the payload of `c` and the signature, with no dot inside a segment.
pub open spec fn token_for(token: Seq<char>, c: ClaimsView, key: Seq<char>) -> bool {
    &&& token == token_text(c, key)
    &&& dot_free(header_segment())
    &&& dot_free(payload_segment(c))
    &&& dot_free(signature_segment(c, key))
}

/// The claims that a token issued at `now` carries.
pub open spec fn issued_claims(
    sub: u128,
    role: Option<Seq<char>>,
    permissions: Seq<Seq<char>>,
    now: u64,
) -> ClaimsView {
    ClaimsView { sub, exp: (now + TOKEN_LIFETIME_SECS) as u64, role, permissions }
}

/// What verification of `token` at time `now` yields: the claims of the token
/// when it is the token of some claims under `key` that have not expired,
/// `InvalidToken` otherwise.
pub open spec fn verify_post(
    token: Seq<char>,
    key: Seq<char>,
    now: u64,
    r: Result<ClaimsView, TokenError>,
) -> bool {
    &&& (r is Ok ==> token_for(token, r->Ok_0, key) && now < r->Ok_0.exp)
    &&& (r is Ok ==> forall|c: ClaimsView| #[trigger] token_for(token, c, key) ==> c == r->Ok_0)
    &&& (r is Err ==> r->Err_0 == TokenError::InvalidToken && forall|c: ClaimsView|
        !(#[trigger] token_for(token, c, key) && now < c.exp))
    &&& forall|c: ClaimsView| #[trigger]
        token_for(token, c, key) && now < c.exp ==> r == Ok::<ClaimsView, TokenError>(c)
}

pub open spec fn result_view(r: Result<Claims, TokenError>) -> Result<ClaimsView, TokenError> {
    match r {
        Ok(c) => Ok(c@),
        Err(e) => Err(e),
    }
}

proof fn lemma_b64_dot_free(s: Seq<char>)
    requires
        forall|i: int| 0 <= i < s.len() ==> is_b64url_char(#[trigger] s[i]),
    ensures
        dot_free(s),
{
    assert forall|i: int| 0 <= i < s.len() implies #[trigger] s[i] != '.' by {
        assert(is_b64url_char(s[i]));
    }
}

// ---------------------------------------------------------------------------
// Issuing
// ---------------------------------------------------------------------------

fn header_text() -> (r: &'static str)
    ensures
        r@ == header_json(),
{
    "{\"typ\":\"JWT\",\"alg\":\"HS256\"}"
}

/// Issues a token for the caller `sub` at time `now` (Unix seconds); it
/// expires `TOKEN_LIFETIME_SECS` later. It carries any role and permission
/// texts, escaped as JSON strings.
pub fn issue_token(
    key: &SigningKey,
    sub: u128,
    role: Option<String>,
    permissions: Vec<String>,
    now: u64,
) -> (r: Result<String, TokenError>)
    requires
        now + TOKEN_LIFETIME_SECS <= u64::MAX,
    ensures
        ({
            let c = issued_claims(sub, role_view(role), labels_view(permissions@), now);
            &&& r is Ok
            &&& token_for(r->Ok_0@, c, key@)
        }),
{
    let claims = Claims { sub, exp: now + TOKEN_LIFETIME_SECS, role, permissions };
    assert(claims@ == issued_claims(sub, role_view(role), labels_view(permissions@), now));
    let header = b64url_encode(header_text().as_bytes());
    let payload_text = encode_claims(&claims);
    let payload = b64url_encode(payload_text.as_str().as_bytes());
    let mut message = header;
    message.append(".");
    message.append(payload.as_str());
    proof {
        reveal_strlit(".");
        lemma_b64_dot_free(header@);
        lemma_b64_dot_free(payload@);
        assert(message@ =~= signing_input(claims@));
    }
    let signature = match hs256_sign(message.as_str().as_bytes(), key.key_bytes()) {
        Ok(s) => s,
        Err(_) => {
            return Err(TokenError::SigningError);
        },
    };
    proof {
        lemma_b64_dot_free(signature@);
    }
    message.append(".");
    message.append(signature.as_str());
    assert(message@ =~= token_text(claims@, key@));
    Ok(message)
}

// ---------------------------------------------------------------------------
// Verifying
// ---------------------------------------------------------------------------

/// Where the segments of the token of `c` stand.
proof fn lemma_token_split(token: Seq<char>, c: ClaimsView, key: Seq<char>)
    requires
        token_for(token, c, key),
    ensures
        ({
            let h = header_segment().len() as int;
            let p = h + 1 + payload_segment(c).len();
            &&& token.len() == p + 1 + signature_segment(c, key).len()
            &&& token[h] == '.'
            &&& token[p] == '.'
            &&& forall|k: int| 0 <= k < h ==> #[trigger] token[k] != '.'
            &&& forall|k: int| h < k < p ==> #[trigger] token[k] != '.'
            &&& forall|k: int| p < k < token.len() ==> #[trigger] token[k] != '.'
            &&& token.subrange(0, h) == header_segment()
            &&& token.subrange(h + 1, p) == payload_segment(c)
            &&& token.subrange(0, p) == signing_input(c)
            &&& token.subrange(p + 1, token.len() as int) == signature_segment(c, key)
        }),
{
    let hs = header_segment();
    let ps = payload_segment(c);
    let ss = signature_segment(c, key);
    let h = hs.len() as int;
    let p = h + 1 + ps.len();
    assert(token =~= hs + seq!['.'] + ps + seq!['.'] + ss);
    assert forall|k: int| 0 <= k < h implies #[trigger] token[k] != '.' by {
        assert(token[k] == hs[k]);
    }
    assert forall|k: int| h < k < p implies #[trigger] token[k] != '.' by {
        assert(token[k] == ps[k - h - 1]);
    }
    assert forall|k: int| p < k < token.len() implies #[trigger] token[k] != '.' by {
        assert(token[k] == ss[k - p - 1]);
    }
    assert(token.subrange(0, h) =~= hs);
    assert(token.subrange(h + 1, p) =~= ps);
    assert(token.subrange(0, p) =~= signing_input(c));
    assert(token.subrange(p + 1, token.len() as int) =~= ss);
}

/// Verifies a token at time `now` (Unix seconds) and returns its claims.
///
/// Accepts exactly the tokens that this key issued for claims that expire
/// after `now`; everything else is `InvalidToken`.
pub fn verify_token_at(key: &SigningKey, token: &str, now: u64) -> (r: Result<Claims, TokenError>)
    ensures
        verify_post(token@, key@, now, result_view(r)),
{
    let n = token.unicode_len();
    let d1 = find_char(token, n, 0, '.');
    if d1 == n {
        proof {
            assert forall|c: ClaimsView| !(#[trigger] token_for(token@, c, key@) && now < c.exp) by {
                if token_for(token@, c, key@) {
                    lemma_token_split(token@, c, key@);
                }
            }
        }
        return Err(TokenError::InvalidToken);
    }
    let d2 = find_char(token, n, d1 + 1, '.');
    if d2 == n {
        proof {
            assert forall|c: ClaimsView| !(#[trigger] token_for(token@, c, key@) && now < c.exp) by {
                if token_for(token@, c, key@) {
                    lemma_token_split(token@, c, key@);
                }
            }
        }
        return Err(TokenError::InvalidToken);
    }
    let d3 = find_char(token, n, d2 + 1, '.');
    proof {
        assert forall|c: ClaimsView| #[trigger] token_for(token@, c, key@) implies d1
            == header_segment().len() && d2 == header_segment().len() + 1 + payload_segment(c).len()
            && d3 == n by {
            lemma_token_split(token@, c, key@);
        }
    }
    if d3 != n {
        return Err(TokenError::InvalidToken);
    }
    let header_seg = token.substring_char(0, d1).to_owned();
    let payload_seg = token.substring_char(d1 + 1, d2);
    let message = token.substring_char(0, d2);
    let signature = token.substring_char(d2 + 1, n);
    let expected = b64url_encode(header_text().as_bytes());
    if !(header_seg == expected) {
        proof {
            assert forall|c: ClaimsView| !(#[trigger] token_for(token@, c, key@) && now < c.exp) by {
                if token_for(token@, c, key@) {
                    lemma_token_split(token@, c, key@);
                }
            }
        }
        return Err(TokenError::InvalidToken);
    }
    let signed = match hs256_verify(signature, message.as_bytes(), key.key_bytes()) {
        Ok(b) => b,
        Err(_) => false,
    };
    if !signed {
        proof {
            assert forall|c: ClaimsView| !(#[trigger] token_for(token@, c, key@) && now < c.exp) by {
                if token_for(token@, c, key@) {
                    lemma_token_split(token@, c, key@);
                }
            }
        }
        return Err(TokenError::InvalidToken);
    }
    let bytes = match b64url_decode(payload_seg) {
        Ok(b) => b,
        Err(_) => {
            proof {
                assert forall|c: ClaimsView| !(#[trigger] token_for(token@, c, key@) && now < c.exp) by {
                    if token_for(token@, c, key@) {
                        lemma_token_split(token@, c, key@);
                        assert(b64url(encode_utf8(claims_json(c))) == payload_seg@);
                    }
                }
            }
            return Err(TokenError::InvalidToken);
        },
    };
    proof {
        assert forall|c: ClaimsView| #[trigger] token_for(token@, c, key@) implies bytes@
            == encode_utf8(claims_json(c)) by {
            lemma_token_split(token@, c, key@);
            assert(b64url(encode_utf8(claims_json(c))) == payload_seg@);
        }
    }
    let text = match utf8_text(bytes) {
        Ok(t) => t,
        Err(_) => {
            proof {
                assert forall|c: ClaimsView| !(#[trigger] token_for(token@, c, key@) && now < c.exp) by {
                    if token_for(token@, c, key@) {
                        assert(valid_utf8(encode_utf8(claims_json(c))));
                    }
                }
            }
            return Err(TokenError::InvalidToken);
        },
    };
    proof {
        assert forall|c: ClaimsView| #[trigger] token_for(token@, c, key@) implies encodes(text@, c) by {
            assert(valid_utf8(encode_utf8(claims_json(c))));
            assert(decode_utf8(encode_utf8(claims_json(c))) == claims_json(c));
        }
    }
    let claims = match decode_claims(&text) {
        Some(c) => c,
        None => {
            proof {
                assert forall|c: ClaimsView| !(#[trigger] token_for(token@, c, key@) && now < c.exp) by {
                    if token_for(token@, c, key@) {
                        assert(encodes(text@, c));
                    }
                }
            }
            return Err(TokenError::InvalidToken);
        },
    };
    proof {
        assert forall|c: ClaimsView| #[trigger] token_for(token@, c, key@) implies claims@ == c by {
            assert(encodes(text@, c));
        }
    }
    let again = b64url_encode(text.as_str().as_bytes());
    let payload_owned = payload_seg.to_owned();
    if !(again == payload_owned) {
        proof {
            assert forall|c: ClaimsView| !(#[trigger] token_for(token@, c, key@) && now < c.exp) by {
                if token_for(token@, c, key@) {
                    lemma_token_split(token@, c, key@);
                    assert(encodes(text@, c));
                }
            }
        }
        return Err(TokenError::InvalidToken);
    }
    if now < claims.exp {
        proof {
            reveal_strlit(".");
            lemma_b64_dot_free(expected@);
            lemma_b64_dot_free(again@);
            assert(header_seg@ == header_segment());
            assert(payload_seg@ == payload_segment(claims@));
            assert(message@ =~= signing_input(claims@)) by {
                assert(message@ =~= token@.subrange(0, d1 as int) + seq!['.'] + token@.subrange(d1 + 1, d2 as int));
            }
            assert(signature@ == signature_segment(claims@, key@));
            assert(token@ =~= token_text(claims@, key@)) by {
                assert(token@ =~= token@.subrange(0, d2 as int) + seq!['.'] + token@.subrange(d2 + 1, n as int));
            }
            assert(dot_free(signature_segment(claims@, key@))) by {
                assert forall|i: int| 0 <= i < signature@.len() implies #[trigger] signature@[i] != '.' by {
                    assert(signature@[i] == token@[d2 + 1 + i]);
                }
            }
        }
        Ok(claims)
    } else {
        proof {
            assert forall|c: ClaimsView| !(#[trigger] token_for(token@, c, key@) && now < c.exp) by {
                if token_for(token@, c, key@) {
                    assert(claims@ == c);
                }
            }
        }
        Err(TokenError::InvalidToken)
    }
}

/// Issues a token for the caller at the current time.
///
/// Fails with `SigningError` only where the clock reads a time before 1970 or
/// too late to add the lifetime.
pub fn generate_token(key: &SigningKey, user_id: u128, role: Option<String>, permissions: Vec<String>) -> (r: Result<String, TokenError>)
    ensures
        r is Ok ==> exists|t: u64| #[trigger]
            token_for(r->Ok_0@, issued_claims(user_id, role_view(role), labels_view(permissions@), t), key@),
        r is Err ==> r->Err_0 == TokenError::SigningError,
{
    let now = match unix_now() {
        Some(t) => t,
        None => {
            return Err(TokenError::SigningError);
        },
    };
    if now > u64::MAX - TOKEN_LIFETIME_SECS {
        return Err(TokenError::SigningError);
    }
    let r = issue_token(key, user_id, role, permissions, now);
    assert(token_for(r->Ok_0@, issued_claims(user_id, role_view(role), labels_view(permissions@), now), key@));
    r
}

/// Verifies a token against the current time.
pub fn verify_token(key: &SigningKey, token: &str) -> (r: Result<Claims, TokenError>)
    ensures
        r is Ok ==> token_for(token@, r->Ok_0@, key@),
        r is Err ==> r->Err_0 == TokenError::InvalidToken,
        (forall|c: ClaimsView| !#[trigger] token_for(token@, c, key@)) ==> r is Err,
{
    match unix_now() {
        Some(now) => verify_token_at(key, token, now),
        None => Err(TokenError::InvalidToken),
    }
}

// ---------------------------------------------------------------------------
// Laws
// ---------------------------------------------------------------------------

/// A token issued at `issued_at` for a subject, role and
/// permissions verifies, at any time `now` before its expiry, to claims with
/// that same subject, role and permissions, expiring one lifetime after issue.
pub proof fn law_round_trip(
    key: Seq<char>,
    sub: u128,
    role: Option<Seq<char>>,
    permissions: Seq<Seq<char>>,
    issued_at: u64,
    token: Seq<char>,
    now: u64,
    r: Result<ClaimsView, TokenError>,
)
    requires
        issued_at + TOKEN_LIFETIME_SECS <= u64::MAX,
        token_for(token, issued_claims(sub, role, permissions, issued_at), key),
        now < issued_at + TOKEN_LIFETIME_SECS,
        verify_post(token, key, now, r),
    ensures
        r is Ok,
        r->Ok_0.sub == sub,
        r->Ok_0.role == role,
        r->Ok_0.permissions == permissions,
        r->Ok_0.exp == issued_at + TOKEN_LIFETIME_SECS,
{
    let c = issued_claims(sub, role, permissions, issued_at);
    assert(token_for(token, c, key) && now < c.exp);
}

/// A token is accepted exactly before its expiry time: one second after it,
/// and at it, the token is refused with `InvalidToken`; one second before it,
/// the token is accepted with its claims.
pub proof fn law_expiry_boundary(
    key: Seq<char>,
    c: ClaimsView,
    token: Seq<char>,
    now: u64,
    r: Result<ClaimsView, TokenError>,
)
    requires
        token_for(token, c, key),
        verify_post(token, key, now, r),
    ensures
        now >= c.exp ==> r == Err::<ClaimsView, TokenError>(TokenError::InvalidToken),
        now < c.exp ==> r == Ok::<ClaimsView, TokenError>(c),
        now == c.exp + 1 ==> r == Err::<ClaimsView, TokenError>(TokenError::InvalidToken),
        now + 1 == c.exp ==> r == Ok::<ClaimsView, TokenError>(c),
{
    if r is Ok {
        assert(token_for(token, c, key));
    }
}

/// A token whose signature segment is replaced by any
/// other text is refused with `InvalidToken`.
pub proof fn law_signature_tamper(
    key: Seq<char>,
    c: ClaimsView,
    signature: Seq<char>,
    now: u64,
    r: Result<ClaimsView, TokenError>,
)
    requires
        token_for(token_text(c, key), c, key),
        signature != signature_segment(c, key),
        verify_post(signing_input(c) + seq!['.'] + signature, key, now, r),
    ensures
        r == Err::<ClaimsView, TokenError>(TokenError::InvalidToken),
{
    let t = signing_input(c) + seq!['.'] + signature;
    if r is Ok {
        let x = r->Ok_0;
        lemma_token_split(t, x, key);
        lemma_token_split(token_text(c, key), c, key);
        let h = header_segment().len() as int;
        let pc = h + 1 + payload_segment(c).len();
        let px = h + 1 + payload_segment(x).len();
        assert(t.subrange(0, pc) =~= signing_input(c));
        assert forall|k: int| h < k < pc implies t[k] != '.' by {
            assert(t[k] == token_text(c, key)[k]);
        }
        assert(t[pc] == '.');
        if px < pc {
            assert(t[px] == '.');
        }
        if pc < px {
            assert(t[pc] == '.');
        }
        assert(pc == px);
        assert(signing_input(x) == signing_input(c));
        assert(t.subrange(pc + 1, t.len() as int) =~= signature);
    }
}

} // verus!
