//! Accounts: password hashing, login and the preparation of new accounts.
//! Loading and storing account rows is left to the caller; these functions
//! take what was loaded and say what to store or answer.
use vstd::prelude::*;
use vstd::utf8::*;
use crate::claims::{labels_view, role_view};
use crate::schemas::{FieldError, LoginRequest, RegisterRequest, RegRole, UserNewRequest, errors_view};
use crate::token::{SigningKey, TOKEN_LIFETIME_SECS, issue_token, issued_claims, token_for};

verus! {

/// Whether the password bytes match a bcrypt digest.
pub uninterp spec fn bcrypt_matches(password: Seq<u8>, digest: Seq<char>) -> bool;

/// Whether a digest is one that bcrypt can read: its version, cost, salt and
/// hash parts are well formed.
pub uninterp spec fn bcrypt_readable(digest: Seq<char>) -> bool;

#[verifier::external_type_specification]
#[verifier::external_body]
pub struct ExBcryptError(bcrypt::BcryptError);

/// Relies on bcrypt::verify: recomputes the digest with the stored cost and
/// salt and compares; it fails only on a malformed digest.
#[verifier::external_body]
fn bcrypt_verify(password: &[u8], digest: &str) -> (r: Result<bool, bcrypt::BcryptError>)
    ensures
        r is Ok <==> bcrypt_readable(digest@),
        r is Ok ==> r->Ok_0 == bcrypt_matches(password@, digest@),
{
    bcrypt::verify(password, digest)
}

/// Relies on bcrypt::hash with cost 10: a digest under a random salt, which
/// `bcrypt::verify` then reads and accepts for the same password.
#[verifier::external_body]
fn bcrypt_hash(password: &[u8]) -> (r: Result<String, bcrypt::BcryptError>)
    ensures
        r is Ok ==> bcrypt_readable(r->Ok_0@),
        r is Ok ==> bcrypt_matches(password@, r->Ok_0@),
{
    bcrypt::hash(password, 10)
}

/// A failure of the password hasher.
#[derive(Debug, Clone, Copy, PartialEq, Eq, Structural)]
pub enum HashingError {
    HashingError,
}

/// A salted digest of the password.
pub fn hash_password(plain: &str) -> (r: Result<String, HashingError>)
    ensures
        r is Ok ==> bcrypt_readable(r->Ok_0@),
        r is Ok ==> bcrypt_matches(encode_utf8(plain@), r->Ok_0@),
{
    match bcrypt_hash(plain.as_bytes()) {
        Ok(d) => Ok(d),
        Err(_) => Err(HashingError::HashingError),
    }
}

/// Whether the password matches the digest; fails exactly on a digest that
/// bcrypt cannot read.
pub fn verify_password(plain: &str, digest: &str) -> (r: Result<bool, HashingError>)
    ensures
        r is Ok <==> bcrypt_readable(digest@),
        r is Ok ==> r->Ok_0 == bcrypt_matches(encode_utf8(plain@), digest@),
{
    match bcrypt_verify(plain.as_bytes(), digest) {
        Ok(b) => Ok(b),
        Err(_) => Err(HashingError::HashingError),
    }
}

// ---------------------------------------------------------------------------
// Login
// ---------------------------------------------------------------------------

/// What the credential store holds of the account with a given e-mail.
pub struct StoredCredential {
    pub user_id: u128,
    pub password_hash: String,
    pub role: Option<String>,
    pub permissions: Vec<String>,
}

/// Why a login was refused.
pub enum LoginError {
    /// The request breaks field rules.
    Invalid(Vec<FieldError>),
    /// Unknown e-mail or wrong password: not told apart.
    WrongCredentials,
    /// The stored digest could not be checked.
    HashingError,
    /// The token could not be issued.
    SigningError,
}

pub open spec fn stored_claims(s: &StoredCredential, now: u64) -> crate::claims::ClaimsView {
    issued_claims(s.user_id, role_view(s.role), labels_view(s.permissions@), now)
}

/// Finishes a login once the password check has been made: a match issues a
/// token for the account at `now`, a mismatch is `WrongCredentials`, a failed
/// check is `HashingError`.
pub fn finish_login(key: &SigningKey, stored: &StoredCredential, check: Result<bool, HashingError>, now: u64) -> (r: Result<String, LoginError>)
    requires
        now + TOKEN_LIFETIME_SECS <= u64::MAX,
    ensures
        check == Ok::<bool, HashingError>(true) ==> r is Ok && token_for(r->Ok_0@, stored_claims(stored, now), key@),
        check == Ok::<bool, HashingError>(false) ==> r matches Err(LoginError::WrongCredentials),
        check is Err ==> r matches Err(LoginError::HashingError),
{
    match check {
        Ok(true) => {
            let role = match &stored.role {
                Some(s) => Some(s.clone()),
                None => None,
            };
            let permissions = crate::claims::clone_labels(&stored.permissions);
            assert(role_view(role) == role_view(stored.role));
            match issue_token(key, stored.user_id, role, permissions, now) {
                Ok(t) => Ok(t),
                Err(_) => Err(LoginError::SigningError),
            }
        },
        Ok(false) => Err(LoginError::WrongCredentials),
        Err(_) => Err(LoginError::HashingError),
    }
}

/// Login at time `now`, given the account that the request's e-mail found
/// (`None` where there is none).
pub fn login(key: &SigningKey, req: &LoginRequest, stored: Option<&StoredCredential>, now: u64) -> (r: Result<String, LoginError>)
    requires
        now + TOKEN_LIFETIME_SECS <= u64::MAX,
    ensures
        req.errors_spec().len() > 0 ==> (r matches Err(LoginError::Invalid(e)) && errors_view(e@) == req.errors_spec()),
        req.errors_spec().len() == 0 && stored is None ==> r matches Err(LoginError::WrongCredentials),
        r is Ok ==> req.errors_spec().len() == 0 && (stored matches Some(s) && bcrypt_matches(encode_utf8(req.password@), s.password_hash@) && token_for(r->Ok_0@, stored_claims(s, now), key@)),
        req.errors_spec().len() == 0 && (stored matches Some(s) && bcrypt_readable(s.password_hash@)
            && bcrypt_matches(encode_utf8(req.password@), s.password_hash@)) ==> r is Ok,
        req.errors_spec().len() == 0 && (stored matches Some(s) && bcrypt_readable(s.password_hash@)
            && !bcrypt_matches(encode_utf8(req.password@), s.password_hash@)) ==> r matches Err(LoginError::WrongCredentials),
        req.errors_spec().len() == 0 && (stored matches Some(s) && !bcrypt_readable(s.password_hash@)) ==> r matches Err(LoginError::HashingError),
        req.errors_spec().len() == 0 && (stored matches Some(s) && !bcrypt_matches(encode_utf8(req.password@), s.password_hash@)) ==> r is Err,
{
    let errors = req.validate();
    if errors.len() > 0 {
        return Err(LoginError::Invalid(errors));
    }
    match stored {
        None => Err(LoginError::WrongCredentials),
        Some(s) => {
            let check = verify_password(req.password.as_str(), s.password_hash.as_str());
            finish_login(key, s, check, now)
        },
    }
}

// ---------------------------------------------------------------------------
// New accounts
// ---------------------------------------------------------------------------

/// An account ready to be stored: the password is already a digest.
pub struct NewAccount {
    pub name: String,
    pub email: String,
    pub password_hash: String,
    pub role: Option<RegRole>,
}

/// Why an account could not be prepared.
pub enum AccountError {
    Invalid(Vec<FieldError>),
    HashingError,
}

/// Prepares a self-registered account: the request must keep its field rules;
/// the password is stored only as a digest.
pub fn prepare_registration(req: &RegisterRequest) -> (r: Result<NewAccount, AccountError>)
    ensures
        req.errors_spec().len() > 0 ==> (r matches Err(AccountError::Invalid(e)) && errors_view(e@) == req.errors_spec()),
        r is Ok ==> req.errors_spec().len() == 0 && r->Ok_0.name@ == req.name@ && r->Ok_0.email@ == req.email@
            && r->Ok_0.role == req.role && bcrypt_matches(encode_utf8(req.password@), r->Ok_0.password_hash@),
        req.errors_spec().len() == 0 && r is Err ==> r matches Err(AccountError::HashingError),
{
    let errors = req.validate();
    if errors.len() > 0 {
        return Err(AccountError::Invalid(errors));
    }
    match hash_password(req.password.as_str()) {
        Ok(h) => Ok(NewAccount { name: req.name.clone(), email: req.email.clone(), password_hash: h, role: req.role }),
        Err(_) => Err(AccountError::HashingError),
    }
}

/// Prepares an account that an admin creates.
pub fn prepare_new_user(req: &UserNewRequest) -> (r: Result<NewAccount, AccountError>)
    ensures
        req.errors_spec().len() > 0 ==> (r matches Err(AccountError::Invalid(e)) && errors_view(e@) == req.errors_spec()),
        r is Ok ==> req.errors_spec().len() == 0 && r->Ok_0.name@ == req.name@ && r->Ok_0.email@ == req.email@
            && r->Ok_0.role is None && bcrypt_matches(encode_utf8(req.password@), r->Ok_0.password_hash@),
        req.errors_spec().len() == 0 && r is Err ==> r matches Err(AccountError::HashingError),
{
    let errors = req.validate();
    if errors.len() > 0 {
        return Err(AccountError::Invalid(errors));
    }
    match hash_password(req.password.as_str()) {
        Ok(h) => Ok(NewAccount { name: req.name.clone(), email: req.email.clone(), password_hash: h, role: None }),
        Err(_) => Err(AccountError::HashingError),
    }
}

/// What an update does with the password field: `None` or an empty text keeps
/// the stored digest; a text shorter than six characters is refused; any other
/// text is stored as a new digest.
pub fn prepare_password_update(password: &Option<String>) -> (r: Result<Option<String>, AccountError>)
    ensures
        match password {
            None => r matches Ok(None),
            Some(p) => if p@.len() == 0 {
                r matches Ok(None)
            } else if p@.len() < 6 {
                (r matches Err(AccountError::Invalid(e)) && errors_view(e@) == seq![("password"@, seq!["Password must be 6 characters"@])])
            } else {
                (r is Ok ==> (r->Ok_0 matches Some(h) && bcrypt_matches(encode_utf8(p@), h@)))
                && (r is Err ==> r matches Err(AccountError::HashingError))
            },
        },
{
    match password {
        None => Ok(None),
        Some(p) => {
            let n = p.unicode_len();
            if n == 0 {
                Ok(None)
            } else if n < 6 {
                let mut messages: Vec<String> = Vec::new();
                messages.push(String::from_str("Password must be 6 characters"));
                let e = FieldError { field: String::from_str("password"), messages };
                let mut errors: Vec<FieldError> = Vec::new();
                errors.push(e);
                assert(labels_view(e.messages@) =~= seq!["Password must be 6 characters"@]);
                assert(errors_view(errors@) =~= seq![("password"@, seq!["Password must be 6 characters"@])]);
                Err(AccountError::Invalid(errors))
            } else {
                match hash_password(p.as_str()) {
                    Ok(h) => Ok(Some(h)),
                    Err(_) => Err(AccountError::HashingError),
                }
            }
        },
    }
}

} // verus!
