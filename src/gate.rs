//! The request gates: authentication (bearer token to claims), authorization
//! (required permissions against the caller's), and the ownership guard that
//! handlers apply to a loaded resource.
use vstd::prelude::*;
use crate::claims::{Claims, ClaimsView, permission_set};
use crate::payload::match_literal;
use crate::token::{SigningKey, TokenError, verify_post, verify_token, verify_token_at, token_for};

verus! {

/// A refusal by the access-control core.
#[derive(Debug, Clone, Copy, PartialEq, Eq, Structural)]
pub enum AccessError {
    /// No `Authorization: Bearer …` header.
    MissingToken,
    /// The bearer token did not verify (bad signature, malformed or expired).
    InvalidToken,
    /// A later stage found no authenticated caller.
    Unauthenticated,
    /// The caller lacks a required permission or does not own the resource.
    Forbidden,
    /// The resource to guard does not exist.
    NotFound,
}

pub open spec fn status_of(e: AccessError) -> u16 {
    match e {
        AccessError::MissingToken => 401,
        AccessError::InvalidToken => 401,
        AccessError::Unauthenticated => 401,
        AccessError::Forbidden => 403,
        AccessError::NotFound => 404,
    }
}

impl AccessError {
    /// The HTTP status that answers this refusal.
    pub fn status_code(&self) -> (r: u16)
        ensures
            r == status_of(*self),
    {
        match self {
            AccessError::MissingToken => 401,
            AccessError::InvalidToken => 401,
            AccessError::Unauthenticated => 401,
            AccessError::Forbidden => 403,
            AccessError::NotFound => 404,
        }
    }
}

// ---------------------------------------------------------------------------
// Authentication
// ---------------------------------------------------------------------------

/// The token that an `Authorization` header value carries after the literal
/// prefix `Bearer `.
pub open spec fn bearer_of(header: Option<Seq<char>>) -> Option<Seq<char>> {
    match header {
        Some(h) => if h.len() >= 7 && h.take(7) == "Bearer "@ {
            Some(h.skip(7))
        } else {
            None
        },
        None => None,
    }
}

pub open spec fn header_view(header: Option<&str>) -> Option<Seq<char>> {
    match header {
        Some(h) => Some(h@),
        None => None,
    }
}

/// The bearer token of an `Authorization` header value.
pub fn bearer_token(header: Option<&str>) -> (r: Option<&str>)
    ensures
        header_view(r) == bearer_of(header_view(header)),
{
    proof {
        reveal_strlit("Bearer ");
    }
    match header {
        None => None,
        Some(h) => {
            let n = h.unicode_len();
            match match_literal(h, n, 0, "Bearer ") {
                Some(p) => {
                    assert(h@.subrange(0, 7) =~= h@.take(7));
                    let t = h.substring_char(p, n);
                    assert(t@ =~= h@.skip(7));
                    Some(t)
                },
                None => {
                    assert(h@.len() >= 7 ==> h@.subrange(0, 7) =~= h@.take(7));
                    None
                },
            }
        },
    }
}

/// The verification outcome that an authentication outcome stands for.
pub open spec fn as_token_result(r: Result<Claims, AccessError>) -> Result<ClaimsView, TokenError> {
    match r {
        Ok(c) => Ok(c@),
        Err(AccessError::InvalidToken) => Err(TokenError::InvalidToken),
        Err(_) => Err(TokenError::SigningError),
    }
}

/// What the authentication gate decides for an `Authorization` header at time `now`.
pub open spec fn authenticate_post(
    header: Option<Seq<char>>,
    key: Seq<char>,
    now: u64,
    r: Result<Claims, AccessError>,
) -> bool {
    match bearer_of(header) {
        None => r == Err::<Claims, AccessError>(AccessError::MissingToken),
        Some(t) => verify_post(t, key, now, as_token_result(r)),
    }
}

/// Authentication gate at time `now`: a missing header or prefix is
/// `MissingToken`; a token that does not verify is `InvalidToken`; otherwise
/// the token's claims, for the later stages of the request.
pub fn authenticate_at(key: &SigningKey, header: Option<&str>, now: u64) -> (r: Result<
    Claims,
    AccessError,
>)
    ensures
        authenticate_post(header_view(header), key@, now, r),
{
    match bearer_token(header) {
        None => Err(AccessError::MissingToken),
        Some(t) => match verify_token_at(key, t, now) {
            Ok(c) => Ok(c),
            Err(_) => Err(AccessError::InvalidToken),
        },
    }
}

/// Authentication gate against the current time.
pub fn authenticate(key: &SigningKey, header: Option<&str>) -> (r: Result<Claims, AccessError>)
    ensures
        bearer_of(header_view(header)) is None ==> r == Err::<Claims, AccessError>(
            AccessError::MissingToken,
        ),
        bearer_of(header_view(header)) matches Some(t) ==> {
            &&& r is Ok ==> token_for(t, r->Ok_0@, key@)
            &&& r is Err ==> r->Err_0 == AccessError::InvalidToken
        },
{
    match bearer_token(header) {
        None => Err(AccessError::MissingToken),
        Some(t) => match verify_token(key, t) {
            Ok(c) => Ok(c),
            Err(_) => Err(AccessError::InvalidToken),
        },
    }
}

// ---------------------------------------------------------------------------
// Authorization
// ---------------------------------------------------------------------------

pub open spec fn texts_view(v: Seq<&str>) -> Seq<Seq<char>> {
    v.map_values(|s: &str| s@)
}

/// The set of capability tokens that a requirement lists.
pub open spec fn required_set(v: Seq<&str>) -> Set<Seq<char>> {
    texts_view(v).to_set()
}

pub open spec fn owner_tier_spec() -> Seq<Seq<char>> {
    seq!["kost:create"@, "kost:update"@, "kost:delete"@, "kost:view"@]
}

pub open spec fn admin_tier_spec() -> Seq<Seq<char>> {
    seq![
        "kost:create"@,
        "kost:update"@,
        "kost:delete"@,
        "kost:view_all"@,
        "kost:view"@,
        "user:create"@,
        "user:update"@,
        "user:delete"@,
        "user:view"@,
    ]
}

/// The caller holds every permission of the admin tier.
pub open spec fn is_admin(c: ClaimsView) -> bool {
    admin_tier_spec().to_set().subset_of(permission_set(c))
}

/// The permissions that owner routes require.
pub fn owner_tier() -> (r: Vec<&'static str>)
    ensures
        texts_view(r@) == owner_tier_spec(),
{
    let mut v: Vec<&'static str> = Vec::new();
    v.push("kost:create");
    v.push("kost:update");
    v.push("kost:delete");
    v.push("kost:view");
    assert(texts_view(v@) =~= owner_tier_spec());
    v
}

/// The permissions that admin routes require: the owner tier and more.
pub fn admin_tier() -> (r: Vec<&'static str>)
    ensures
        texts_view(r@) == admin_tier_spec(),
{
    let mut v: Vec<&'static str> = Vec::new();
    v.push("kost:create");
    v.push("kost:update");
    v.push("kost:delete");
    v.push("kost:view_all");
    v.push("kost:view");
    v.push("user:create");
    v.push("user:update");
    v.push("user:delete");
    v.push("user:view");
    assert(texts_view(v@) =~= admin_tier_spec());
    v
}

pub(crate) fn same_text(a: &str, b: &str) -> (r: bool)
    ensures
        r == (a@ == b@),
{
    let n = a.unicode_len();
    if n != b.unicode_len() {
        return false;
    }
    let mut i: usize = 0;
    while i < n
        invariant
            n == a@.len(),
            n == b@.len(),
            i <= n,
            forall|k: int| 0 <= k < i ==> a@[k] == b@[k],
        decreases n - i,
    {
        if a.get_char(i) != b.get_char(i) {
            return false;
        }
        i = i + 1;
    }
    assert(a@ =~= b@);
    true
}

/// Whether the caller's list holds the capability token `p`.
fn holds(perms: &Vec<String>, p: &str) -> (r: bool)
    ensures
        r == crate::claims::labels_view(perms@).contains(p@),
{
    let mut i: usize = 0;
    while i < perms.len()
        invariant
            i <= perms@.len(),
            forall|k: int| 0 <= k < i ==> perms@[k]@ != p@,
        decreases perms@.len() - i,
    {
        if same_text(perms[i].as_str(), p) {
            assert(crate::claims::labels_view(perms@)[i as int] == p@);
            return true;
        }
        i = i + 1;
    }
    proof {
        if crate::claims::labels_view(perms@).contains(p@) {
            let k = choose|k: int| 0 <= k < perms@.len() && crate::claims::labels_view(perms@)[k] == p@;
            assert(perms@[k]@ == p@);
        }
    }
    false
}

/// Whether the caller holds every permission in `permits`.
pub fn has_permission(claims: &Claims, permits: &[&str]) -> (r: bool)
    ensures
        r == required_set(permits@).subset_of(permission_set(claims@)),
{
    let mut i: usize = 0;
    while i < permits.len()
        invariant
            i <= permits@.len(),
            forall|k: int| 0 <= k < i ==> permission_set(claims@).contains(#[trigger] permits@[k]@),
        decreases permits@.len() - i,
    {
        if !holds(&claims.permissions, permits[i]) {
            proof {
                assert(required_set(permits@).contains(permits@[i as int]@)) by {
                    assert(texts_view(permits@)[i as int] == permits@[i as int]@);
                }
            }
            return false;
        }
        i = i + 1;
    }
    proof {
        assert forall|x: Seq<char>| required_set(permits@).contains(x) implies permission_set(claims@).contains(x) by {
            let k = choose|k: int| 0 <= k < texts_view(permits@).len() && texts_view(permits@)[k] == x;
            assert(permission_set(claims@).contains(permits@[k]@));
        }
    }
    true
}

pub open spec fn claims_view(claims: Option<&Claims>) -> Option<ClaimsView> {
    match claims {
        Some(c) => Some(c@),
        None => None,
    }
}

/// What the authorization gate decides: no caller is `Unauthenticated`; a
/// caller passes exactly when it holds every required permission, and is
/// otherwise `Forbidden`.
pub open spec fn gate_post(
    claims: Option<ClaimsView>,
    required: Set<Seq<char>>,
    r: Result<(), AccessError>,
) -> bool {
    match claims {
        None => r == Err::<(), AccessError>(AccessError::Unauthenticated),
        Some(c) => if required.subset_of(permission_set(c)) {
            r == Ok::<(), AccessError>(())
        } else {
            r == Err::<(), AccessError>(AccessError::Forbidden)
        },
    }
}

/// Authorization gate for a route that requires `required`.
pub fn require_permission(claims: Option<&Claims>, required: &[&str]) -> (r: Result<(), AccessError>)
    ensures
        gate_post(claims_view(claims), required_set(required@), r),
{
    match claims {
        None => Err(AccessError::Unauthenticated),
        Some(c) => {
            if has_permission(c, required) {
                Ok(())
            } else {
                Err(AccessError::Forbidden)
            }
        },
    }
}

/// Authorization gate of the owner routes.
pub fn require_permission_owner(claims: Option<&Claims>) -> (r: Result<(), AccessError>)
    ensures
        gate_post(claims_view(claims), owner_tier_spec().to_set(), r),
{
    let tier = owner_tier();
    let r = require_permission(claims, tier.as_slice());
    assert(required_set(tier@) == owner_tier_spec().to_set());
    r
}

/// Authorization gate of the admin routes.
pub fn require_permission_admin(claims: Option<&Claims>) -> (r: Result<(), AccessError>)
    ensures
        gate_post(claims_view(claims), admin_tier_spec().to_set(), r),
{
    let tier = admin_tier();
    let r = require_permission(claims, tier.as_slice());
    assert(required_set(tier@) == admin_tier_spec().to_set());
    r
}

/// A caller with claims gets through exactly when every required permission
/// is among its own; nothing required lets every such caller through.
pub proof fn law_permission_superset(
    required: Set<Seq<char>>,
    c: ClaimsView,
    r: Result<(), AccessError>,
)
    requires
        gate_post(Some(c), required, r),
    ensures
        r is Ok <==> required.subset_of(permission_set(c)),
        r is Err ==> r == Err::<(), AccessError>(AccessError::Forbidden),
        required == Set::<Seq<char>>::empty() ==> r is Ok,
{
}

// ---------------------------------------------------------------------------
// The request pipeline
// ---------------------------------------------------------------------------

/// Runs the gates of a route at time `now`: authentication, then the route's
/// requirement. Only an `Ok` lets the request reach its handler, so a request
/// without a bearer token is refused before any handler or store is reached.
pub fn admit_request(key: &SigningKey, header: Option<&str>, now: u64, required: &[&str]) -> (r: Result<Claims, AccessError>)
    ensures
        bearer_of(header_view(header)) is None ==> r == Err::<Claims, AccessError>(AccessError::MissingToken),
        bearer_of(header_view(header)) matches Some(t) ==> {
            &&& (forall|c: ClaimsView| !(#[trigger] token_for(t, c, key@) && now < c.exp)) ==> r
                == Err::<Claims, AccessError>(AccessError::InvalidToken)
            &&& forall|c: ClaimsView| #[trigger] token_for(t, c, key@) && now < c.exp ==> if required_set(required@).subset_of(permission_set(c)) {
                r is Ok && r->Ok_0@ == c
            } else {
                r == Err::<Claims, AccessError>(AccessError::Forbidden)
            }
        },
{
    let claims = match authenticate_at(key, header, now) {
        Ok(c) => c,
        Err(e) => {
            return Err(e);
        },
    };
    match require_permission(Some(&claims), required) {
        Ok(()) => Ok(claims),
        Err(e) => Err(e),
    }
}

// ---------------------------------------------------------------------------
// Ownership
// ---------------------------------------------------------------------------

/// What the ownership guard decides for a caller and the owner of the loaded
/// resource (`None` where no resource was found).
pub open spec fn ownership_post(c: ClaimsView, owner: Option<u128>, r: Result<(), AccessError>) -> bool {
    match owner {
        None => r == Err::<(), AccessError>(AccessError::NotFound),
        Some(o) => if o == c.sub || is_admin(c) {
            r == Ok::<(), AccessError>(())
        } else {
            r == Err::<(), AccessError>(AccessError::Forbidden)
        },
    }
}

/// Ownership guard: a missing resource is `NotFound`; its owner, or a caller
/// with the admin tier, passes; anyone else is `Forbidden`.
pub fn guard_ownership(claims: &Claims, owner: Option<u128>) -> (r: Result<(), AccessError>)
    ensures
        ownership_post(claims@, owner, r),
{
    match owner {
        None => Err(AccessError::NotFound),
        Some(o) => {
            if o == claims.sub {
                Ok(())
            } else {
                let tier = admin_tier();
                if has_permission(claims, tier.as_slice()) {
                    Ok(())
                } else {
                    Err(AccessError::Forbidden)
                }
            }
        },
    }
}

/// For a resource with owner `owner`, the owner and any
/// admin-tier caller pass; every other authenticated caller is refused with
/// `Forbidden`, never `Unauthenticated`.
pub proof fn law_ownership(owner: u128, c: ClaimsView, r: Result<(), AccessError>)
    requires
        ownership_post(c, Some(owner), r),
    ensures
        (c.sub == owner || is_admin(c)) ==> r is Ok,
        !(c.sub == owner || is_admin(c)) ==> r == Err::<(), AccessError>(AccessError::Forbidden),
        r != Err::<(), AccessError>(AccessError::Unauthenticated),
{
}

/// Which kosts a listing shows to a caller.
#[derive(Debug, Clone, Copy, PartialEq, Eq, Structural)]
pub enum ListScope {
    /// Every kost: the caller's role is `ADMIN`.
    All,
    /// Only the kosts of this owner.
    OwnedBy(u128),
}

/// The listing scope of a caller: everything for role `ADMIN`, else the caller's own.
pub fn listing_scope(claims: &Claims) -> (r: ListScope)
    ensures
        r == (if claims@.role == Some("ADMIN"@) {
            ListScope::All
        } else {
            ListScope::OwnedBy(claims.sub)
        }),
{
    match &claims.role {
        Some(role) => {
            if same_text(role.as_str(), "ADMIN") {
                ListScope::All
            } else {
                ListScope::OwnedBy(claims.sub)
            }
        },
        None => ListScope::OwnedBy(claims.sub),
    }
}

} // verus!
