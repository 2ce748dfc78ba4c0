use kost_management::claims::Claims;
use kost_management::gate::{
    admin_tier, admit_request, authenticate, authenticate_at, bearer_token, guard_ownership, has_permission,
    listing_scope, owner_tier, require_permission, require_permission_admin, require_permission_owner,
    AccessError, ListScope,
};
use kost_management::token::{issue_token, SigningKey};

const NOW: u64 = 1_700_000_000;
const ALICE: u128 = 0xa11ce;
const BOB: u128 = 0xb0b;

fn key() -> SigningKey {
    SigningKey::from_config(Some("gate-secret".to_string())).ok().unwrap()
}

fn claims(sub: u128, role: Option<&str>, p: &[&str]) -> Claims {
    Claims {
        sub,
        exp: NOW + 100,
        role: role.map(|r| r.to_string()),
        permissions: p.iter().map(|s| s.to_string()).collect(),
    }
}

const OWNER: [&str; 4] = ["kost:create", "kost:update", "kost:delete", "kost:view"];
const ADMIN: [&str; 9] = [
    "kost:create",
    "kost:update",
    "kost:delete",
    "kost:view_all",
    "kost:view",
    "user:create",
    "user:update",
    "user:delete",
    "user:view",
];

#[test]
fn bearer_prefix_is_required() {
    assert_eq!(bearer_token(None), None);
    assert_eq!(bearer_token(Some("Bearer abc")), Some("abc"));
    assert_eq!(bearer_token(Some("Bearer ")), Some(""));
    assert_eq!(bearer_token(Some("Bearer")), None);
    assert_eq!(bearer_token(Some("bearer abc")), None);
    assert_eq!(bearer_token(Some("Basic abc")), None);
}

#[test]
fn missing_header_is_missing_token() {
    let k = key();
    assert!(matches!(authenticate_at(&k, None, NOW), Err(AccessError::MissingToken)));
    assert!(matches!(authenticate_at(&k, Some("Token abc"), NOW), Err(AccessError::MissingToken)));
    assert!(matches!(authenticate(&k, None), Err(AccessError::MissingToken)));
    assert_eq!(AccessError::MissingToken.status_code(), 401);
}

#[test]
fn garbage_bearer_is_invalid_token() {
    let k = key();
    assert!(matches!(authenticate_at(&k, Some("Bearer garbage"), NOW), Err(AccessError::InvalidToken)));
    assert!(matches!(authenticate(&k, Some("Bearer garbage")), Err(AccessError::InvalidToken)));
    assert_eq!(AccessError::InvalidToken.status_code(), 401);
}

#[test]
fn valid_bearer_yields_claims() {
    let k = key();
    let t = issue_token(&k, ALICE, None, vec!["kost:view".to_string()], NOW).unwrap();
    let header = format!("Bearer {}", t);
    let c = authenticate_at(&k, Some(&header), NOW + 1).ok().unwrap();
    assert_eq!(c.sub, ALICE);
    assert_eq!(c.permissions, vec!["kost:view".to_string()]);
}

#[test]
fn tiers_hold_their_permissions() {
    assert_eq!(owner_tier(), OWNER.to_vec());
    assert_eq!(admin_tier(), ADMIN.to_vec());
}

#[test]
fn superset_law_on_examples() {
    let c = claims(ALICE, None, &["a", "b", "c"]);
    assert!(has_permission(&c, &[]));
    assert!(has_permission(&c, &["a"]));
    assert!(has_permission(&c, &["c", "a", "a"]));
    assert!(!has_permission(&c, &["a", "d"]));
    let nobody = claims(BOB, None, &[]);
    assert!(has_permission(&nobody, &[]));
    assert!(!has_permission(&nobody, &["a"]));
    assert!(require_permission(Some(&c), &["b"]).is_ok());
    assert!(require_permission(Some(&nobody), &[]).is_ok());
    assert_eq!(require_permission(Some(&c), &["x"]), Err(AccessError::Forbidden));
}

#[test]
fn missing_claims_are_unauthenticated() {
    assert_eq!(require_permission(None, &[]), Err(AccessError::Unauthenticated));
    assert_eq!(require_permission_owner(None), Err(AccessError::Unauthenticated));
    assert_eq!(require_permission_admin(None), Err(AccessError::Unauthenticated));
    assert_eq!(AccessError::Unauthenticated.status_code(), 401);
}

#[test]
fn owner_and_admin_tiers() {
    let owner = claims(ALICE, None, &OWNER);
    let admin = claims(BOB, Some("ADMIN"), &ADMIN);
    let member = claims(BOB, None, &["kost:view"]);
    assert!(require_permission_owner(Some(&owner)).is_ok());
    assert_eq!(require_permission_admin(Some(&owner)), Err(AccessError::Forbidden));
    assert!(require_permission_owner(Some(&admin)).is_ok());
    assert!(require_permission_admin(Some(&admin)).is_ok());
    assert_eq!(require_permission_owner(Some(&member)), Err(AccessError::Forbidden));
    assert_eq!(AccessError::Forbidden.status_code(), 403);
}

#[test]
fn ownership_law_on_examples() {
    let owner = claims(ALICE, None, &OWNER);
    let admin = claims(BOB, Some("ADMIN"), &ADMIN);
    let other = claims(BOB, None, &OWNER);
    assert!(guard_ownership(&owner, Some(ALICE)).is_ok());
    assert!(guard_ownership(&admin, Some(ALICE)).is_ok());
    assert_eq!(guard_ownership(&other, Some(ALICE)), Err(AccessError::Forbidden));
    assert_eq!(guard_ownership(&owner, None), Err(AccessError::NotFound));
    assert_eq!(AccessError::NotFound.status_code(), 404);
    let role_only = claims(BOB, Some("ADMIN"), &[]);
    assert_eq!(guard_ownership(&role_only, Some(ALICE)), Err(AccessError::Forbidden));
}

#[test]
fn listing_scope_by_role() {
    assert_eq!(listing_scope(&claims(BOB, Some("ADMIN"), &[])), ListScope::All);
    assert_eq!(listing_scope(&claims(ALICE, Some("OWNER"), &[])), ListScope::OwnedBy(ALICE));
    assert_eq!(listing_scope(&claims(ALICE, None, &[])), ListScope::OwnedBy(ALICE));
    assert_eq!(listing_scope(&claims(ALICE, Some("admin"), &[])), ListScope::OwnedBy(ALICE));
}

#[test]
fn request_without_header_never_reaches_a_handler() {
    let k = key();
    let mut store_calls = 0;
    for header in [None, Some("Basic x"), Some("Bearer garbage")] {
        if admit_request(&k, header, NOW, &OWNER).is_ok() {
            store_calls += 1;
        }
    }
    assert_eq!(store_calls, 0);
    assert!(matches!(admit_request(&k, None, NOW, &[]), Err(AccessError::MissingToken)));
}

#[test]
fn admit_checks_token_then_requirement() {
    let k = key();
    let t = issue_token(&k, ALICE, None, vec!["kost:view".to_string()], NOW).unwrap();
    let header = format!("Bearer {}", t);
    assert!(admit_request(&k, Some(&header), NOW, &["kost:view"]).is_ok());
    assert!(matches!(admit_request(&k, Some(&header), NOW, &OWNER), Err(AccessError::Forbidden)));
    assert!(matches!(admit_request(&k, Some(&header), NOW + 86400, &[]), Err(AccessError::InvalidToken)));
}
