use kost_management::accounts::{
    finish_login, hash_password, login, prepare_new_user, prepare_password_update, prepare_registration,
    verify_password, AccountError, HashingError, LoginError, StoredCredential,
};
use kost_management::gate::{admit_request, guard_ownership, owner_tier, AccessError};
use kost_management::schemas::{
    FieldError, KostNewRequest, KostUpdateRequest, LoginRequest, RegRole, RegisterRequest, RoomNewRequest,
    RoomStatus, RoomUpdateRequest, UserNewRequest,
};
use kost_management::token::{verify_token_at, SigningKey};

const NOW: u64 = 1_700_000_000;

fn errors(v: &[FieldError]) -> Vec<(String, Vec<String>)> {
    v.iter().map(|e| (e.field.clone(), e.messages.clone())).collect()
}

fn one(field: &str, message: &str) -> (String, Vec<String>) {
    (field.to_string(), vec![message.to_string()])
}

#[test]
fn kost_new_request_rules() {
    let good = KostNewRequest {
        kost_name: "Kost Melati".to_string(),
        kost_address: Some("Jl. Mawar 1".to_string()),
        kost_contact: "owner@example.com".to_string(),
        kost_desc: "Near campus".to_string(),
    };
    assert!(good.validate().is_empty());
    let bad = KostNewRequest {
        kost_name: "Ko".to_string(),
        kost_address: Some(String::new()),
        kost_contact: "not-an-email".to_string(),
        kost_desc: String::new(),
    };
    assert_eq!(
        errors(&bad.validate()),
        vec![
            one("kost_name", "Kost name must be more than 3 characters"),
            one("kost_address", "Kost address cannot be empty"),
            one("kost_contact", "Email is not valid"),
            one("kost_desc", "Kost description cannot be empty"),
        ]
    );
    let missing = KostNewRequest { kost_address: None, ..good };
    assert_eq!(errors(&missing.validate()), vec![("kost_address".to_string(), vec![])]);
}

#[test]
fn kost_update_request_rules() {
    let r = KostUpdateRequest {
        kost_name: "Abc".to_string(),
        kost_address: None,
        kost_contact: "anything".to_string(),
        kost_desc: "d".to_string(),
    };
    assert_eq!(errors(&r.validate()), vec![("kost_address".to_string(), vec![])]);
    let r = KostUpdateRequest { kost_name: "ab".to_string(), kost_address: Some(String::new()), ..r };
    assert_eq!(
        errors(&r.validate()),
        vec![
            one("kost_name", "Kost new name must be more than 3 characters"),
            one("kost_address", "Kost new address cannot be empty"),
        ]
    );
}

#[test]
fn name_length_counts_characters() {
    let r = RegisterRequest {
        name: "\u{e9}\u{e9}\u{e9}".to_string(),
        email: "a@b.co".to_string(),
        password: "secret1".to_string(),
        role: None,
    };
    assert!(r.validate().is_empty());
}

#[test]
fn login_request_rules() {
    let r = LoginRequest { email: "".to_string(), password: "12345".to_string() };
    assert_eq!(
        errors(&r.validate()),
        vec![one("email", "Email is not valid"), one("password", "Password must be 6 characters")]
    );
}

#[test]
fn register_and_user_requests_rules() {
    let r = RegisterRequest { name: "Al".to_string(), email: "al@x".to_string(), password: "123456".to_string(), role: Some(RegRole::OWNER) };
    assert_eq!(errors(&r.validate()), vec![one("name", "Name must be 3 characters or more")]);
    let u = UserNewRequest { name: "Al".to_string(), email: "no-at-sign".to_string(), password: "1".to_string() };
    assert_eq!(
        errors(&u.validate()),
        vec![
            one("name", "Name cannot be less than 3 characters"),
            one("email", "Email is not valid"),
            one("password", "Password must be 6 characters"),
        ]
    );
}

#[test]
fn room_request_rules_and_status_text() {
    let r = RoomNewRequest { room_number: 0, room_vacancy: RoomStatus::Available };
    assert_eq!(errors(&r.validate()), vec![one("room_number", "Room number cannot be empty")]);
    let r = RoomUpdateRequest { room_number: 12, room_vacancy: RoomStatus::Maintenance };
    assert!(r.validate().is_empty());
    for s in [RoomStatus::Available, RoomStatus::Occupied, RoomStatus::Maintenance] {
        assert_eq!(RoomStatus::from_text(s.as_text()), Some(s));
    }
    assert_eq!(RoomStatus::Occupied.as_text(), "OCCUPIED");
    assert_eq!(RoomStatus::from_text("Available"), None);
}

#[test]
fn password_hash_verifies() {
    let h = hash_password("correct horse").unwrap();
    assert_ne!(h, "correct horse");
    assert_eq!(verify_password("correct horse", &h), Ok(true));
    assert_eq!(verify_password("wrong horse", &h), Ok(false));
    assert_eq!(verify_password("x", "not a digest"), Err(HashingError::HashingError));
}

#[test]
fn finish_login_for_each_check_result() {
    let k = SigningKey::from_config(Some("s".to_string())).ok().unwrap();
    let stored = StoredCredential { user_id: 9, password_hash: String::new(), role: None, permissions: vec![] };
    let t = finish_login(&k, &stored, Ok(true), NOW).ok().unwrap();
    assert_eq!(verify_token_at(&k, &t, NOW).ok().unwrap().sub, 9);
    assert!(matches!(finish_login(&k, &stored, Ok(false), NOW), Err(LoginError::WrongCredentials)));
    assert!(matches!(finish_login(&k, &stored, Err(HashingError::HashingError), NOW), Err(LoginError::HashingError)));
    let odd = StoredCredential { user_id: 9, password_hash: String::new(), role: Some("\"".to_string()), permissions: vec![] };
    let t = finish_login(&k, &odd, Ok(true), NOW).ok().unwrap();
    assert_eq!(verify_token_at(&k, &t, NOW).ok().unwrap().role.as_deref(), Some("\""));
}

#[test]
fn login_refusals() {
    let k = SigningKey::from_config(Some("s".to_string())).ok().unwrap();
    let req = LoginRequest { email: "a@example.com".to_string(), password: "secret1".to_string() };
    assert!(matches!(login(&k, &req, None, NOW), Err(LoginError::WrongCredentials)));
    let bad = LoginRequest { email: "a".to_string(), password: "secret1".to_string() };
    match login(&k, &bad, None, NOW) {
        Err(LoginError::Invalid(e)) => assert_eq!(errors(&e), vec![one("email", "Email is not valid")]),
        _ => panic!("invalid request"),
    }
    let stored = StoredCredential { user_id: 1, password_hash: hash_password("other1").unwrap(), role: None, permissions: vec![] };
    assert!(matches!(login(&k, &req, Some(&stored), NOW), Err(LoginError::WrongCredentials)));
    let corrupt = StoredCredential { user_id: 1, password_hash: "$2b$10$short".to_string(), role: None, permissions: vec![] };
    assert!(matches!(login(&k, &req, Some(&corrupt), NOW), Err(LoginError::HashingError)));
    let right = StoredCredential { user_id: 1, password_hash: hash_password("secret1").unwrap(), role: None, permissions: vec![] };
    let t = login(&k, &req, Some(&right), NOW).ok().unwrap();
    assert_eq!(verify_token_at(&k, &t, NOW + 86399).ok().unwrap().sub, 1);
}

#[test]
fn prepared_accounts_hold_a_digest() {
    let r = RegisterRequest { name: "Alice".to_string(), email: "alice@example.com".to_string(), password: "secret1".to_string(), role: Some(RegRole::MEMBER) };
    let a = prepare_registration(&r).ok().unwrap();
    assert_eq!(a.name, "Alice");
    assert_eq!(a.email, "alice@example.com");
    assert_eq!(a.role, Some(RegRole::MEMBER));
    assert_eq!(verify_password("secret1", &a.password_hash), Ok(true));
    let bad = RegisterRequest { password: "short".to_string(), ..r };
    assert!(matches!(prepare_registration(&bad), Err(AccountError::Invalid(_))));
    let u = UserNewRequest { name: "Bob".to_string(), email: "bob@example.com".to_string(), password: "hunter22".to_string() };
    let a = prepare_new_user(&u).ok().unwrap();
    assert_eq!(a.role, None);
    assert_eq!(verify_password("hunter22", &a.password_hash), Ok(true));
}

#[test]
fn password_update_rule() {
    assert!(matches!(prepare_password_update(&None), Ok(None)));
    assert!(matches!(prepare_password_update(&Some(String::new())), Ok(None)));
    match prepare_password_update(&Some("abc".to_string())) {
        Err(AccountError::Invalid(e)) => assert_eq!(errors(&e), vec![one("password", "Password must be 6 characters")]),
        _ => panic!("short password"),
    }
    match prepare_password_update(&Some("abcdef".to_string())) {
        Ok(Some(h)) => assert_eq!(verify_password("abcdef", &h), Ok(true)),
        _ => panic!("new digest"),
    }
}

#[test]
fn owner_reads_own_kost_others_are_forbidden() {
    let k = SigningKey::from_config(Some("scenario".to_string())).ok().unwrap();
    let tier: Vec<String> = owner_tier().iter().map(|s| s.to_string()).collect();

    let reg_a = RegisterRequest { name: "Alice".to_string(), email: "alice@example.com".to_string(), password: "alice-pw".to_string(), role: Some(RegRole::OWNER) };
    let acct_a = prepare_registration(&reg_a).ok().unwrap();
    let alice_id: u128 = 0x1111;
    let stored_a = StoredCredential { user_id: alice_id, password_hash: acct_a.password_hash.clone(), role: Some("OWNER".to_string()), permissions: tier.clone() };
    let token_a = login(&k, &LoginRequest { email: acct_a.email.clone(), password: "alice-pw".to_string() }, Some(&stored_a), NOW).ok().unwrap();

    let bob_id: u128 = 0x2222;
    let stored_b = StoredCredential { user_id: bob_id, password_hash: hash_password("bob-pw-1").unwrap(), role: Some("OWNER".to_string()), permissions: tier.clone() };
    let token_b = login(&k, &LoginRequest { email: "bob@example.com".to_string(), password: "bob-pw-1".to_string() }, Some(&stored_b), NOW).ok().unwrap();

    let kost_owner = alice_id;
    let required = owner_tier();

    let b = admit_request(&k, Some(&format!("Bearer {}", token_b)), NOW + 5, &required).ok().unwrap();
    let answer = guard_ownership(&b, Some(kost_owner));
    assert_eq!(answer, Err(AccessError::Forbidden));
    assert_eq!(answer.unwrap_err().status_code(), 403);

    let a = admit_request(&k, Some(&format!("Bearer {}", token_a)), NOW + 5, &required).ok().unwrap();
    assert_eq!(guard_ownership(&a, Some(kost_owner)), Ok(()));

    let g = admit_request(&k, Some("Bearer garbage"), NOW + 5, &required);
    assert!(matches!(g, Err(AccessError::InvalidToken)));
    assert_eq!(AccessError::InvalidToken.status_code(), 401);
}
