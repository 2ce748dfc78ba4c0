use kost_management::claims::Claims;
use kost_management::payload::{decode_claims, encode_claims, format_uuid};
use kost_management::token::{
    generate_token, issue_token, verify_token, verify_token_at, ConfigError, SigningKey, TokenError,
    TOKEN_LIFETIME_SECS,
};

const SUB: u128 = 0x67e5_5044_10b1_426f_9247_bb68_0e5f_e0c8;
const NOW: u64 = 1_700_000_000;

fn key(secret: &str) -> SigningKey {
    match SigningKey::from_config(Some(secret.to_string())) {
        Ok(k) => k,
        Err(_) => panic!("a non-empty secret is accepted"),
    }
}

fn perms(v: &[&str]) -> Vec<String> {
    v.iter().map(|s| s.to_string()).collect()
}

fn issue(k: &SigningKey, role: Option<&str>, p: &[&str], now: u64) -> String {
    issue_token(k, SUB, role.map(|r| r.to_string()), perms(p), now).expect("claims are signed")
}

#[test]
fn round_trip_returns_the_issued_claims() {
    let k = key("top-secret");
    let t = issue(&k, Some("ADMIN"), &["kost:create", "kost:view"], NOW);
    let c = verify_token_at(&k, &t, NOW + 10).expect("fresh token verifies");
    assert_eq!(c.sub, SUB);
    assert_eq!(c.role.as_deref(), Some("ADMIN"));
    assert_eq!(c.permissions, perms(&["kost:create", "kost:view"]));
    assert_eq!(c.exp, NOW + TOKEN_LIFETIME_SECS);
    assert_eq!(c.exp, NOW + 86400);
}

#[test]
fn round_trip_without_role_and_permissions() {
    let k = key("k");
    let t = issue(&k, None, &[], NOW);
    let c = verify_token_at(&k, &t, NOW).expect("fresh token verifies");
    assert_eq!(c.sub, SUB);
    assert_eq!(c.role, None);
    assert!(c.permissions.is_empty());
}

#[test]
fn expiry_boundary_one_second_either_side() {
    let k = key("top-secret");
    let t = issue(&k, None, &["kost:view"], NOW);
    let exp = NOW + TOKEN_LIFETIME_SECS;
    assert!(verify_token_at(&k, &t, exp - 1).is_ok());
    assert!(matches!(verify_token_at(&k, &t, exp), Err(TokenError::InvalidToken)));
    assert!(matches!(verify_token_at(&k, &t, exp + 1), Err(TokenError::InvalidToken)));
}

fn flip(c: char) -> char {
    if c == 'A' {
        'B'
    } else {
        'A'
    }
}

#[test]
fn flipping_any_payload_character_is_detected() {
    let k = key("top-secret");
    let t = issue(&k, Some("OWNER"), &["kost:create"], NOW);
    let chars: Vec<char> = t.chars().collect();
    let first = t.find('.').unwrap();
    let second = first + 1 + t[first + 1..].find('.').unwrap();
    for i in first + 1..second {
        let mut v = chars.clone();
        v[i] = flip(v[i]);
        let tampered: String = v.into_iter().collect();
        assert!(matches!(verify_token_at(&k, &tampered, NOW), Err(TokenError::InvalidToken)), "index {}", i);
    }
}

#[test]
fn flipping_any_signature_character_is_detected() {
    let k = key("top-secret");
    let t = issue(&k, Some("OWNER"), &["kost:create"], NOW);
    let chars: Vec<char> = t.chars().collect();
    let second = t.rfind('.').unwrap();
    for i in second + 1..chars.len() {
        let mut v = chars.clone();
        v[i] = flip(v[i]);
        let tampered: String = v.into_iter().collect();
        assert!(matches!(verify_token_at(&k, &tampered, NOW), Err(TokenError::InvalidToken)), "index {}", i);
    }
}

#[test]
fn another_key_is_refused() {
    let t = issue(&key("one"), None, &[], NOW);
    assert!(matches!(verify_token_at(&key("two"), &t, NOW), Err(TokenError::InvalidToken)));
}

#[test]
fn unsigned_header_is_refused() {
    let k = key("top-secret");
    let t = issue(&k, None, &[], NOW);
    let rest = &t[t.find('.').unwrap()..];
    let none_header = "eyJ0eXAiOiJKV1QiLCJhbGciOiJub25lIn0";
    let forged = format!("{}{}", none_header, rest);
    assert!(matches!(verify_token_at(&k, &forged, NOW), Err(TokenError::InvalidToken)));
    let bare = format!("{}.", &t[..t.rfind('.').unwrap()]);
    assert!(matches!(verify_token_at(&k, &bare, NOW), Err(TokenError::InvalidToken)));
}

#[test]
fn malformed_tokens_are_invalid() {
    let k = key("top-secret");
    for t in ["garbage", "", "a.b", "a.b.c", "a.b.c.d", "..", "...."] {
        assert!(matches!(verify_token_at(&k, t, NOW), Err(TokenError::InvalidToken)), "{}", t);
    }
    let good = issue(&k, None, &[], NOW);
    let extra = format!("{}.x", good);
    assert!(matches!(verify_token_at(&k, &extra, NOW), Err(TokenError::InvalidToken)));
}

#[test]
fn header_segment_is_the_standard_one() {
    let t = issue(&key("s"), None, &[], NOW);
    assert!(t.starts_with("eyJ0eXAiOiJKV1QiLCJhbGciOiJIUzI1NiJ9."));
    assert_eq!(t.matches('.').count(), 2);
}

#[test]
fn tokens_decode_with_jsonwebtoken() {
    let k = key("interop-secret");
    let t = generate_token(&k, SUB, Some("ADMIN".to_string()), perms(&["user:view"])).expect("signed");
    let mut validation = jsonwebtoken::Validation::new(jsonwebtoken::Algorithm::HS256);
    validation.leeway = 0;
    let data = jsonwebtoken::decode::<serde_json::Value>(
        &t,
        &jsonwebtoken::DecodingKey::from_secret(b"interop-secret"),
        &validation,
    )
    .expect("jsonwebtoken accepts the token");
    let expected_sub = uuid::Uuid::from_u128(SUB).to_string();
    assert_eq!(data.claims.get("sub").and_then(|v| v.as_str()), Some(expected_sub.as_str()));
    assert_eq!(data.claims.get("role").and_then(|v| v.as_str()), Some("ADMIN"));
    let c = verify_token(&k, &t).expect("verifies now");
    assert_eq!(c.sub, SUB);
}

#[test]
fn generated_token_expires_a_day_after_now() {
    let k = key("clock");
    let before = std::time::SystemTime::now().duration_since(std::time::UNIX_EPOCH).unwrap().as_secs();
    let t = generate_token(&k, 7, None, vec![]).expect("signed");
    let after = std::time::SystemTime::now().duration_since(std::time::UNIX_EPOCH).unwrap().as_secs();
    let c = verify_token_at(&k, &t, before).expect("valid");
    assert!(c.exp >= before + 86400 && c.exp <= after + 86400);
}

#[test]
fn any_role_and_permission_text_round_trips() {
    let k = key("s");
    let role = "AD\"M\\IN\n\u{1}\u{7f} caf\u{e9} \u{1F600}";
    let p = ["kost:\"view", "", "tab\there", "\\", "\u{0}"];
    let t = issue(&k, Some(role), &p, NOW);
    let c = verify_token_at(&k, &t, NOW).expect("verifies");
    assert_eq!(c.role.as_deref(), Some(role));
    assert_eq!(c.permissions, perms(&p));
}

#[test]
fn escaped_texts_read_back_with_serde_json() {
    let k = key("interop-secret");
    let role = "a\"b\\c\nd\u{1f}\u{e9}";
    let t = generate_token(&k, SUB, Some(role.to_string()), perms(&["x\"y"])).expect("signed");
    let mut validation = jsonwebtoken::Validation::new(jsonwebtoken::Algorithm::HS256);
    validation.leeway = 0;
    let data = jsonwebtoken::decode::<serde_json::Value>(
        &t,
        &jsonwebtoken::DecodingKey::from_secret(b"interop-secret"),
        &validation,
    )
    .expect("jsonwebtoken accepts the token");
    assert_eq!(data.claims.get("role").and_then(|v| v.as_str()), Some(role));
    assert_eq!(data.claims["permissions"][0].as_str(), Some("x\"y"));
}

#[test]
fn payload_escapes_quotes_backslashes_and_controls() {
    let c = Claims { sub: 0, exp: 1, role: Some("a\"b\\c\n\u{1f}\u{e9}".to_string()), permissions: vec![] };
    assert_eq!(
        encode_claims(&c),
        "{\"sub\":\"00000000-0000-0000-0000-000000000000\",\"exp\":1,\"role\":\"a\\\"b\\\\c\\u000a\\u001f\u{e9}\",\"permissions\":[]}"
    );
    let back = decode_claims(&encode_claims(&c)).expect("reads back");
    assert_eq!(back.role, c.role);
}

#[test]
fn missing_or_empty_secret_is_a_configuration_error() {
    assert!(matches!(SigningKey::from_config(None), Err(ConfigError::MissingSecret)));
    assert!(matches!(SigningKey::from_config(Some(String::new())), Err(ConfigError::MissingSecret)));
    assert!(SigningKey::from_config(Some("x".to_string())).is_ok());
}

#[test]
fn payload_text_is_compact_json() {
    let c = Claims {
        sub: SUB,
        exp: 1_700_086_400,
        role: None,
        permissions: perms(&["kost:view", "kost:create"]),
    };
    assert_eq!(
        encode_claims(&c),
        "{\"sub\":\"67e55044-10b1-426f-9247-bb680e5fe0c8\",\"exp\":1700086400,\"role\":null,\"permissions\":[\"kost:view\",\"kost:create\"]}"
    );
    let c = Claims { sub: 0, exp: 0, role: Some("ADMIN".to_string()), permissions: vec![] };
    assert_eq!(
        encode_claims(&c),
        "{\"sub\":\"00000000-0000-0000-0000-000000000000\",\"exp\":0,\"role\":\"ADMIN\",\"permissions\":[]}"
    );
}

#[test]
fn payload_text_reads_back() {
    let c = Claims { sub: u128::MAX, exp: u64::MAX, role: Some("x y".to_string()), permissions: perms(&["a", "", "b:c"]) };
    let text = encode_claims(&c);
    let back = decode_claims(&text).expect("reads back");
    assert_eq!(back.sub, c.sub);
    assert_eq!(back.exp, c.exp);
    assert_eq!(back.role, c.role);
    assert_eq!(back.permissions, c.permissions);
}

#[test]
fn payload_text_must_be_canonical() {
    let ok = "{\"sub\":\"67e55044-10b1-426f-9247-bb680e5fe0c8\",\"exp\":5,\"role\":null,\"permissions\":[]}";
    assert!(decode_claims(&ok.to_string()).is_some());
    for bad in [
        "{\"sub\":\"67e55044-10b1-426f-9247-bb680e5fe0c8\",\"exp\":5,\"role\":\"\\n\",\"permissions\":[]}",
        "{\"sub\":\"67e55044-10b1-426f-9247-bb680e5fe0c8\",\"exp\":5,\"role\":\"\\u000A\",\"permissions\":[]}",
        "{\"sub\":\"67e55044-10b1-426f-9247-bb680e5fe0c8\",\"exp\":5,\"role\":\"\\u0041\",\"permissions\":[]}",
        "{\"sub\":\"67e55044-10b1-426f-9247-bb680e5fe0c8\",\"exp\":05,\"role\":null,\"permissions\":[]}",
        "{\"sub\":\"67E55044-10B1-426F-9247-BB680E5FE0C8\",\"exp\":5,\"role\":null,\"permissions\":[]}",
        "{\"sub\":\"67e5504410b1426f9247bb680e5fe0c8\",\"exp\":5,\"role\":null,\"permissions\":[]}",
        "{\"sub\":\"67e55044-10b1-426f-9247-bb680e5fe0c8\", \"exp\":5,\"role\":null,\"permissions\":[]}",
        "{\"sub\":\"67e55044-10b1-426f-9247-bb680e5fe0c8\",\"exp\":18446744073709551616,\"role\":null,\"permissions\":[]}",
        "{\"sub\":\"67e55044-10b1-426f-9247-bb680e5fe0c8\",\"exp\":5,\"role\":null,\"permissions\":[]}x",
        "{\"sub\":\"67e55044-10b1-426f-9247-bb680e5fe0c8\",\"exp\":5,\"role\":null,\"permissions\":[,]}",
    ] {
        assert!(decode_claims(&bad.to_string()).is_none(), "{}", bad);
    }
}

#[test]
fn user_id_text_matches_uuid_crate() {
    for v in [0u128, 1, SUB, u128::MAX, 0x0123_4567_89ab_cdef_fedc_ba98_7654_3210] {
        assert_eq!(format_uuid(v), uuid::Uuid::from_u128(v).hyphenated().to_string());
    }
}
