use leit::auth::{
    common_headers, parse_refresh_response, refresh_token_request, session_from_tokens,
    SupabaseConfig,
};
use leit::base64::base64_decode;
use leit::jwt::{email_from_jwt, is_jwt_expired, is_jwt_expired_at, user_id_from_jwt};

// All test JWTs use a fake signature; signatures are never checked.
// Payloads are real base64url-encoded JSON.

// Payload: {"sub":"12345678-abcd-1234-abcd-123456789abc","role":"authenticated"}
const JWT_WITH_SUB: &str = "eyJhbGciOiJIUzI1NiIsInR5cCI6IkpXVCJ9\
     .eyJzdWIiOiIxMjM0NTY3OC1hYmNkLTEyMzQtYWJjZC0xMjM0NTY3ODlhYmMiLCJyb2xlIjoiYXV0aGVudGljYXRlZCJ9\
     .fake_signature";

// Payload: {"sub":"user-abc","email":"test@example.com","exp":9999999999}
const JWT_NOT_EXPIRED: &str = "eyJhbGciOiJIUzI1NiIsInR5cCI6IkpXVCJ9\
     .eyJzdWIiOiJ1c2VyLWFiYyIsImVtYWlsIjoidGVzdEBleGFtcGxlLmNvbSIsImV4cCI6OTk5OTk5OTk5OX0\
     .fake_sig";

// Payload: {"sub":"user-abc","email":"test@example.com","exp":1}
const JWT_EXPIRED: &str = "eyJhbGciOiJIUzI1NiIsInR5cCI6IkpXVCJ9\
     .eyJzdWIiOiJ1c2VyLWFiYyIsImVtYWlsIjoidGVzdEBleGFtcGxlLmNvbSIsImV4cCI6MX0\
     .fake_sig";

// Payload: {"sub":"user-abc"} (no exp claim)
const JWT_NO_EXP: &str = "eyJhbGciOiJIUzI1NiIsInR5cCI6IkpXVCJ9\
     .eyJzdWIiOiJ1c2VyLWFiYyJ9\
     .fake_sig";

fn json_object(pairs: &[(&str, &str)]) -> serde_json::Value {
    let mut map = serde_json::Map::new();
    for (k, v) in pairs {
        map.insert(k.to_string(), serde_json::Value::String(v.to_string()));
    }
    serde_json::Value::Object(map)
}

// --- user_id_from_jwt ---

#[test]
fn test_user_id_from_jwt() {
    let uid = user_id_from_jwt(JWT_WITH_SUB);
    assert_eq!(uid, Some("12345678-abcd-1234-abcd-123456789abc".to_string()));
}

#[test]
fn test_user_id_from_invalid_jwt() {
    assert_eq!(user_id_from_jwt("not-a-jwt"), None);
    assert_eq!(user_id_from_jwt(""), None);
}

#[test]
fn user_id_from_jwt_two_parts_only_returns_none() {
    assert_eq!(None, user_id_from_jwt("header.payload"));
}

// --- email_from_jwt ---

#[test]
fn email_from_jwt_with_email_claim() {
    let email = email_from_jwt(JWT_NOT_EXPIRED);
    assert_eq!(Some("test@example.com".to_string()), email);
}

#[test]
fn email_from_jwt_without_email_claim_returns_none() {
    let email = email_from_jwt(JWT_WITH_SUB);
    assert_eq!(None, email);
}

#[test]
fn email_from_jwt_invalid_token_returns_none() {
    assert_eq!(None, email_from_jwt("not.a.token"));
}

// --- is_jwt_expired ---

#[test]
fn is_jwt_expired_far_future_exp_returns_false() {
    assert!(!is_jwt_expired(JWT_NOT_EXPIRED));
}

#[test]
fn is_jwt_expired_past_exp_returns_true() {
    assert!(is_jwt_expired(JWT_EXPIRED));
}

#[test]
fn is_jwt_expired_no_exp_claim_returns_true() {
    assert!(is_jwt_expired(JWT_NO_EXP));
}

#[test]
fn is_jwt_expired_malformed_token_returns_true() {
    assert!(is_jwt_expired("not-a-token"));
    assert!(is_jwt_expired(""));
    assert!(is_jwt_expired("only.two-parts"));
}

#[test]
fn is_jwt_expired_invalid_base64_payload_returns_true() {
    assert!(is_jwt_expired("header.!!!invalid!!!.sig"));
}

// --- parse_refresh_response ---

#[test]
fn parse_refresh_response_with_all_fields() {
    let json = json_object(&[
        ("access_token", JWT_NOT_EXPIRED),
        ("refresh_token", "new_refresh_token_xyz"),
    ]);
    let session = parse_refresh_response(&json, "old_refresh_token").unwrap();
    assert_eq!(JWT_NOT_EXPIRED, session.access_token);
    assert_eq!("new_refresh_token_xyz", session.refresh_token);
    assert_eq!("user-abc", session.user_id);
    assert_eq!("test@example.com", session.email);
}

#[test]
fn parse_refresh_response_falls_back_to_old_refresh_token_when_missing() {
    let json = json_object(&[("access_token", JWT_NOT_EXPIRED)]);
    let session = parse_refresh_response(&json, "old_refresh_token").unwrap();
    assert_eq!("old_refresh_token", session.refresh_token);
}

#[test]
fn parse_refresh_response_missing_access_token_returns_none() {
    let json = json_object(&[("refresh_token", "some_refresh")]);
    assert!(parse_refresh_response(&json, "old").is_none());
}

#[test]
fn parse_refresh_response_invalid_access_token_no_sub_returns_none() {
    let json = json_object(&[
        ("access_token", "header.payload.sig"),
        ("refresh_token", "some_refresh"),
    ]);
    assert!(parse_refresh_response(&json, "old").is_none());
}

#[test]
fn parse_refresh_response_empty_json_returns_none() {
    let json = json_object(&[]);
    assert!(parse_refresh_response(&json, "old").is_none());
}

// --- request builders ---

#[test]
fn refresh_token_request_uses_correct_url_and_body() {
    let config = SupabaseConfig {
        base_url: "https://example.supabase.co".to_string(),
        anon_key: "anon-key-xyz".to_string(),
    };
    let req = refresh_token_request(&config, "refresh-abc");
    assert_eq!(req.url, "https://example.supabase.co/auth/v1/token?grant_type=refresh_token");
    assert_eq!(req.method, "POST");
    assert_eq!(req.body.as_deref(), Some(r#"{"refresh_token":"refresh-abc"}"#));
    assert!(req.headers.iter().any(|(k, v)| k == "apikey" && v == "anon-key-xyz"));
    assert!(req.headers.iter().any(|(k, v)| k == "Content-Type" && v == "application/json"));
}

#[test]
fn common_headers_includes_apikey_and_bearer() {
    let config = SupabaseConfig {
        base_url: "https://example.supabase.co".to_string(),
        anon_key: "anon-key".to_string(),
    };
    let headers = common_headers(&config, "access-token-123");
    assert!(headers.iter().any(|(k, v)| k == "apikey" && v == "anon-key"));
    assert!(headers.iter().any(|(k, v)| k == "Authorization" && v == "Bearer access-token-123"));
}

// --- further cases ---

#[test]
fn common_headers_are_exactly_two_in_order() {
    let config = SupabaseConfig { base_url: String::new(), anon_key: "k".to_string() };
    let headers = common_headers(&config, "");
    assert_eq!(
        headers,
        vec![
            ("apikey".to_string(), "k".to_string()),
            ("Authorization".to_string(), "Bearer ".to_string())
        ]
    );
}

#[test]
fn refresh_token_request_keeps_token_text_as_is() {
    let config = SupabaseConfig { base_url: "http://x".to_string(), anon_key: "a".to_string() };
    let req = refresh_token_request(&config, "t\"q");
    assert_eq!(req.body.as_deref(), Some("{\"refresh_token\":\"t\"q\"}"));
    assert_eq!(req.headers.len(), 2);
}

#[test]
fn base64_decode_full_and_partial_groups() {
    assert_eq!(base64_decode("aGVsbG8"), Some(b"hello".to_vec()));
    assert_eq!(base64_decode("aGVs"), Some(b"hel".to_vec()));
    assert_eq!(base64_decode("aGVsbA"), Some(b"hell".to_vec()));
    assert_eq!(base64_decode(""), Some(vec![]));
    // a lone final character carries fewer than eight bits: no byte
    assert_eq!(base64_decode("a"), Some(vec![]));
}

#[test]
fn base64_decode_url_safe_and_standard_alphabets() {
    assert_eq!(base64_decode("-_-_"), Some(vec![0xfb, 0xff, 0xbf]));
    assert_eq!(base64_decode("+/+/"), Some(vec![0xfb, 0xff, 0xbf]));
    assert_eq!(base64_decode("AAAA"), Some(vec![0, 0, 0]));
    assert_eq!(base64_decode("09az"), Some(vec![0xd3, 0xd6, 0xb3]));
}

#[test]
fn base64_decode_stops_at_padding() {
    assert_eq!(base64_decode("aGk="), base64_decode("aGk"));
    assert_eq!(base64_decode("aGk=="), Some(b"hi".to_vec()));
    assert_eq!(base64_decode("aGk=!!!"), Some(b"hi".to_vec()));
    assert_eq!(base64_decode("=abc"), Some(vec![]));
}

#[test]
fn base64_decode_rejects_other_characters() {
    assert_eq!(base64_decode("!!!invalid!!!"), None);
    assert_eq!(base64_decode("aG k"), None);
    assert_eq!(base64_decode("aGé="), None);
}

#[test]
fn is_jwt_expired_at_uses_sixty_second_buffer() {
    // exp = 9999999999
    assert!(!is_jwt_expired_at(JWT_NOT_EXPIRED, 9999999999 - 61));
    assert!(is_jwt_expired_at(JWT_NOT_EXPIRED, 9999999999 - 60));
    assert!(is_jwt_expired_at(JWT_NOT_EXPIRED, u64::MAX));
    // exp = 1, at or below the buffer: expired at any time
    assert!(is_jwt_expired_at(JWT_EXPIRED, 0));
    assert!(is_jwt_expired_at(JWT_NO_EXP, 0));
    assert!(is_jwt_expired_at("a.b.c.d", 0));
}

#[test]
fn claims_need_exactly_three_parts() {
    let four_parts = format!("{}.extra", JWT_WITH_SUB);
    assert_eq!(user_id_from_jwt(&four_parts), None);
    assert_eq!(user_id_from_jwt(JWT_NOT_EXPIRED), Some("user-abc".to_string()));
}

#[test]
fn session_from_tokens_needs_a_user_id() {
    assert!(session_from_tokens(None, Some("r".to_string()), "old").is_none());
    assert!(session_from_tokens(Some(JWT_WITH_SUB.to_string()), None, "old").is_some());
    let s = session_from_tokens(Some(JWT_WITH_SUB.to_string()), None, "old").unwrap();
    assert_eq!(s.refresh_token, "old");
    assert_eq!(s.email, "");
    assert_eq!(s.user_id, "12345678-abcd-1234-abcd-123456789abc");
}

#[test]
fn parse_refresh_response_ignores_non_string_members() {
    let mut map = serde_json::Map::new();
    map.insert("access_token".to_string(), serde_json::Value::String(JWT_NOT_EXPIRED.to_string()));
    map.insert("refresh_token".to_string(), serde_json::Value::from(5u64));
    let json = serde_json::Value::Object(map);
    let session = parse_refresh_response(&json, "old").unwrap();
    assert_eq!(session.refresh_token, "old");
    let mut map = serde_json::Map::new();
    map.insert("access_token".to_string(), serde_json::Value::from(7u64));
    assert!(parse_refresh_response(&serde_json::Value::Object(map), "old").is_none());
    let array = serde_json::Value::Array(vec![serde_json::Value::String("x".to_string())]);
    assert!(parse_refresh_response(&array, "old").is_none());
}

#[test]
fn base64_decode_standard_padded_text() {
    // "hi?>" in standard base64 with padding, and its URL-safe unpadded form
    assert_eq!(base64_decode("aGk/Pg=="), Some(b"hi?>".to_vec()));
    assert_eq!(base64_decode("aGk_Pg"), Some(b"hi?>".to_vec()));
    assert_eq!(base64_decode("+/8="), Some(vec![0xfb, 0xff]));
    assert_eq!(base64_decode("aGVsbG8="), Some(b"hello".to_vec()));
}
