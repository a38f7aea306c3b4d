use base64::Engine;
use eve_remap::resolve::claims_from_raw;
use eve_remap::sso::{
    authorize_url_with_state, build_authorize_url, compute_code_challenge,
    generate_code_verifier, jwt_payload_text, random_state,
};
use sha2::Digest;

#[test]
fn test_generate_code_verifier_length() {
    let v = generate_code_verifier();
    assert!(v.len() >= 43 && v.len() <= 128);
    assert!(!v.contains('+') && !v.contains('/'));
}

#[test]
fn test_compute_code_challenge_is_valid_base64url() {
    let challenge = compute_code_challenge("testVerifier");
    assert_eq!(challenge.len(), 43);
    assert!(!challenge.contains('+') && !challenge.contains('/'));
}

#[test]
fn test_build_authorize_url_contains_required_params() {
    let url = build_authorize_url("myclient", "chall123", "http://127.0.0.1:8080/callback");
    assert!(url.starts_with("https://login.eveonline.com/v2/oauth/authorize"));
    assert!(url.contains("response_type=code"));
    assert!(url.contains("client_id=myclient"));
    assert!(url.contains("code_challenge_method=S256"));
}

#[test]
fn challenge_is_the_encoded_digest() {
    let expected = base64::engine::general_purpose::URL_SAFE_NO_PAD
        .encode(sha2::Sha256::digest("testVerifier".as_bytes()));
    let challenge = compute_code_challenge("testVerifier");
    assert_eq!(challenge, expected);
    assert_ne!(challenge, "testVerifier");
}

#[test]
fn verifiers_and_states_differ_between_calls() {
    assert_ne!(generate_code_verifier(), generate_code_verifier());
    let s = random_state();
    assert_eq!(s.len(), 22);
    assert!(s.chars().all(|c| c.is_ascii_alphanumeric() || c == '-' || c == '_'));
}

#[test]
fn authorize_url_is_exact_for_a_given_state() {
    let url = authorize_url_with_state(
        "my client",
        "chall123",
        "http://127.0.0.1:8080/callback",
        "st_ate-1",
    );
    assert_eq!(
        url,
        "https://login.eveonline.com/v2/oauth/authorize?response_type=code&client_id=my%20client\
         &redirect_uri=http%3A%2F%2F127.0.0.1%3A8080%2Fcallback&state=st_ate-1\
         &scope=esi-skills.read_skills.v1%20esi-skills.read_skillqueue.v1%20esi-characters.read_attributes.v1\
         &code_challenge=chall123&code_challenge_method=S256"
    );
}

#[test]
fn authorize_url_percent_encodes_utf8() {
    let url = authorize_url_with_state("é", "c", "r", "s");
    assert!(url.contains("client_id=%C3%A9&"));
}

#[test]
fn test_decode_jwt_token_minimal() {
    let payload = r#"{"sub":"CHARACTER:EVE:90123456","name":"Test Pilot","scp":["esi-skills.read_skills.v1"],"exp":999999999,"iat":1700000000}"#;
    let encoded_payload = base64::engine::general_purpose::URL_SAFE_NO_PAD.encode(payload);
    let token = format!("{}.{}", "header_b64", encoded_payload);

    let text = jwt_payload_text(&token).expect("Should parse valid JWT");
    assert_eq!(text, payload);
    let value: serde_json::Value = serde_json::from_str(&text).unwrap();
    let scopes: Vec<String> = value["scp"]
        .as_array()
        .unwrap()
        .iter()
        .map(|s| s.as_str().unwrap().to_string())
        .collect();
    let claims = claims_from_raw(
        value["sub"].as_str().unwrap(),
        value["name"].as_str().map(|s| s.to_string()),
        scopes,
        value["exp"].as_u64().unwrap(),
    )
    .expect("Should parse valid JWT");
    assert_eq!(claims.owner_character_id, 90123456);
    assert_eq!(claims.character_name, "Test Pilot");
    assert!(claims.scopes.contains(&"esi-skills.read_skills.v1".to_string()));
}

#[test]
fn test_decode_jwt_token_malformed_returns_none() {
    assert!(jwt_payload_text("").is_none());
    assert!(jwt_payload_text("not.a.jwt.token").is_none());
    assert!(jwt_payload_text("a.b.c").is_none());
}

#[test]
fn jwt_payload_that_is_not_utf8_is_refused() {
    let encoded = base64::engine::general_purpose::URL_SAFE_NO_PAD.encode([0xffu8, 0xfe, 0x00]);
    assert!(jwt_payload_text(&format!("h.{}", encoded)).is_none());
}

#[test]
fn claims_default_name_and_bad_subject() {
    let c = claims_from_raw("CHARACTER:EVE:42", None, vec![], 7).unwrap();
    assert_eq!(c.owner_character_id, 42);
    assert_eq!(c.character_name, "Character 42");
    assert_eq!(c.expires_at, 7);
    assert!(claims_from_raw("CHARACTER:EVE:abc", None, vec![], 7).is_none());
}

#[test]
fn code_challenge_of_a_fixed_verifier() {
    assert_eq!(
        compute_code_challenge("dBjftJeZ4CVP-mJ92K9oqbMZ9CmfSKPKgKxeVf45Pt0"),
        "xkqr2YLIhvv3B8mANoASzIv6HXz1jWe0J-U_1eK_kJw"
    );
}
