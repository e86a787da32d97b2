use base64::Engine;
use hyctl::auth::{
    account_label, auth_url, authorization_url, callback_page, check_callback, claims_from_fields, decode_id_token_claims,
    device_poll_decision, launcher_data_attempts, launcher_identity_headers, login_state, needs_refresh,
    parse_callback, pkce_challenge, pkce_verifier, poll_interval, response_error, retry_after_failure, slow_down_wait,
    tokens_from_response, url_decode, verification_link, AuthError, CallbackParams, PollOutcome, TokenKind,
    TokenResponse,
};

fn response(access: Option<&str>, refresh: Option<&str>, expires_in: Option<u64>) -> TokenResponse {
    TokenResponse {
        access_token: access.map(|s| s.to_string()),
        id_token: Some("id".to_string()),
        refresh_token: refresh.map(|s| s.to_string()),
        expires_in,
        scope: Some("openid".to_string()),
        token_type: Some("bearer".to_string()),
        error: None,
        error_description: None,
    }
}

fn is_url_safe(s: &str) -> bool {
    s.chars().all(|c| c.is_ascii_alphanumeric() || c == '-' || c == '_')
}

#[test]
fn url_decode_plain_value_unchanged() {
    assert_eq!(url_decode("abcXYZ09-_.~"), Ok("abcXYZ09-_.~".to_string()));
    assert_eq!(url_decode(""), Ok(String::new()));
}

#[test]
fn url_decode_escapes() {
    assert_eq!(url_decode("a+b"), Ok("a b".to_string()));
    assert_eq!(url_decode("%41%62%2B%2f"), Ok("Ab+/".to_string()));
    assert_eq!(url_decode("%e9"), Ok("\u{e9}".to_string()));
    assert_eq!(url_decode("100%25"), Ok("100%".to_string()));
}

#[test]
fn url_decode_invalid_escapes() {
    for bad in ["%", "%4", "%G1", "%1G", "ab%zz"] {
        assert_eq!(url_decode(bad), Err(AuthError::InvalidPercentEncoding(bad.to_string())));
    }
}

#[test]
fn callback_request_parsed() {
    let req = "GET /authorization-callback?code=abc%20def&state=xy+z HTTP/1.1\r\nHost: 127.0.0.1\r\n\r\n";
    assert_eq!(
        parse_callback(req),
        Ok(CallbackParams { code: Some("abc def".to_string()), state: Some("xy z".to_string()) })
    );
}

#[test]
fn callback_last_value_wins_and_others_ignored() {
    let req = "GET /cb?state=1&code=a&other=5&flag&code=b HTTP/1.1";
    assert_eq!(
        parse_callback(req),
        Ok(CallbackParams { code: Some("b".to_string()), state: Some("1".to_string()) })
    );
}

#[test]
fn callback_without_query() {
    assert_eq!(parse_callback(""), Ok(CallbackParams { code: None, state: None }));
    assert_eq!(parse_callback("GET /cb HTTP/1.1"), Ok(CallbackParams { code: None, state: None }));
    assert_eq!(parse_callback("GET"), Ok(CallbackParams { code: None, state: None }));
    // Only the text between the first and second `?` is the query.
    assert_eq!(
        parse_callback("GET /cb?code=1?state=2 HTTP/1.1"),
        Ok(CallbackParams { code: Some("1".to_string()), state: None })
    );
}

#[test]
fn callback_bad_escape() {
    assert_eq!(
        parse_callback("GET /cb?code=%zz HTTP/1.1"),
        Err(AuthError::InvalidPercentEncoding("%zz".to_string()))
    );
}

#[test]
fn check_callback_outcomes() {
    let ok = CallbackParams { code: Some("c".to_string()), state: Some("s".to_string()) };
    assert_eq!(check_callback(ok, "s"), Ok("c".to_string()));
    let wrong = CallbackParams { code: Some("c".to_string()), state: Some("t".to_string()) };
    assert_eq!(
        check_callback(wrong, "s"),
        Err(AuthError::StateMismatch { got: Some("t".to_string()), expected: "s".to_string() })
    );
    let none = CallbackParams { code: Some("c".to_string()), state: None };
    assert_eq!(check_callback(none, "s"), Err(AuthError::StateMismatch { got: None, expected: "s".to_string() }));
    let no_code = CallbackParams { code: None, state: Some("s".to_string()) };
    assert_eq!(check_callback(no_code, "s"), Err(AuthError::MissingCode));
}

#[test]
fn callback_pages() {
    assert!(callback_page(true).contains("successful"));
    assert!(callback_page(false).contains("No code received"));
}

#[test]
fn pkce_challenge_known_value() {
    // base64url(sha256(verifier)) computed independently.
    assert_eq!(
        pkce_challenge("dBjftJeZ4CVP-mJ92K9qp0rJa2V6eQnyHDJXKiBRbAc"),
        "uTGJHyXHEWZ-Ge8luu7tr3cKcIEf56gR9pGmxrzGXQg"
    );
}

#[test]
fn pkce_challenge_rfc7636_example() {
    let c = pkce_challenge("dBjftJeZ4CVP-mB92K27uhbUJU1p1r_wW1gFWFOEjXk");
    assert_eq!(c, "E9Melhoa2OwvFrEMTJguCHaoeK1t8URWbuGJSstw-cM");
    assert!(!c.contains('='));
    assert!(is_url_safe(&c));
}

#[test]
fn pkce_challenge_is_deterministic() {
    assert_eq!(pkce_challenge("abc"), pkce_challenge("abc"));
    assert_ne!(pkce_challenge("abc"), pkce_challenge("abd"));
    assert_eq!(pkce_challenge("abc").len(), 43);
}

#[test]
fn pkce_verifier_shape() {
    let v = pkce_verifier();
    assert_eq!(v.len(), 43);
    assert!(is_url_safe(&v));
    let decoded = base64::engine::general_purpose::URL_SAFE_NO_PAD.decode(v.as_bytes()).unwrap();
    assert_eq!(decoded.len(), 32);
    assert_ne!(v, pkce_verifier());
}

#[test]
fn login_state_shape() {
    let s = login_state();
    assert_eq!(s.len(), 22);
    assert!(is_url_safe(&s));
    let decoded = base64::engine::general_purpose::URL_SAFE_NO_PAD.decode(s.as_bytes()).unwrap();
    assert_eq!(decoded.len(), 16);
}

#[test]
fn auth_url_exact() {
    assert_eq!(
        auth_url("CH", "{}"),
        "https://oauth.accounts.hytale.com/oauth2/auth?access_type=offline&client_id=hytale-launcher&scope=openid+offline+auth%3Alauncher&response_type=code&redirect_uri=https://accounts.hytale.com/consent/client&code_challenge=CH&code_challenge_method=S256&state=e30="
    );
}

#[test]
fn authorization_url_exact() {
    assert_eq!(
        authorization_url("abc", "STATE"),
        "https://oauth.accounts.hytale.com/oauth2/auth?access_type=offline&client_id=hytale-launcher&scope=openid+offline+auth%3Alauncher&response_type=code&redirect_uri=https://accounts.hytale.com/consent/client&code_challenge=abc&code_challenge_method=S256&state=STATE"
    );
}

#[test]
fn tokens_from_exchange_response() {
    let t = tokens_from_response(response(Some("at"), Some("rt"), Some(3600)), 1000, None).unwrap();
    assert_eq!(t.access_token, "at");
    assert_eq!(t.refresh_token.as_deref(), Some("rt"));
    assert_eq!(t.id_token.as_deref(), Some("id"));
    assert_eq!(t.expires_at, Some(4600));
    assert_eq!(t.scope.as_deref(), Some("openid"));
}

#[test]
fn tokens_from_refresh_keeps_old_refresh_token() {
    let t = tokens_from_response(response(Some("at"), None, None), 1000, Some("old".to_string())).unwrap();
    assert_eq!(t.refresh_token.as_deref(), Some("old"));
    assert_eq!(t.expires_at, None);
    let t = tokens_from_response(response(Some("at"), Some("new"), None), 1000, Some("old".to_string())).unwrap();
    assert_eq!(t.refresh_token.as_deref(), Some("new"));
}

#[test]
fn tokens_missing_access_token() {
    assert_eq!(
        tokens_from_response(response(None, Some("rt"), Some(5)), 0, None).unwrap_err(),
        AuthError::MissingAccessToken
    );
}

#[test]
fn refresh_needed_within_a_minute() {
    assert!(needs_refresh(Some(1059), 1000));
    assert!(!needs_refresh(Some(1060), 1000));
    assert!(needs_refresh(Some(10), 1000));
    assert!(!needs_refresh(None, 1000));
}

#[test]
fn poll_interval_at_least_one() {
    assert_eq!(poll_interval(0), 1);
    assert_eq!(poll_interval(5), 5);
}

#[test]
fn verification_links() {
    assert_eq!(verification_link(Some("https://c".to_string()), "https://v", "AB"), "https://c");
    assert_eq!(verification_link(None, "https://v", "AB-CD"), "https://v?user_code=AB-CD");
}

#[test]
fn device_poll_success() {
    match device_poll_decision(true, 200, String::new(), Some(response(Some("at"), Some("rt"), Some(10))), None, 5) {
        PollOutcome::Done(t) => {
            assert_eq!(t.access_token, "at");
            assert_eq!(t.refresh_token.as_deref(), Some("rt"));
            assert_eq!(t.expires_at, Some(15));
        },
        other => panic!("unexpected {other:?}"),
    }
    assert!(matches!(
        device_poll_decision(true, 200, String::new(), None, None, 5),
        PollOutcome::Failed(AuthError::DeviceTokenParse)
    ));
    assert!(matches!(
        device_poll_decision(true, 200, String::new(), Some(response(None, None, None)), None, 5),
        PollOutcome::Failed(AuthError::MissingAccessToken)
    ));
}

#[test]
fn device_poll_errors() {
    let d = |e: Option<&str>| device_poll_decision(false, 400, "body".to_string(), None, e.map(|s| s.to_string()), 0);
    assert!(matches!(d(Some("authorization_pending")), PollOutcome::Pending));
    assert!(matches!(d(Some("slow_down")), PollOutcome::SlowDown));
    assert!(matches!(d(Some("expired_token")), PollOutcome::Failed(AuthError::DeviceCodeExpired)));
    assert!(matches!(d(Some("access_denied")), PollOutcome::Failed(AuthError::AccessDenied)));
    match d(Some("weird")) {
        PollOutcome::Failed(AuthError::DeviceTokenError { error, body }) => {
            assert_eq!(error, "weird");
            assert_eq!(body, "body");
        },
        other => panic!("unexpected {other:?}"),
    }
    match d(None) {
        PollOutcome::Failed(AuthError::DeviceTokenStatus { status, body }) => {
            assert_eq!(status, 400);
            assert_eq!(body, "body");
        },
        other => panic!("unexpected {other:?}"),
    }
}

#[test]
fn response_error_field() {
    assert_eq!(response_error(r#"{"error":"slow_down","x":1}"#), Some("slow_down".to_string()));
    assert_eq!(response_error(r#"{"error":5}"#), None);
    assert_eq!(response_error("not json"), None);
    assert_eq!(response_error(r#"["error"]"#), None);
}

#[test]
fn id_token_claims_decoded() {
    let payload = base64::engine::general_purpose::URL_SAFE_NO_PAD.encode(r#"{"sub":"abc","email":"x@y.z"}"#);
    let token = format!("header.{payload}.signature");
    assert_eq!(decode_id_token_claims(&token), Some(("abc".to_string(), Some("x@y.z".to_string()))));
}

#[test]
fn id_token_claims_padded_payload() {
    let json = r#"{"sub":"abcd"}"#;
    let payload = base64::engine::general_purpose::URL_SAFE.encode(json);
    assert!(payload.ends_with('='));
    let token = format!("h.{payload}");
    assert_eq!(decode_id_token_claims(&token), Some(("abcd".to_string(), None)));
}

#[test]
fn id_token_claims_rejected() {
    assert_eq!(decode_id_token_claims("no-dots"), None);
    assert_eq!(decode_id_token_claims("a.!!!.c"), None);
    let payload = base64::engine::general_purpose::URL_SAFE_NO_PAD.encode(r#"{"email":"x"}"#);
    assert_eq!(decode_id_token_claims(&format!("a.{payload}.c")), None);
    let payload = base64::engine::general_purpose::URL_SAFE_NO_PAD.encode(r#"{"sub":1}"#);
    assert_eq!(decode_id_token_claims(&format!("a.{payload}.c")), None);
}

#[test]
fn claims_from_lookup_results() {
    assert_eq!(claims_from_fields(Some(Some("s".to_string())), Some(None)), Some(("s".to_string(), None)));
    assert_eq!(claims_from_fields(Some(None), Some(Some("e".to_string()))), None);
    assert_eq!(claims_from_fields(None, None), None);
}

#[test]
fn account_labels() {
    assert_eq!(account_label("sub".to_string(), Some("mail".to_string())), "mail");
    assert_eq!(account_label("sub".to_string(), None), "sub");
}

#[test]
fn launcher_data_attempt_order() {
    let a = launcher_data_attempts("acc", Some("idt"));
    assert_eq!(a, vec![(TokenKind::Access, "acc".to_string()), (TokenKind::Id, "idt".to_string())]);
    assert_eq!(launcher_data_attempts("acc", Some("")), vec![(TokenKind::Access, "acc".to_string())]);
    assert_eq!(launcher_data_attempts("acc", None), vec![(TokenKind::Access, "acc".to_string())]);
    assert!(retry_after_failure(TokenKind::Access));
    assert!(!retry_after_failure(TokenKind::Id));
}

#[test]
fn identity_headers() {
    assert_eq!(
        launcher_identity_headers(),
        vec![
            ("User-Agent", "hytale-launcher/2026.05.29-125f35f"),
            ("X-Hytale-Launcher-Version", "2026.05.29-125f35f"),
            ("X-Hytale-Launcher-Branch", "release"),
        ]
    );
}

#[test]
fn slow_down_adds_five_seconds() {
    assert_eq!(slow_down_wait(&PollOutcome::SlowDown, 5), Some(10));
    assert_eq!(slow_down_wait(&PollOutcome::Pending, 5), None);
    assert_eq!(slow_down_wait(&PollOutcome::Failed(AuthError::AccessDenied), 5), None);
}
