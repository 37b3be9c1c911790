use pool_api::admin::{
    auth_decision, compute_mac, config_rejection, derive_signing_key, extract_session_cookie,
    login_accepted, make_session_cookie, make_session_cookie_at, request_authenticated,
    session_clear_cookie, session_set_cookie, template_age_from, template_age_secs,
    validate_config_text, verify_session_cookie, verify_session_cookie_at, AuthDecision,
    WalletBalanceInfo, SESSION_COOKIE_NAME, SESSION_MAX_AGE_SECS,
};

fn is_lower_hex(s: &str) -> bool {
    s.chars().all(|c| c.is_ascii_digit() || ('a'..='f').contains(&c))
}

#[test]
fn signing_key_depends_on_the_password_only() {
    let a = derive_signing_key("hunter2");
    let b = derive_signing_key("hunter2");
    let c = derive_signing_key("hunter3");
    assert_eq!(a, b);
    assert_ne!(a, c);
    assert_eq!(a.len(), 32);
    assert!(login_accepted(&a, "hunter2"));
    assert!(!login_accepted(&a, "hunter3"));
    assert!(!login_accepted(&a, ""));
}

#[test]
fn mac_is_keyed_blake2b_in_hex() {
    let key = derive_signing_key("pw");
    let mac = compute_mac(&key, b"3e8");
    assert_eq!(mac.len(), 64);
    assert!(is_lower_hex(&mac));
    assert_ne!(mac, "3e8");
    assert_eq!(mac, compute_mac(&key, b"3e8"));
    assert_ne!(mac, compute_mac(&key, b"3e9"));
    let other = derive_signing_key("other");
    assert_ne!(mac, compute_mac(&other, b"3e8"));
}

#[test]
fn cookie_carries_time_in_hex_and_its_mac() {
    let key = derive_signing_key("pw");
    let cookie = make_session_cookie_at(&key, 1000);
    let (ts, mac) = cookie.split_once(':').unwrap();
    assert_eq!(ts, "3e8");
    assert_eq!(mac, compute_mac(&key, b"3e8"));
    // Negative times print their two's-complement bits.
    let neg = make_session_cookie_at(&key, -1);
    assert!(neg.starts_with("ffffffffffffffff:"));
}

#[test]
fn issued_cookie_lasts_one_day() {
    let key = derive_signing_key("pw");
    let cookie = make_session_cookie_at(&key, 1000);
    assert!(verify_session_cookie_at(&key, &cookie, 1000));
    assert!(verify_session_cookie_at(&key, &cookie, 1000 + SESSION_MAX_AGE_SECS - 1));
    assert!(!verify_session_cookie_at(&key, &cookie, 1000 + SESSION_MAX_AGE_SECS));
    // A cookie from before the epoch never reads back as a time.
    let neg = make_session_cookie_at(&key, -1);
    assert!(!verify_session_cookie_at(&key, &neg, 0));
}

#[test]
fn forged_or_malformed_cookies_are_refused() {
    let key = derive_signing_key("pw");
    let cookie = make_session_cookie_at(&key, 1000);
    let other = derive_signing_key("other");
    assert!(!verify_session_cookie_at(&other, &cookie, 1000));
    assert!(!verify_session_cookie_at(&key, "3e8", 1000));
    assert!(!verify_session_cookie_at(&key, "", 1000));
    let tampered = format!("3e9:{}", compute_mac(&key, b"3e8"));
    assert!(!verify_session_cookie_at(&key, &tampered, 1000));
    // A well-signed cookie whose time is not hex is refused too.
    let not_hex = format!("zz:{}", compute_mac(&key, b"zz"));
    assert!(!verify_session_cookie_at(&key, &not_hex, 1000));
}

#[test]
fn a_cookie_made_now_verifies_now() {
    let key = derive_signing_key("pw");
    let cookie = make_session_cookie(&key);
    assert!(verify_session_cookie(&key, &cookie));
    assert!(!verify_session_cookie(&derive_signing_key("x"), &cookie));
}

#[test]
fn session_cookie_is_found_among_the_cookie_headers() {
    let values = vec![
        "theme=dark; lang=en".to_string(),
        "a=1;  admin_session=abc:def ; b=2".to_string(),
        "admin_session=second".to_string(),
    ];
    assert_eq!(extract_session_cookie(&values).as_deref(), Some("abc:def"));
    assert_eq!(extract_session_cookie(&vec!["x=1".to_string()]), None);
    assert_eq!(extract_session_cookie(&vec![]), None);
    assert_eq!(
        extract_session_cookie(&vec!["admin_session=".to_string()]).as_deref(),
        Some("")
    );
    assert_eq!(SESSION_COOKIE_NAME, "admin_session");
}

#[test]
fn requests_are_authenticated_by_their_cookie() {
    let key = derive_signing_key("pw");
    let cookie = make_session_cookie_at(&key, 5000);
    let values = vec![format!("other=1; admin_session={cookie}")];
    assert!(request_authenticated(&key, &values, 5001));
    assert!(!request_authenticated(&key, &values, 5000 + 86_400));
    assert!(!request_authenticated(&key, &vec![], 5001));
}

#[test]
fn guard_answers_api_calls_and_pages_differently() {
    assert_eq!(auth_decision(true, "/admin/api/config"), AuthDecision::Proceed);
    assert_eq!(auth_decision(false, "/admin/api/config"), AuthDecision::Unauthorized);
    assert_eq!(auth_decision(false, "/admin"), AuthDecision::RedirectToLogin);
    assert_eq!(auth_decision(false, "/admin/logout"), AuthDecision::RedirectToLogin);
}

#[test]
fn login_and_logout_cookies() {
    assert_eq!(
        session_set_cookie("3e8:abcd"),
        "admin_session=3e8:abcd; Path=/admin; HttpOnly; SameSite=Lax; Secure; Max-Age=86400"
    );
    assert_eq!(
        session_clear_cookie(),
        "admin_session=; Path=/admin; HttpOnly; SameSite=Strict; Max-Age=0"
    );
}

#[test]
fn only_a_toml_table_is_saved() {
    assert_eq!(validate_config_text("pool_name = \"x\"\n[stratum]\nport = 3333\n"), None);
    let refused = validate_config_text("pool_name = ").unwrap();
    assert!(refused.starts_with("Invalid TOML: "));
    assert!(refused.len() > "Invalid TOML: ".len());
    assert_eq!(config_rejection(Some("boom".to_string())).as_deref(), Some("Invalid TOML: boom"));
    assert_eq!(config_rejection(None), None);
}

#[test]
fn template_age_is_whole_seconds_since_it() {
    let at = Some("1970-01-01T00:00:10Z".to_string());
    assert_eq!(template_age_secs(&at, 12_500), Some(2));
    assert_eq!(template_age_secs(&at, 10_000), Some(0));
    // Rounded toward zero, also for a time ahead of now.
    assert_eq!(template_age_secs(&at, 8_500), Some(-1));
    assert_eq!(template_age_secs(&Some("1970-01-01T00:00:10.900Z".to_string()), 12_000), Some(1));
    assert_eq!(template_age_secs(&Some("garbage".to_string()), 12_500), None);
    assert_eq!(template_age_secs(&None, 12_500), None);
    assert_eq!(template_age_from(Some(1_000), 1_999), Some(0));
    assert_eq!(template_age_from(Some(3_000), 1_000), Some(-2));
    assert_eq!(template_age_from(Some(i64::MIN), i64::MAX), Some(18_446_744_073_709_551));
}

#[test]
fn wallet_balances_default_to_a_question_mark() {
    let b = WalletBalanceInfo::from_fields(Some("1.5".to_string()), None, Some("2".to_string()));
    assert_eq!(b.transparent, "1.5");
    assert_eq!(b.private, "?");
    assert_eq!(b.total, "2");
}
