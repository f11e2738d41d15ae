use meridian::ids::{hex_lower, id_from, new_id};
use meridian::quotes::{Cache, Quote, STALE_AFTER};
use meridian::server::{
    body_size, new_token, oldest_quote, quotes_age, refusal, reply_headers, route, same_token,
    BodySize, Fail, Route, BODY_MAX,
};

#[test]
fn tokens_compare_without_leaking_where_they_differ() {
    assert!(same_token("abc", "abc"));
    assert!(!same_token("abc", "abd"));
    assert!(!same_token("abc", "abcd"));
    assert!(!same_token("", "a"));
}

#[test]
fn a_generated_token_is_long_enough_to_be_worth_guarding() {
    let t = new_token().expect("randomness");
    assert_eq!(t.len(), 48, "24 random bytes as hex");
    assert!(t.chars().all(|c| c.is_ascii_hexdigit() && !c.is_ascii_uppercase()));
    assert_ne!(t, new_token().expect("randomness"), "two calls must not agree");
}

#[test]
fn health_needs_no_token_because_it_reveals_nothing() {
    assert_eq!(route("GET", "/api/health", "", "secret"), Route::Health);
    assert_eq!(route("GET", "/api/health?x=1", "nope", "secret"), Route::Health);
}

#[test]
fn a_request_without_a_token_is_rejected() {
    assert_eq!(route("GET", "/api/state", "", "secret"), Route::Unauthorized);
    assert_eq!(refusal(Route::Unauthorized).map(|f| f.0), Some(401));
}

#[test]
fn a_request_with_the_wrong_token_is_rejected() {
    assert_eq!(route("GET", "/api/state", "nope", "secret"), Route::Unauthorized);
    assert_eq!(route("GET", "/nowhere", "nope", "secret"), Route::Unauthorized);
}

#[test]
fn a_preflight_is_answered_without_a_token() {
    assert_eq!(route("OPTIONS", "/api/state", "", "secret"), Route::Preflight);
    assert!(refusal(Route::Preflight).is_none());
}

#[test]
fn the_right_token_reaches_the_state_and_nothing_else_is_there() {
    assert_eq!(route("GET", "/api/state", "secret", "secret"), Route::State);
    assert_eq!(route("GET", "/api/state?fresh=1", "secret", "secret"), Route::State);
    assert_eq!(route("POST", "/api/state", "secret", "secret"), Route::NotFound);
    assert_eq!(route("GET", "/api/other", "secret", "secret"), Route::NotFound);
    let f = refusal(Route::NotFound).expect("a refusal");
    assert_eq!((f.0, f.1.as_str()), (404, "not found"));
    let f = refusal(Route::Unauthorized).expect("a refusal");
    assert_eq!(f.1, "bad token");
    assert!(refusal(Route::State).is_none() && refusal(Route::Health).is_none());
}

#[test]
fn every_reply_carries_cors_headers_so_the_app_can_be_a_different_origin() {
    let h = reply_headers("application/json");
    assert_eq!(h[0], ("Content-Type".to_string(), "application/json".to_string()));
    assert!(h
        .iter()
        .any(|(k, v)| k == "Access-Control-Allow-Origin" && v == "*"));
    assert!(h
        .iter()
        .any(|(k, v)| k == "Access-Control-Allow-Headers" && v.contains("X-Meridian-Token")));
    assert!(h.iter().any(|(k, v)| k == "Cache-Control" && v == "no-store"));
}

#[test]
fn a_body_is_capped_and_an_empty_one_is_an_empty_object() {
    assert!(matches!(body_size(0), Ok(BodySize::Empty)));
    assert!(matches!(body_size(1), Ok(BodySize::Parse)));
    assert!(matches!(body_size(BODY_MAX), Ok(BodySize::Parse)));
    match body_size(BODY_MAX + 1) {
        Err(Fail(code, msg)) => {
            assert_eq!(code, 413);
            assert_eq!(msg, "body too large");
        }
        _ => panic!("an oversized body must be refused"),
    }
    assert_eq!(BODY_MAX, 1024 * 1024);
}

#[test]
fn the_oldest_quote_decides_staleness() {
    let mut cache = Cache::new();
    cache.insert("A".into(), Quote { currency: "NOK".into(), ts: 1_000 });
    cache.insert("B".into(), Quote { currency: "NOK".into(), ts: 500 });
    let held = vec!["A".to_string(), "B".to_string(), "UNPRICED".to_string()];
    assert_eq!(oldest_quote(&cache, &held), Some(500));
    assert_eq!(oldest_quote(&cache, &held[..1]), Some(1_000));
    assert_eq!(oldest_quote(&cache, &["NONE".to_string()]), None);
    assert_eq!(quotes_age(Some(500), 1_000), (Some(500), false));
    assert_eq!(quotes_age(Some(0), STALE_AFTER + 1), (Some(STALE_AFTER + 1), true));
    assert_eq!(quotes_age(Some(0), STALE_AFTER), (Some(STALE_AFTER), false));
    assert_eq!(quotes_age(None, 1_000), (None, false));
}

#[test]
fn a_fail_carries_its_status_and_message() {
    let f = Fail::new(500, "store io: gone");
    assert_eq!(f.0, 500);
    assert_eq!(f.1, "store io: gone");
}

#[test]
fn ids_are_a_kind_letter_and_lowercase_hex() {
    assert_eq!(hex_lower(&[0x00, 0x9f, 0x3c, 0xff]), "009f3cff");
    assert_eq!(id_from('p', &[0x9f, 0x3c, 0x1a, 0x07]), "p_9f3c1a07");
    let id = new_id('h').expect("randomness");
    assert_eq!(id.len(), 10);
    assert!(id.starts_with("h_"));
    assert!(id[2..].chars().all(|c| c.is_ascii_hexdigit()));
}
