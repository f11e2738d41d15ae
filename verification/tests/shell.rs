use meridian::shell::{api_base, given_token, launch_page, launch_query, local_base};
use meridian::store::StoreError;

#[test]
fn the_launch_query_carries_the_base_and_token_encoded() {
    assert_eq!(
        launch_query("http://127.0.0.1:8080", "a b&c"),
        "api=http%3A%2F%2F127.0.0.1%3A8080&token=a%20b%26c"
    );
    assert_eq!(
        launch_page("https://box.example", "t"),
        "index.html?api=https%3A%2F%2Fbox.example&token=t"
    );
}

#[test]
fn a_hosted_base_loses_its_trailing_slashes() {
    assert_eq!(api_base("https://box.example//"), "https://box.example");
    assert_eq!(api_base("https://box.example"), "https://box.example");
    assert_eq!(api_base("///"), "");
}

#[test]
fn the_local_base_is_loopback_on_the_bound_port() {
    assert_eq!(local_base(8080), "http://127.0.0.1:8080");
    assert_eq!(local_base(0), "http://127.0.0.1:0");
    assert_eq!(local_base(65535), "http://127.0.0.1:65535");
}

#[test]
fn the_flag_wins_over_the_environment_and_an_empty_token_is_none() {
    assert_eq!(given_token(Some("a".into()), Some("b".into())), Some("a".to_string()));
    assert_eq!(given_token(None, Some("b".into())), Some("b".to_string()));
    assert_eq!(given_token(Some(String::new()), Some("b".into())), None);
    assert_eq!(given_token(None, None), None);
}

#[test]
fn a_store_error_reads_as_a_sentence() {
    assert_eq!(
        StoreError::Corrupt("expected value at line 1".into()).message(),
        "portfolios.json is damaged and was copied to portfolios.json.bak: expected value at line 1"
    );
    assert_eq!(StoreError::Io("denied".into()).message(), "store io: denied");
}
