use meridian::update::{
    apply_update, asset_for, asset_url, check_digest, checksum_url, install_step, newer,
    newest_of, newest_tag, offer, parse_u64, release_remote, update_available, verify, vkey,
    InstallStep, REPO,
};
use sha2::{Digest, Sha256};

const LS_REMOTE: &str =
    "abc\trefs/tags/v0.9.0\ndef\trefs/tags/v1.10.0\nfed\trefs/tags/v1.2.0\nx\trefs/tags/v2.0.0-rc1\n";

#[test]
fn vkey_is_numeric() {
    assert_eq!(vkey("v1.2.3"), (1, 2, 3));
    assert_eq!(vkey("1.10"), (1, 10, 0));
    assert!(vkey("1.10.0") > vkey("1.2.0"));
}

#[test]
fn a_version_part_that_is_not_a_number_counts_as_zero() {
    assert_eq!(vkey("vv2.x.7"), (2, 0, 7));
    assert_eq!(vkey(""), (0, 0, 0));
    assert_eq!(vkey("1.2.3.4"), (1, 2, 3));
    assert_eq!(vkey("+1.-2.99999999999999999999"), (1, 0, 0));
    assert_eq!(vkey("2.0.0-rc1"), (2, 0, 0));
}

#[test]
fn numbers_parse_as_str_parse_does() {
    let p = |s: &str| parse_u64(&s.chars().collect::<Vec<char>>());
    assert_eq!(p("42"), Some(42));
    assert_eq!(p("+7"), Some(7));
    assert_eq!(p("+"), None);
    assert_eq!(p(""), None);
    assert_eq!(p("-1"), None);
    assert_eq!(p("18446744073709551615"), Some(u64::MAX));
    assert_eq!(p("18446744073709551616"), None);
    assert_eq!(p("٣"), None, "only ASCII digits");
}

#[test]
fn update_available_offers_newer_release() {
    // numeric compare, not lexical; and the -rc1 tag is not offered to anyone
    assert_eq!(newest_tag(LS_REMOTE), "1.10.0");
    assert_eq!(newer(&newest_tag(LS_REMOTE), "1.2.0"), "1.10.0");
}

#[test]
fn update_available_silent_when_current() {
    assert_eq!(newer(&newest_tag(LS_REMOTE), "1.10.0"), "");
    assert_eq!(newer(&newest_tag(LS_REMOTE), "2.0.0"), "");
}

#[test]
fn no_tags_means_no_newest() {
    assert_eq!(newest_tag(""), "");
    assert_eq!(newest_tag("abc\trefs/heads/main\n"), "");
    assert_eq!(newer("", "0.1.0"), "");
}

#[test]
fn among_equal_versions_the_last_listed_wins() {
    let tags: Vec<String> = ["1.2", "1.2.0", "0.9"].iter().map(|s| s.to_string()).collect();
    assert_eq!(newest_of(&tags), "1.2.0");
    assert_eq!(newest_of(&[]), "");
}

#[test]
fn a_tagged_release_with_no_asset_for_this_machine_is_not_offered() {
    assert_eq!(offer("1.10.0", |_| false), "");
    assert_eq!(offer("1.10.0", |_| true), "1.10.0");
    // "" short-circuits: ready is never consulted, so a normal check makes no request
    assert_eq!(offer("", |_| panic!("must not be asked")), "");
}

#[test]
fn an_update_is_offered_only_when_newer_and_downloadable() {
    assert_eq!(update_available("1.10.0", "1.2.0", |v| v == "1.10.0"), "1.10.0");
    assert_eq!(update_available("1.10.0", "1.2.0", |_| false), "");
    assert_eq!(
        update_available("1.2.0", "1.10.0", |_| panic!("an older tag must not be asked about")),
        ""
    );
}

#[test]
fn asset_names() {
    assert_eq!(asset_for("linux", "x86_64"), "meridian-linux-x86_64");
    assert_eq!(asset_for("macos", "aarch64"), "meridian-macos-arm64");
    assert_eq!(asset_for("macos", "x86_64"), "meridian-macos-x86_64");
    assert_eq!(
        asset_for("windows", "x86_64"),
        "meridian-windows-x86_64.exe"
    );
}

#[test]
fn release_addresses() {
    assert_eq!(REPO, "MartinRovang/meridian");
    assert_eq!(
        asset_url("1.10.0", "meridian-linux-x86_64"),
        "https://github.com/MartinRovang/meridian/releases/download/v1.10.0/meridian-linux-x86_64"
    );
    assert_eq!(
        checksum_url("1.10.0", "meridian-linux-x86_64"),
        "https://github.com/MartinRovang/meridian/releases/download/v1.10.0/meridian-linux-x86_64.sha256"
    );
    assert_eq!(release_remote(), "https://github.com/MartinRovang/meridian.git");
}

#[test]
fn a_download_that_does_not_match_its_checksum_is_refused() {
    let bytes = b"hello";
    let good = format!("{:x}  meridian", Sha256::digest(bytes));
    assert!(verify(bytes, &good).is_ok());
    assert!(verify(b"tampered", &good).is_err());
    assert!(verify(bytes, "not-a-checksum").is_err());
    assert!(verify(bytes, "").is_err());
}

#[test]
fn the_checksum_gate_says_why() {
    let bytes = b"hello";
    let hex = format!("{:x}", Sha256::digest(bytes));
    assert_eq!(
        hex,
        "2cf24dba5fb0a30e26e83b2ac5b9e29e1b161e5c1fa7425e73043362938b9824"
    );
    assert_eq!(verify(bytes, &hex.to_uppercase()), Ok(()));
    assert_eq!(
        verify(b"tampered", &hex),
        Err(format!("checksum mismatch: {}", &format!("{:x}", Sha256::digest(b"tampered"))[..12]))
    );
    assert_eq!(verify(bytes, ""), Err("no checksum published".to_string()));
    assert_eq!(
        verify(bytes, &format!("{}g", &hex[..63])),
        Err("no checksum published".to_string())
    );
}

#[test]
fn a_failed_update_reports_at_most_sixty_characters() {
    let long = "x".repeat(100);
    assert_eq!(apply_update(Err(long)), "x".repeat(60));
    assert_eq!(apply_update(Err("short".into())), "short");
    assert_eq!(apply_update(Err("é".repeat(70))), "é".repeat(60));
    assert_eq!(apply_update(Ok("done".into())), "done");
}

#[test]
fn a_digest_is_checked_against_the_published_line() {
    let digest: Vec<u8> = Sha256::digest(b"hello").to_vec();
    let line = "2CF24DBA5FB0A30E26E83B2AC5B9E29E1B161E5C1FA7425E73043362938B9824 *meridian";
    assert_eq!(check_digest(&digest, line), Ok(()));
    let other: Vec<u8> = Sha256::digest(b"other").to_vec();
    let got = format!("{:x}", Sha256::digest(b"other"));
    assert_eq!(
        check_digest(&other, line),
        Err(format!("checksum mismatch: {}", &got[..12]))
    );
    assert_eq!(check_digest(&digest, "  "), Err("no checksum published".to_string()));
}

#[test]
fn an_install_writes_only_a_nonempty_download_whose_checksum_matches() {
    let bytes = b"hello";
    let good = format!("{:x}  meridian", Sha256::digest(bytes));
    assert!(matches!(install_step(b"", None), InstallStep::Refuse(m) if m == "empty download"));
    assert!(matches!(install_step(b"", Some(&good)), InstallStep::Refuse(m) if m == "empty download"));
    assert!(matches!(install_step(bytes, None), InstallStep::FetchChecksum));
    assert!(matches!(install_step(bytes, Some(&good)), InstallStep::Write));
    assert!(matches!(
        install_step(b"tampered", Some(&good)),
        InstallStep::Refuse(m) if m.starts_with("checksum mismatch: ")
    ));
}

#[test]
fn peeled_refs_and_release_candidates_are_not_release_tags() {
    let out = "a\trefs/tags/v1.4.0\nb\trefs/tags/v3.0.0^{}\nc\trefs/tags/v2.0.0-rc2\n";
    assert_eq!(newest_tag(out), "1.4.0");
}
