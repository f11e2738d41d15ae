use meridian::config::{default_scope, Config, Scope};

#[test]
fn scope_suffixes_widen_outward() {
    assert_eq!(Scope::Norway.suffixes(), vec![".OL"]);
    assert_eq!(Scope::Scandinavia.suffixes(), vec![".OL", ".ST", ".CO"]);
    assert!(Scope::Nordics.suffixes().contains(&".HE"));
    assert!(Scope::Global.suffixes().is_empty());
}

#[test]
fn scope_carries_a_default_currency() {
    assert_eq!(Scope::Scandinavia.default_currency(), "NOK");
    assert_eq!(Scope::Europe.default_currency(), "EUR");
    assert_eq!(Scope::Global.default_currency(), "USD");
}

#[test]
fn a_global_scope_accepts_any_symbol_and_a_narrow_one_does_not() {
    assert!(Scope::Global.accepts("AAPL"));
    assert!(Scope::Norway.accepts("EQNR.OL"));
    assert!(!Scope::Norway.accepts("AAPL"));
    assert!(Scope::Scandinavia.accepts("VOLV-B.ST"));
}

#[test]
fn scope_round_trips_through_its_name() {
    for (s, name) in [
        (Scope::Norway, "norway"),
        (Scope::Scandinavia, "scandinavia"),
        (Scope::Nordics, "nordics"),
        (Scope::Europe, "europe"),
        (Scope::Global, "global"),
    ] {
        assert_eq!(Scope::parse(name), Some(s), "{name}");
        assert_eq!(s.name(), name);
        assert_eq!(Scope::parse(s.name()), Some(s));
    }
    assert_eq!(Scope::parse("atlantis"), None);
}

#[test]
fn a_scope_name_is_read_without_regard_to_case() {
    assert_eq!(Scope::parse("NORWAY"), Some(Scope::Norway));
    assert_eq!(Scope::parse("Europe"), Some(Scope::Europe));
    assert_eq!(Scope::parse(" norway"), None);
    assert_eq!(Scope::parse(""), None);
}

#[test]
fn a_fresh_install_searches_scandinavia() {
    assert_eq!(default_scope(), Scope::Scandinavia);
}

#[test]
fn the_store_files_sit_in_the_store_directory() {
    let cfg = Config::new("/var/lib/meridian".to_string(), Scope::Norway);
    assert_eq!(cfg.portfolios_path(), "/var/lib/meridian/portfolios.json");
    assert_eq!(cfg.quotes_path(), "/var/lib/meridian/quotes.json");
    assert_eq!(cfg.backup_path(), "/var/lib/meridian/portfolios.json.bak");
    assert_eq!(cfg.temp_path(), "/var/lib/meridian/portfolios.json.tmp");
    assert_eq!(cfg.lock_path(), "/var/lib/meridian/.lock");
    let slashed = Config::new("/data/".to_string(), Scope::Global);
    assert_eq!(slashed.quotes_path(), "/data/quotes.json");
}

#[test]
fn the_default_store_is_a_dot_directory_at_home() {
    assert_eq!(Config::default_store_dir(Some("/home/kari")), "/home/kari/.meridian");
    assert_eq!(Config::default_store_dir(None), "./.meridian");
}
