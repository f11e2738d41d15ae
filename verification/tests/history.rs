use meridian::config::{Config, Scope};
use meridian::history::{day, history_url, is_current, path, reaches_day, DAY_FORMAT};

#[test]
fn a_symbol_can_never_escape_the_history_directory() {
    let cfg = Config::new("/tmp/meridian-store".to_string(), Scope::Scandinavia);
    let dir = "/tmp/meridian-store/history/";
    for nasty in ["../../etc/passwd", "..", "/etc/passwd", "a/../../b", ""] {
        let p = path(&cfg, nasty);
        assert!(p.starts_with(dir), "{nasty} -> {p}");
        let name = &p[dir.len()..];
        assert!(!name.contains('/'), "{nasty} -> {name}");
        assert!(!name.is_empty() && name != "." && name != "..", "{nasty} -> {name}");
        assert!(p.starts_with(&cfg.store_dir), "{nasty} -> {p}");
    }
    // The ordinary shapes still survive intact: a suffix, a dash, an fx pair.
    assert!(path(&cfg, "EQNR.OL").ends_with("EQNR.OL.json"));
    assert!(path(&cfg, "BRK-B").ends_with("BRK-B.json"));
    assert!(path(&cfg, "EURNOK=X").ends_with("EURNOK=X.json"));
}

#[test]
fn unexpected_characters_become_underscores() {
    let cfg = Config::new("store".to_string(), Scope::Norway);
    assert_eq!(path(&cfg, "../x y"), "store/history/.._x_y.json");
    assert_eq!(path(&cfg, "Øst"), "store/history/_st.json");
}

#[test]
fn unix_seconds_become_a_utc_calendar_day() {
    assert_eq!(day(0), "1970-01-01");
    assert_eq!(day(86_399), "1970-01-01");
    assert_eq!(day(86_400), "1970-01-02");
    assert_eq!(day(1_700_000_000), "2023-11-14");
    assert_eq!(day(-1), "1969-12-31");
    assert_eq!(day(i64::MAX), "1970-01-01", "outside the calendar reads as the epoch");
}

#[test]
fn a_series_is_current_when_it_reaches_yesterday() {
    let noon_2023_11_15 = 1_700_000_000 + 86_400 - 3_600;
    assert_eq!(day(noon_2023_11_15), "2023-11-15");
    assert!(is_current(Some("2023-11-14"), noon_2023_11_15));
    assert!(is_current(Some("2023-11-15"), noon_2023_11_15));
    assert!(!is_current(Some("2023-11-13"), noon_2023_11_15));
    assert!(!is_current(None, noon_2023_11_15));
}

#[test]
fn five_years_of_closes_come_from_the_chart_endpoint() {
    assert_eq!(
        history_url("BRK-B"),
        "https://query1.finance.yahoo.com/v8/finance/chart/BRK-B?range=5y&interval=1d&events=div"
    );
    assert_eq!(
        history_url("A/B"),
        "https://query1.finance.yahoo.com/v8/finance/chart/A%2FB?range=5y&interval=1d&events=div"
    );
}

#[test]
fn a_last_bar_reaches_a_day_on_or_after_it_and_no_bars_reach_nothing() {
    assert!(reaches_day(Some("2024-03-15"), "2024-03-15"));
    assert!(reaches_day(Some("2024-03-16"), "2024-03-15"));
    assert!(!reaches_day(Some("2024-03-14"), "2024-03-15"));
    assert!(!reaches_day(None, "2024-03-15"));
    assert_eq!(DAY_FORMAT, "%Y-%m-%d");
}
