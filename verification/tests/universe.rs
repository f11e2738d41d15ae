use meridian::universe::{in_market, listings, markets, name_of, COPENHAGEN, OSLO, STOCKHOLM};

#[test]
fn every_listing_is_unique_and_carries_a_yahoo_suffix() {
    let all = listings();
    let mut seen: Vec<&str> = all.iter().map(|l| l.symbol).collect();
    let before = seen.len();
    seen.sort_unstable();
    seen.dedup();
    assert_eq!(seen.len(), before, "duplicate symbols in the list");
    for l in &all {
        assert!(
            l.symbol.ends_with(".OL") || l.symbol.ends_with(".ST") || l.symbol.ends_with(".CO"),
            "{} has no exchange suffix",
            l.symbol
        );
        assert!(!l.name.is_empty(), "{} has no name", l.symbol);
    }
}

#[test]
fn a_market_filter_returns_only_that_market_and_no_filter_returns_all() {
    let oslo = in_market(OSLO);
    assert!(oslo.iter().all(|s| s.ends_with(".OL")));
    assert_eq!(in_market("").len(), listings().len());
    let counts: usize = markets().iter().map(|m| in_market(m).len()).sum();
    assert_eq!(
        counts,
        listings().len(),
        "every listing is in exactly one market"
    );
}

#[test]
fn the_markets_are_offered_oslo_first() {
    assert_eq!(markets(), vec![OSLO, STOCKHOLM, COPENHAGEN]);
    assert_eq!(OSLO, "Oslo Børs");
    assert_eq!(listings().len(), 123);
    assert_eq!(in_market(OSLO).len(), 70);
    assert_eq!(in_market(STOCKHOLM).len(), 30);
    assert_eq!(in_market(COPENHAGEN).len(), 23);
    assert!(in_market("Helsinki").is_empty());
    assert_eq!(in_market(OSLO)[0], "KOG.OL", "turnover order is kept");
}

#[test]
fn a_listed_symbol_has_a_name_and_an_unlisted_one_has_none() {
    assert_eq!(name_of("EQNR.OL"), Some("Equinor"));
    assert_eq!(name_of("ALSYDB.CO"), Some("Sydbank"));
    assert_eq!(name_of("SYDB.CO"), None);
    assert_eq!(name_of("AAPL"), None);
}
