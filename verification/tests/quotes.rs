use meridian::config::Scope;
use meridian::quotes::{
    age_secs, chart_url, fx_symbol, is_stale, needs_fetch, parse_search, search_hits, search_rows,
    search_url, Cache,
    JsonField, Quote, SearchRow, REFRESH_TTL, STALE_AFTER,
};

fn q(ts: i64) -> Quote {
    Quote {
        currency: "NOK".into(),
        ts,
    }
}

fn syms(n: usize) -> Vec<String> {
    (0..n).map(|i| format!("S{i}")).collect()
}

fn text(s: &str) -> JsonField {
    JsonField::Text(s.to_string())
}

fn row(symbol: &str, kind: &str, long: &str, exchange: &str) -> SearchRow {
    SearchRow {
        symbol: text(symbol),
        quote_type: text(kind),
        longname: text(long),
        shortname: text("SHORT"),
        exchange: text(exchange),
    }
}

/// Rows shaped like Yahoo's answer to "equinor": the NYSE listing ranked above Oslo, with OTC,
/// Frankfurt, Stockholm, Copenhagen and a crypto row thrown in.
fn fixture() -> Vec<SearchRow> {
    vec![
        row("EQNR", "EQUITY", "Equinor ASA", "NYQ"),
        row("EQNR.OL", "EQUITY", "Equinor ASA", "OSL"),
        row("STOHF", "EQUITY", "Equinor ASA", "PNK"),
        row("VOLCAR-B.ST", "EQUITY", "Volvo Car AB", "STO"),
        row("VOLV-B.ST", "EQUITY", "AB Volvo", "STO"),
        row("NOV.DE", "EQUITY", "Novo Nordisk A/S", "GER"),
        row("NVOX-USD", "CRYPTOCURRENCY", "Novo Token", "CCC"),
        row("NOVO-B.CO", "EQUITY", "Novo Nordisk A/S", "CPH"),
    ]
}

/// A search response in Yahoo's shape, with the same rows as `fixture`, plus a news array and a
/// member the hits do not read.
const SEARCH: &str = r#"{"explains":[],"count":8,"quotes":[
 {"exchange":"NYQ","shortname":"Equinor ASA","quoteType":"EQUITY","symbol":"EQNR","index":"quotes","score":20000,"longname":"Equinor ASA"},
 {"exchange":"OSL","shortname":"EQUINOR","quoteType":"EQUITY","symbol":"EQNR.OL","longname":"Equinor ASA"},
 {"exchange":"PNK","shortname":"EQUINOR ASA","quoteType":"EQUITY","symbol":"STOHF","longname":"Equinor ASA"},
 {"exchange":"STO","quoteType":"EQUITY","symbol":"VOLCAR-B.ST","longname":"Volvo Car AB"},
 {"exchange":"STO","quoteType":"EQUITY","symbol":"VOLV-B.ST","longname":"AB Volvo"},
 {"exchange":"GER","quoteType":"EQUITY","symbol":"NOV.DE","longname":"Novo Nordisk A/S"},
 {"exchange":"CCC","quoteType":"CRYPTOCURRENCY","symbol":"NVOX-USD","longname":"Novo Token"},
 {"exchange":"CPH","quoteType":"EQUITY","symbol":"NOVO-B.CO","longname":"Novo Nordisk A/S"}
],"news":[]}"#;

fn symbols(scope: Scope) -> Vec<String> {
    parse_search(SEARCH, scope)
        .into_iter()
        .map(|h| h.symbol)
        .collect()
}

#[test]
fn a_quote_goes_stale_on_a_clock_we_control() {
    let q = q(1_000);
    assert_eq!(age_secs(&q, 1_060), 60);
    assert!(!is_stale(&q, 1_000 + STALE_AFTER - 1));
    assert!(is_stale(&q, 1_000 + STALE_AFTER + 1));
}

#[test]
fn a_symbol_with_no_quote_at_all_is_always_fetched() {
    let cache = Cache::new();
    assert_eq!(needs_fetch(&cache, &syms(2), REFRESH_TTL, 1_000), syms(2));
}

#[test]
fn a_quote_younger_than_the_ttl_is_left_alone() {
    let mut cache = Cache::new();
    cache.insert("S0".into(), q(1_000));
    assert!(needs_fetch(&cache, &syms(1), REFRESH_TTL, 1_030).is_empty());
}

#[test]
fn a_quote_older_than_the_ttl_is_fetched_again() {
    let mut cache = Cache::new();
    cache.insert("S0".into(), q(1_000));
    assert_eq!(needs_fetch(&cache, &syms(1), REFRESH_TTL, 1_061), syms(1));
}

#[test]
fn a_ttl_of_zero_refetches_everything_however_fresh() {
    let mut cache = Cache::new();
    cache.insert("S0".into(), q(1_000));
    assert_eq!(needs_fetch(&cache, &syms(1), 0, 1_000), syms(1));
}

#[test]
fn a_quote_exactly_ttl_old_is_fetched() {
    let mut cache = Cache::new();
    cache.insert("S0".into(), q(1_000));
    assert_eq!(needs_fetch(&cache, &syms(1), REFRESH_TTL, 1_060), syms(1));
    assert!(needs_fetch(&cache, &syms(1), REFRESH_TTL, 1_059).is_empty());
}

#[test]
fn the_cache_keeps_one_quote_per_symbol() {
    let mut cache = Cache::new();
    cache.insert("EQNR.OL".into(), q(1));
    cache.insert("EQNR.OL".into(), q(2));
    cache.insert("DNB.OL".into(), q(3));
    assert_eq!(cache.get("EQNR.OL").map(|q| q.ts), Some(2));
    assert_eq!(cache.get("DNB.OL").map(|q| q.ts), Some(3));
    assert!(cache.get("NOPE.OL").is_none());
}

#[test]
fn fx_is_a_yahoo_pair_symbol_and_the_same_currency_needs_none() {
    assert_eq!(fx_symbol("USD", "NOK"), Some("USDNOK=X".to_string()));
    assert_eq!(fx_symbol("SEK", "NOK"), Some("SEKNOK=X".to_string()));
    assert_eq!(
        fx_symbol("nok", "NOK"),
        None,
        "same currency needs no conversion"
    );
    assert_eq!(fx_symbol("eur", "nok"), Some("EURNOK=X".to_string()));
}

#[test]
fn chart_and_search_addresses_encode_the_symbol() {
    assert_eq!(
        chart_url("EQNR.OL"),
        "https://query1.finance.yahoo.com/v8/finance/chart/EQNR.OL?range=1d&interval=1d"
    );
    assert_eq!(
        chart_url("EURNOK=X"),
        "https://query1.finance.yahoo.com/v8/finance/chart/EURNOK%3DX?range=1d&interval=1d"
    );
    assert_eq!(
        search_url("novo nordisk"),
        "https://query1.finance.yahoo.com/v1/finance/search?q=novo%20nordisk&quotesCount=20&newsCount=0"
    );
}

#[test]
fn search_in_a_narrow_scope_drops_the_foreign_listings() {
    assert_eq!(symbols(Scope::Norway), vec!["EQNR.OL"]);
}

#[test]
fn a_wider_scope_keeps_stockholm_and_copenhagen_too() {
    assert_eq!(
        symbols(Scope::Scandinavia),
        vec!["EQNR.OL", "VOLCAR-B.ST", "VOLV-B.ST", "NOVO-B.CO"]
    );
}

#[test]
fn europe_reaches_german_listings_that_scandinavia_does_not() {
    let eu = symbols(Scope::Europe);
    assert!(eu.contains(&"NOV.DE".to_string()));
    assert!(eu.contains(&"EQNR.OL".to_string()));
    assert!(!symbols(Scope::Scandinavia).contains(&"NOV.DE".to_string()));
}

#[test]
fn global_scope_keeps_everything_tradeable_in_the_order_yahoo_gave() {
    let all = symbols(Scope::Global);
    assert_eq!(all[0], "EQNR", "yahoo's own ranking is preserved");
    assert_eq!(all[1], "EQNR.OL");
    assert!(all.contains(&"STOHF".to_string()));
}

#[test]
fn things_you_cannot_hold_a_share_of_are_dropped_even_in_global_scope() {
    assert!(!symbols(Scope::Global).contains(&"NVOX-USD".to_string()));
}

#[test]
fn a_search_hit_carries_the_name_users_recognise() {
    let hits = parse_search(SEARCH, Scope::Norway);
    assert_eq!(hits[0].name, "Equinor ASA");
    assert_eq!(hits[0].exchange, "OSL");
    assert_eq!(hits[0].currency, "");
}

#[test]
fn the_short_name_stands_in_only_when_the_long_one_is_missing() {
    let mut r = row("EQNR.OL", "ETF", "x", "OSL");
    r.longname = JsonField::Absent;
    r.shortname = text("EQUINOR");
    let mut odd = row("DNB.OL", "MUTUALFUND", "x", "OSL");
    odd.longname = JsonField::Other;
    let mut bare = row("MOWI.OL", "EQUITY", "x", "OSL");
    bare.symbol = JsonField::Text("MOWI.OL".into());
    bare.exchange = JsonField::Absent;
    let hits = search_hits(&[r, odd, bare], Scope::Norway);
    assert_eq!(hits.len(), 3);
    assert_eq!(hits[0].name, "EQUINOR");
    assert_eq!(hits[1].name, "", "a long name that is not text hides the short one");
    assert_eq!(hits[2].exchange, "");
}

#[test]
fn a_row_without_a_symbol_or_a_kind_makes_no_hit() {
    let mut nosym = row("x", "EQUITY", "x", "OSL");
    nosym.symbol = JsonField::Absent;
    let mut numsym = row("x", "EQUITY", "x", "OSL");
    numsym.symbol = JsonField::Other;
    let mut nokind = row("EQNR.OL", "EQUITY", "x", "OSL");
    nokind.quote_type = JsonField::Absent;
    assert!(search_hits(&[nosym, numsym, nokind], Scope::Global).is_empty());
    assert!(search_hits(&[], Scope::Global).is_empty());
}

#[test]
fn a_search_over_garbage_is_empty_rather_than_a_panic() {
    assert!(parse_search("", Scope::Global).is_empty());
    assert!(parse_search("{}", Scope::Global).is_empty());
}

#[test]
fn the_rows_of_a_body_are_its_quotes_array_and_nothing_else() {
    assert_eq!(search_rows(SEARCH).len(), 8);
    assert!(search_rows(r#"{"quotes":{"symbol":"EQNR.OL"}}"#).is_empty(), "not an array");
    assert!(search_rows(r#"[{"symbol":"EQNR.OL"}]"#).is_empty(), "not an object");
    assert!(search_rows("not json").is_empty());
}

#[test]
fn the_rows_read_from_a_body_make_the_same_hits_as_the_rows_themselves() {
    for scope in [Scope::Norway, Scope::Scandinavia, Scope::Europe, Scope::Global] {
        let from_body: Vec<String> = parse_search(SEARCH, scope).into_iter().map(|h| h.symbol).collect();
        let from_rows: Vec<String> = search_hits(&fixture(), scope).into_iter().map(|h| h.symbol).collect();
        assert_eq!(from_body, from_rows);
    }
}

#[test]
fn a_field_that_is_not_text_is_read_as_present_but_empty() {
    let body = r#"{"quotes":[{"symbol":"EQNR.OL","quoteType":"EQUITY","longname":null,"shortname":"EQUINOR","exchange":7}]}"#;
    let hits = parse_search(body, Scope::Norway);
    assert_eq!(hits.len(), 1);
    assert_eq!(hits[0].name, "", "a null long name hides the short one");
    assert_eq!(hits[0].exchange, "");
}
