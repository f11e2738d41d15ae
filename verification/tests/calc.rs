use meridian::calc::{class_groups, priced, rate_available};
use meridian::quotes::{Cache, Quote};

fn cache(entries: &[(&str, &str)]) -> Cache {
    let mut c = Cache::new();
    for (sym, cur) in entries {
        c.insert(sym.to_string(), Quote { currency: cur.to_string(), ts: 0 });
    }
    c
}

#[test]
fn the_same_currency_needs_no_rate_and_another_needs_its_pair() {
    let c = cache(&[("USDNOK=X", "NOK")]);
    assert!(rate_available(&c, "NOK", "NOK"));
    assert!(rate_available(&c, "nok", "NOK"));
    assert!(rate_available(&c, "USD", "NOK"));
    assert!(!rate_available(&c, "EUR", "NOK"), "a missing rate is never a rate of one");
}

#[test]
fn an_unknown_ticker_or_a_missing_rate_leaves_a_holding_unpriced() {
    let c = cache(&[("EQNR.OL", "NOK"), ("AAPL", "USD"), ("XNAS.DE", "EUR"), ("USDNOK=X", "NOK")]);
    assert!(priced(&c, "EQNR.OL", "NOK", "NOK"));
    assert!(priced(&c, "AAPL", "USD", "NOK"));
    assert!(!priced(&c, "NOPE.OL", "NOK", "NOK"), "no quote at all");
    assert!(!priced(&c, "XNAS.DE", "NOK", "NOK"), "no EURNOK rate for the price");
    assert!(!priced(&c, "EQNR.OL", "SEK", "NOK"), "no SEKNOK rate for the cost");
}

fn names(v: &[&str]) -> Vec<String> {
    v.iter().map(|s| s.to_string()).collect()
}

#[test]
fn classes_are_listed_once_in_order_of_name_with_their_priced_holdings() {
    let classes = names(&["Equity", "Bond", "Equity", "Cash", "Bond"]);
    let priced = vec![true, true, true, false, false];
    assert_eq!(
        class_groups(&classes, &priced),
        vec![
            ("Bond".to_string(), vec![1]),
            ("Equity".to_string(), vec![0, 2]),
        ],
        "an unpriced holding belongs to no class, and a class of only unpriced ones is not listed"
    );
}

#[test]
fn class_names_are_ordered_character_by_character() {
    let classes = names(&["equity", "Zinc", "Energy", "Energi"]);
    let priced = vec![true; 4];
    let got: Vec<String> = class_groups(&classes, &priced)
        .into_iter()
        .map(|(c, _)| c)
        .collect();
    assert_eq!(got, names(&["Energi", "Energy", "Zinc", "equity"]));
    assert!(class_groups(&[], &[]).is_empty());
}
