use meridian::energy::{driver_of, kind_of, labels, name_of};

#[test]
fn a_driver_is_found_by_its_symbol() {
    let d = driver_of("BZ=F").expect("brent");
    assert_eq!(d.name, "Brent crude");
    assert_eq!(d.kind, "Front-month future");
    assert_eq!(driver_of("BWET").map(|d| d.name), Some("Tanker freight"));
    assert!(driver_of("EQNR.OL").is_none());
}

#[test]
fn an_energy_listing_is_named_and_kinded_and_anything_else_is_not() {
    assert_eq!(name_of("EQNR.OL"), Some("Equinor"));
    assert_eq!(kind_of("EQNR.OL"), Some("Oil & gas"));
    assert_eq!(kind_of("FRO.OL"), Some("Tankers"));
    assert_eq!(name_of("SDRL"), Some("Seadrill"));
    assert_eq!(name_of("AAPL"), None);
    assert_eq!(kind_of("AAPL"), None);
}

fn names(v: &[&str]) -> Vec<String> {
    v.iter().map(|s| s.to_string()).collect()
}

#[test]
fn every_column_but_the_drivers_is_labelled_in_order() {
    let symbols = names(&["FRO.OL", "BZ=F", "AAPL", "EQNR.OL"]);
    let (d, ls) = labels(&symbols, "BZ=F", &names(&["AAPL"])).expect("the driver is measured");
    assert_eq!(d, 1);
    let got: Vec<(usize, &str, &str, &str, bool)> = ls
        .iter()
        .map(|l| (l.column, l.ticker.as_str(), l.name.as_str(), l.kind.as_str(), l.owned))
        .collect();
    assert_eq!(
        got,
        vec![
            (0, "FRO.OL", "Frontline", "Tankers", false),
            (2, "AAPL", "AAPL", "Held", true),
            (3, "EQNR.OL", "Equinor", "Oil & gas", false),
        ]
    );
}

#[test]
fn a_driver_that_was_not_measured_labels_nothing() {
    assert!(labels(&names(&["FRO.OL"]), "BZ=F", &[]).is_none());
}
