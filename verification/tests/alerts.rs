use meridian::alerts::{
    alert_checks, newly_firing, stale_firings, AlertView, Alerts, Firing, LevelShape, Watch,
    DEFAULT_SERVER, STALE_SECS,
};
use meridian::rules::HoldingShape;

fn cfg() -> Alerts {
    Alerts {
        enabled: true,
        topic: "meridian-test".into(),
        ..Alerts::default()
    }
}

fn f(key: &str) -> Firing {
    Firing {
        key: key.to_string(),
        text: "x".into(),
    }
}

#[test]
fn the_quiet_window_wraps_past_midnight_and_an_empty_one_is_no_window() {
    let mut c = cfg();
    c.quiet_from = 22;
    c.quiet_to = 7;
    for h in [22, 23, 0, 3, 6] {
        assert!(c.quiet_at(h), "{h} is the night");
    }
    for h in [7, 12, 21] {
        assert!(!c.quiet_at(h), "{h} is not");
    }

    c.quiet_from = 9;
    c.quiet_to = 17;
    assert!(c.quiet_at(9) && c.quiet_at(16) && !c.quiet_at(17) && !c.quiet_at(8));

    c.quiet_from = 0;
    c.quiet_to = 0;
    for h in 0..24 {
        assert!(!c.quiet_at(h), "an empty window silences nothing");
    }
}

#[test]
fn a_rule_that_keeps_firing_notifies_once() {
    let (fresh, seen) = newly_firing(&[f("drift:a")], &[]);
    assert_eq!(fresh.len(), 1);
    assert_eq!(seen, vec!["drift:a".to_string()]);

    let (again, seen) = newly_firing(&[f("drift:a")], &seen);
    assert!(again.is_empty(), "still firing is not news");

    // it stops, so the key is forgotten, and the next breach is news again
    let (_, seen) = newly_firing(&[], &seen);
    assert!(seen.is_empty());
    let (back, _) = newly_firing(&[f("drift:a")], &seen);
    assert_eq!(back.len(), 1, "a fresh breach after a quiet spell");
}

#[test]
fn only_the_unseen_keys_are_news_and_the_seen_list_is_what_fires_now() {
    let seen = vec!["a".to_string(), "gone".to_string()];
    let (fresh, now) = newly_firing(&[f("a"), f("b"), f("c")], &seen);
    let keys: Vec<&str> = fresh.iter().map(|x| x.key.as_str()).collect();
    assert_eq!(keys, vec!["b", "c"]);
    assert_eq!(now, vec!["a", "b", "c"]);
}

#[test]
fn the_public_server_is_used_unless_another_is_given() {
    let mut c = cfg();
    assert_eq!(c.server_url(), DEFAULT_SERVER);
    c.server = "  https://ntfy.example.org ".into();
    assert_eq!(c.server_url(), "https://ntfy.example.org");
    c.topic = " secret-topic ".into();
    assert_eq!(c.notify_url(), "https://ntfy.example.org/secret-topic");
    c.server = "   ".into();
    assert_eq!(c.notify_url(), "https://ntfy.sh/secret-topic");
}

#[test]
fn alerts_are_live_only_when_on_and_addressed() {
    let mut c = cfg();
    assert!(c.live());
    c.topic = "   ".into();
    assert!(!c.live());
    c.topic = "t".into();
    c.enabled = false;
    assert!(!c.live());
}

#[test]
fn old_prices_and_unpriced_holdings_fire_only_under_the_stale_switch() {
    let mut c = cfg();
    let unpriced = vec![("h_XNAS.DE".to_string(), "XNAS.DE".to_string())];
    assert!(stale_firings(&c, STALE_SECS, &unpriced).is_empty(), "the switch is off");
    c.stale = true;
    let fired = stale_firings(&c, STALE_SECS + 3_600, &unpriced);
    assert_eq!(fired.len(), 2);
    assert_eq!(fired[0].key, "stale");
    assert_eq!(
        fired[0].text,
        "Prices are 7 hours old, so the figures in the app are not today's"
    );
    assert_eq!(fired[1].key, "unpriced:h_XNAS.DE");
    assert_eq!(
        fired[1].text,
        "XNAS.DE has no usable price and is left out of every total"
    );
    let fresh = stale_firings(&c, STALE_SECS - 1, &unpriced);
    assert_eq!(fresh.len(), 1, "young prices are not news");
    c.enabled = false;
    assert!(stale_firings(&c, STALE_SECS, &unpriced).is_empty(), "not live");
}

fn portfolio(holdings: &[(&str, bool)], drift: &[(&str, bool)]) -> AlertView {
    AlertView {
        id: "p1".into(),
        holdings: holdings
            .iter()
            .map(|(t, priced)| HoldingShape {
                id: format!("h_{t}"),
                ticker: t.to_string(),
                priced: *priced,
            })
            .collect(),
        drift: drift.iter().map(|(id, b)| (id.to_string(), *b)).collect(),
    }
}

fn keys(c: &Alerts, v: &[AlertView], l: &[LevelShape]) -> Vec<String> {
    alert_checks(c, v, l).into_iter().map(|c| c.key).collect()
}

#[test]
fn nothing_is_checked_until_alerts_are_both_on_and_addressed() {
    let v = vec![portfolio(&[("EQNR.OL", true)], &[])];
    let mut c = cfg();
    c.big_move = true;
    assert_eq!(keys(&c, &v, &[]), vec!["move:h_EQNR.OL"]);
    c.topic = "  ".into();
    assert!(keys(&c, &v, &[]).is_empty(), "no topic");
    c.topic = "a-topic".into();
    c.enabled = false;
    assert!(keys(&c, &v, &[]).is_empty(), "switched off");
}

#[test]
fn each_kind_is_checked_only_under_its_own_switch() {
    let v = vec![portfolio(&[("EQNR.OL", true)], &[("h_EQNR.OL", true)])];
    let mut c = cfg();
    assert!(keys(&c, &v, &[]).is_empty(), "all switches off");
    c.drift = true;
    let only_drift = alert_checks(&c, &v, &[]);
    assert_eq!(only_drift.len(), 1);
    assert_eq!(only_drift[0].key, "drift:h_EQNR.OL");
    assert_eq!(only_drift[0].watch, Watch::Drift(0, 0));
    c.big_move = true;
    assert_eq!(keys(&c, &v, &[]), vec!["drift:h_EQNR.OL", "move:h_EQNR.OL"]);
    c.portfolio_move = true;
    assert_eq!(
        keys(&c, &v, &[]),
        vec!["drift:h_EQNR.OL", "move:h_EQNR.OL", "pmove:p1"]
    );
}

#[test]
fn a_drift_row_inside_its_band_and_an_unpriced_holding_are_not_checked() {
    let v = vec![portfolio(
        &[("EQNR.OL", false), ("DNB.OL", true)],
        &[("h_EQNR.OL", false), ("h_DNB.OL", true)],
    )];
    let mut c = cfg();
    c.drift = true;
    c.big_move = true;
    let checks = alert_checks(&c, &v, &[]);
    assert_eq!(checks.len(), 2);
    assert_eq!(checks[0].key, "drift:h_DNB.OL");
    assert_eq!(checks[0].watch, Watch::Drift(0, 1));
    assert_eq!(checks[1].key, "move:h_DNB.OL");
    assert_eq!(checks[1].watch, Watch::Move(0, 1));
}

#[test]
fn a_level_is_checked_against_every_priced_holding_of_its_ticker() {
    let v = vec![
        portfolio(&[("EQNR.OL", true), ("DNB.OL", true)], &[]),
        portfolio(&[("EQNR.OL", false), ("EQNR.OL", true)], &[]),
    ];
    let l = vec![LevelShape {
        id: "l1".into(),
        ticker: "EQNR.OL".into(),
    }];
    let checks = alert_checks(&cfg(), &v, &l);
    assert_eq!(checks.len(), 2, "levels need no switch, only live alerts");
    assert!(checks.iter().all(|c| c.key == "level:l1"));
    assert_eq!(checks[0].watch, Watch::Level(0, 0, 0));
    assert_eq!(checks[1].watch, Watch::Level(0, 1, 1));
    let mut off = cfg();
    off.enabled = false;
    assert!(alert_checks(&off, &v, &l).is_empty());
}
