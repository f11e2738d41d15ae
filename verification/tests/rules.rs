use meridian::rules::{
    checks, default_field, default_op, firings, trimmed, Field, Figure, Hit, HoldingShape, Op, Rule,
    ViewShape,
};

fn rule(field: Field, op: Op) -> Rule {
    Rule {
        id: "r1".into(),
        name: String::new(),
        enabled: true,
        notify: false,
        field,
        op,
        ticker: String::new(),
        cls: String::new(),
    }
}

fn hit(rule_id: &str, rule_name: &str, subject: &str) -> Hit {
    Hit {
        rule_id: rule_id.into(),
        rule_name: rule_name.into(),
        portfolio_id: "p1".into(),
        subject: subject.into(),
        text: format!("{subject} weight is 50%"),
    }
}

#[test]
fn a_rule_reads_as_a_sentence_whether_or_not_it_was_named() {
    let mut r = rule(Field::Weight, Op::Above);
    assert_eq!(r.describe("40"), "any holding: weight above 40%");
    r.ticker = "EQNR.OL".into();
    assert_eq!(r.describe("40"), "EQNR.OL: weight above 40%");
    let mut c = rule(Field::ClassWeight, Op::Below);
    c.cls = "Energy".into();
    assert_eq!(c.describe("12.5"), "Energy: weight below 12.5%");
    assert_eq!(
        rule(Field::PortfolioDayMove, Op::Below).describe("-2"),
        "the portfolio: today's move below -2%"
    );
    assert_eq!(rule(Field::Price, Op::Above).describe("400"), "any holding: price above 400");
    assert_eq!(rule(Field::Drift, Op::Above).describe("3"), "any holding: drift above 3pp");
}

#[test]
fn only_rules_asking_to_notify_reach_the_phone_and_each_subject_keys_separately() {
    let mut r = rule(Field::Weight, Op::Above);
    r.name = "  Too concentrated  ".into();
    let hits = vec![hit("r1", &r.name, "EQNR.OL"), hit("r1", &r.name, "AAPL")];
    assert!(
        firings(&hits, std::slice::from_ref(&r)).is_empty(),
        "notify is off"
    );

    r.notify = true;
    let f = firings(&hits, std::slice::from_ref(&r));
    assert_eq!(f.len(), 2);
    assert_eq!(f[0].key, "rule:r1:EQNR.OL");
    assert_eq!(f[1].key, "rule:r1:AAPL", "one key per subject, not per rule");
    assert_eq!(f[0].text, "Too concentrated: EQNR.OL weight is 50%");

    r.enabled = false;
    assert!(firings(&hits, &[r]).is_empty(), "a switched-off rule stays quiet");
}

#[test]
fn an_unnamed_rule_sends_the_bare_text() {
    let mut r = rule(Field::DayMove, Op::Below);
    r.notify = true;
    let f = firings(&[hit("r1", "   ", "DNB.OL"), hit("other", "", "DNB.OL")], &[r]);
    assert_eq!(f.len(), 1);
    assert_eq!(f[0].text, "DNB.OL weight is 50%");
}

#[test]
fn labels_and_defaults() {
    assert_eq!(default_field(), Field::Weight);
    assert_eq!(default_op(), Op::Above);
    assert_eq!(Field::DayMove.label(), ("today's move", "%"));
    assert_eq!(Op::Below.word(), "below");
    assert!(Field::ClassWeight.whole_portfolio());
    assert!(Field::PortfolioDayMove.whole_portfolio());
    assert!(!Field::Weight.whole_portfolio());
}

#[test]
fn a_hit_says_what_was_measured_and_a_round_figure_loses_its_decimal() {
    assert_eq!(trimmed("40.0"), "40");
    assert_eq!(trimmed("12.5"), "12.5");
    assert_eq!(trimmed("-2.0"), "-2");
    assert_eq!(trimmed("0"), "0");
    let mut r = rule(Field::Weight, Op::Above);
    r.name = "Big".into();
    let h = Hit::new(&r, "p1", "EQNR.OL", &trimmed("45.0"));
    assert_eq!(h.text, "EQNR.OL weight is 45%");
    assert_eq!((h.rule_id.as_str(), h.rule_name.as_str()), ("r1", "Big"));
    assert_eq!((h.portfolio_id.as_str(), h.subject.as_str()), ("p1", "EQNR.OL"));
    let d = Hit::new(&rule(Field::Drift, Op::Above), "p1", "DNB.OL", "3.5");
    assert_eq!(d.text, "DNB.OL drift is 3.5pp");
}

fn shape(holdings: Vec<HoldingShape>, drift: Option<Vec<String>>) -> ViewShape {
    ViewShape {
        id: "p1".into(),
        name: "Personal".into(),
        holdings,
        classes: vec!["Energy".to_string()],
        drift,
    }
}

fn held(ticker: &str, priced: bool) -> HoldingShape {
    HoldingShape {
        id: format!("h_{ticker}"),
        ticker: ticker.into(),
        priced,
    }
}

fn subjects(rules: &[Rule], views: &[ViewShape]) -> Vec<(usize, usize, String, Figure)> {
    checks(rules, views)
        .into_iter()
        .map(|c| (c.rule, c.view, c.subject, c.figure))
        .collect()
}

#[test]
fn a_switched_off_rule_is_never_checked() {
    let v = vec![shape(vec![held("EQNR.OL", true)], None)];
    let mut r = rule(Field::Weight, Op::Above);
    assert_eq!(subjects(std::slice::from_ref(&r), &v).len(), 1);
    r.enabled = false;
    assert!(subjects(&[r], &v).is_empty());
}

#[test]
fn an_unpriced_holding_is_never_compared() {
    let v = vec![shape(vec![held("XNAS.DE", false), held("EQNR.OL", true)], None)];
    assert_eq!(
        subjects(&[rule(Field::Weight, Op::Below)], &v),
        vec![(0, 0, "EQNR.OL".to_string(), Figure::Holding(1))]
    );
}

#[test]
fn a_ticker_narrows_a_holding_rule_to_that_holding() {
    let v = vec![shape(vec![held("EQNR.OL", true), held("AAPL", true)], None)];
    let mut r = rule(Field::Price, Op::Above);
    assert_eq!(subjects(std::slice::from_ref(&r), &v).len(), 2);
    r.ticker = "AAPL".into();
    assert_eq!(
        subjects(&[r], &v),
        vec![(0, 0, "AAPL".to_string(), Figure::Holding(1))]
    );
}

#[test]
fn a_drift_rule_reads_the_holdings_own_drift_row_and_skips_one_without() {
    let r = rule(Field::Drift, Op::Below);
    let none = vec![shape(vec![held("EQNR.OL", true)], None)];
    assert!(subjects(std::slice::from_ref(&r), &none).is_empty(), "no rows at all");
    let other = vec![shape(
        vec![held("EQNR.OL", true), held("AAPL", true)],
        Some(vec!["h_AAPL".to_string()]),
    )];
    assert_eq!(
        subjects(&[r], &other),
        vec![(0, 0, "AAPL".to_string(), Figure::Drift(1, 0))]
    );
}

#[test]
fn the_portfolio_and_class_fields_ask_about_the_whole() {
    let v = vec![shape(vec![held("EQNR.OL", true), held("AAPL", true)], None)];
    assert_eq!(
        subjects(&[rule(Field::PortfolioDayMove, Op::Below)], &v),
        vec![(0, 0, "Personal".to_string(), Figure::PortfolioDayMove)]
    );
    let mut c = rule(Field::ClassWeight, Op::Above);
    c.cls = "Energy".into();
    assert_eq!(
        subjects(std::slice::from_ref(&c), &v),
        vec![(0, 0, "Energy".to_string(), Figure::Class(0))]
    );
    c.cls = "Utilities".into();
    assert!(subjects(&[c], &v).is_empty(), "a class not held is not a weight of zero");
}

#[test]
fn checks_come_rule_by_rule_and_portfolio_by_portfolio() {
    let v = vec![
        shape(vec![held("A", true)], None),
        shape(vec![held("B", true)], None),
    ];
    let mut second = rule(Field::DayMove, Op::Below);
    second.id = "r2".into();
    let got: Vec<(usize, usize)> = subjects(&[rule(Field::Weight, Op::Above), second], &v)
        .into_iter()
        .map(|(r, v, _, _)| (r, v))
        .collect();
    assert_eq!(got, vec![(0, 0), (0, 1), (1, 0), (1, 1)]);
}
