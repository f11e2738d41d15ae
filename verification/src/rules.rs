//! Saved conditions over figures the app already computes.
//!
//! A rule is a question with a yes or no answer about one holding, one class, or the portfolio:
//! "is anything more than 40% of the money". One field, one comparison, one number; two rules
//! that must both hold are two rules. Comparing a figure against the rule's number is
//! floating-point arithmetic and is done by the caller; what is decided here is what a rule
//! reads, how it reads as a sentence, and which hits reach a phone.

use vstd::prelude::*;

use crate::alerts::{firing_views, Firing};
use crate::import::texts;
use crate::optimize::{lemma_position_of, position, position_of};
use crate::text::{chars_eq, chars_of, slice_chars, string_of, trim, trim_chars};

verus! {

/// What a rule looks at. The money fields are read only from priced holdings.
#[derive(Clone, Copy, Debug, PartialEq, Eq, Structural)]
pub enum Field {
    /// Share of the portfolio, percent.
    Weight,
    /// Distance from the target weight, percentage points, signed.
    Drift,
    /// Today's move, percent, signed.
    DayMove,
    /// Gain or loss against what was paid, percent, signed.
    PlPct,
    /// The quoted price, in the holding's own currency.
    Price,
    /// The whole portfolio's move today, percent, signed.
    PortfolioDayMove,
    /// Share of the portfolio held in one class, percent.
    ClassWeight,
}

/// The field a new rule starts with.
pub fn default_field() -> (r: Field)
    ensures
        r == Field::Weight,
{
    Field::Weight
}

impl Field {
    pub open spec fn spec_whole_portfolio(self) -> bool {
        self == Field::PortfolioDayMove || self == Field::ClassWeight
    }

    /// Whether the rule asks about the portfolio rather than about each holding.
    pub fn whole_portfolio(self) -> (r: bool)
        ensures
            r == self.spec_whole_portfolio(),
    {
        match self {
            Field::PortfolioDayMove | Field::ClassWeight => true,
            _ => false,
        }
    }

    /// How the figure reads in a sentence, and in what unit.
    pub open spec fn spec_label(self) -> (Seq<char>, Seq<char>) {
        match self {
            Field::Weight => ("weight"@, "%"@),
            Field::Drift => ("drift"@, "pp"@),
            Field::DayMove => ("today's move"@, "%"@),
            Field::PlPct => ("profit"@, "%"@),
            Field::Price => ("price"@, ""@),
            Field::PortfolioDayMove => ("today's move"@, "%"@),
            Field::ClassWeight => ("weight"@, "%"@),
        }
    }

    pub fn label(self) -> (r: (&'static str, &'static str))
        ensures
            (r.0@, r.1@) == self.spec_label(),
    {
        match self {
            Field::Weight => ("weight", "%"),
            Field::Drift => ("drift", "pp"),
            Field::DayMove => ("today's move", "%"),
            Field::PlPct => ("profit", "%"),
            Field::Price => ("price", ""),
            Field::PortfolioDayMove => ("today's move", "%"),
            Field::ClassWeight => ("weight", "%"),
        }
    }
}

/// Which side of its number a rule fires on. At the number counts, on either side.
#[derive(Clone, Copy, Debug, PartialEq, Eq)]
pub enum Op {
    Above,
    Below,
}

/// The comparison a new rule starts with.
pub fn default_op() -> (r: Op)
    ensures
        r == Op::Above,
{
    Op::Above
}

impl Op {
    pub open spec fn spec_word(self) -> Seq<char> {
        match self {
            Op::Above => "above"@,
            Op::Below => "below"@,
        }
    }

    pub fn word(self) -> (r: &'static str)
        ensures
            r@ == self.spec_word(),
    {
        match self {
            Op::Above => "above",
            Op::Below => "below",
        }
    }
}

/// A saved rule, without the number it compares against, which the caller holds beside it.
#[derive(Clone, Debug, PartialEq)]
pub struct Rule {
    pub id: String,
    /// What the user called it. Empty is fine: `describe` writes the sentence either way.
    pub name: String,
    pub enabled: bool,
    /// Whether a hit should also reach the phone through the alert loop.
    pub notify: bool,
    pub field: Field,
    pub op: Op,
    /// Narrows a holding rule to one ticker. Empty means every holding.
    pub ticker: String,
    /// Which class a `ClassWeight` rule is about. Ignored by every other field.
    pub cls: String,
}

impl Rule {
    /// Whom the sentence is about.
    pub open spec fn spec_subject(&self) -> Seq<char> {
        match self.field {
            Field::PortfolioDayMove => "the portfolio"@,
            Field::ClassWeight => self.cls@,
            _ => if self.ticker@.len() == 0 {
                "any holding"@
            } else {
                self.ticker@
            },
        }
    }

    /// The rule as a sentence, `value` being its number as the screen writes it.
    pub open spec fn spec_describe(&self, value: Seq<char>) -> Seq<char> {
        self.spec_subject() + ": "@ + self.field.spec_label().0 + " "@ + self.op.spec_word() + " "@
            + value + self.field.spec_label().1
    }

    /// The rule as a sentence, for the screen and for the notification, given its number as
    /// the screen writes it ("40", "12.5", "-2").
    pub fn describe(&self, value: &str) -> (r: String)
        ensures
            r@ == self.spec_describe(value@),
    {
        let (what, unit) = self.field.label();
        let mut out = match self.field {
            Field::PortfolioDayMove => String::from_str("the portfolio"),
            Field::ClassWeight => self.cls.clone(),
            _ => if self.ticker.as_str().unicode_len() == 0 {
                String::from_str("any holding")
            } else {
                self.ticker.clone()
            },
        };
        out.append(": ");
        out.append(what);
        out.append(" ");
        out.append(self.op.word());
        out.append(" ");
        out.append(value);
        out.append(unit);
        out
    }
}

/// One rule currently true, and whom it is true of. The figure that made it true is the
/// caller's.
#[derive(Clone, Debug, PartialEq)]
pub struct Hit {
    pub rule_id: String,
    pub rule_name: String,
    pub portfolio_id: String,
    /// The ticker, the class, or the portfolio's name.
    pub subject: String,
    pub text: String,
}

/// A figure written with one decimal, without a trailing one on a round number: "40" rather
/// than "40.0", "12.5" as it is.
pub open spec fn trimmed_of(fixed: Seq<char>) -> Seq<char> {
    if fixed.len() >= 2 && fixed.subrange(fixed.len() - 2, fixed.len() as int) == ".0"@ {
        fixed.subrange(0, fixed.len() - 2)
    } else {
        fixed
    }
}

/// `fixed` is the figure as `{:.1}` writes it; this takes the `.0` off a round one.
pub fn trimmed(fixed: &str) -> (r: String)
    ensures
        r@ == trimmed_of(fixed@),
{
    let c = chars_of(fixed);
    let n = c.len();
    proof {
        reveal_strlit(".0");
    }
    if n >= 2 && c[n - 2] == '.' && c[n - 1] == '0' {
        assert(c@.subrange(n - 2, n as int) =~= ".0"@);
        string_of(&slice_chars(&c, 0, n - 2))
    } else {
        proof {
            if n >= 2 && c@.subrange(n - 2, n as int) == ".0"@ {
                assert(c@.subrange(n - 2, n as int)[0] == c@[n - 2]);
                assert(c@.subrange(n - 2, n as int)[1] == c@[n - 1]);
            }
        }
        String::from_str(fixed)
    }
}

/// The sentence a hit carries: the subject, what was measured, and the figure with its unit.
pub open spec fn hit_text_of(subject: Seq<char>, field: Field, figure: Seq<char>) -> Seq<char> {
    subject + " "@ + field.spec_label().0 + " is "@ + figure + field.spec_label().1
}

impl Hit {
    /// The hit a rule makes on a subject in a portfolio, given the figure as the screen writes it.
    /// Whether the rule holds for the figure is the caller's comparison.
    pub fn new(rule: &Rule, portfolio_id: &str, subject: &str, figure: &str) -> (r: Hit)
        ensures
            r.rule_id@ == rule.id@,
            r.rule_name@ == rule.name@,
            r.portfolio_id@ == portfolio_id@,
            r.subject@ == subject@,
            r.text@ == hit_text_of(subject@, rule.field, figure@),
    {
        let (what, unit) = rule.field.label();
        let mut text = String::from_str(subject);
        text.append(" ");
        text.append(what);
        text.append(" is ");
        text.append(figure);
        text.append(unit);
        Hit {
            rule_id: rule.id.clone(),
            rule_name: rule.name.clone(),
            portfolio_id: String::from_str(portfolio_id),
            subject: String::from_str(subject),
            text,
        }
    }
}

/// Whether some enabled rule with this id asks to notify.
pub open spec fn notifying(rules: Seq<Rule>, id: Seq<char>) -> bool {
    exists|i: int| 0 <= i < rules.len() && #[trigger] rules[i].id@ == id && rules[i].notify
        && rules[i].enabled
}

/// The firing a hit becomes: keyed by rule and subject, and worded with the rule's name when
/// it has one.
pub open spec fn firing_of(h: Hit) -> (Seq<char>, Seq<char>) {
    (
        "rule:"@ + h.rule_id@ + ":"@ + h.subject@,
        if trim(h.rule_name@).len() == 0 {
            h.text@
        } else {
            trim(h.rule_name@) + ": "@ + h.text@
        },
    )
}

/// The hits whose rule asks to notify, as firings, in order.
pub open spec fn firings_of(hits: Seq<Hit>, rules: Seq<Rule>) -> Seq<(Seq<char>, Seq<char>)>
    decreases hits.len(),
{
    if hits.len() == 0 {
        Seq::<(Seq<char>, Seq<char>)>::empty()
    } else if notifying(rules, hits.last().rule_id@) {
        firings_of(hits.drop_last(), rules).push(firing_of(hits.last()))
    } else {
        firings_of(hits.drop_last(), rules)
    }
}

fn notifies(rules: &[Rule], id: &String) -> (r: bool)
    ensures
        r == notifying(rules@, id@),
{
    let want = chars_of(id.as_str());
    let mut i: usize = 0;
    while i < rules.len()
        invariant
            i <= rules@.len(),
            want@ == id@,
            forall|j: int|
                0 <= j < i ==> !(#[trigger] rules@[j].id@ == id@ && rules@[j].notify
                    && rules@[j].enabled),
        decreases rules@.len() - i,
    {
        let r = &rules[i];
        if r.notify && r.enabled && chars_eq(&chars_of(r.id.as_str()), &want) {
            return true;
        }
        i += 1;
    }
    false
}

/// The hits that asked to reach a phone, as alert firings.
///
/// The key carries the rule and the subject, so a rule watching every holding buzzes once per
/// holding and then stays quiet, exactly like every other alert.
pub fn firings(hits: &[Hit], rules: &[Rule]) -> (r: Vec<Firing>)
    ensures
        firing_views(r@) == firings_of(hits@, rules@),
{
    let mut out: Vec<Firing> = Vec::new();
    let mut i: usize = 0;
    while i < hits.len()
        invariant
            i <= hits@.len(),
            firing_views(out@) == firings_of(hits@.take(i as int), rules@),
        decreases hits@.len() - i,
    {
        assert(hits@.take(i as int + 1).drop_last() =~= hits@.take(i as int));
        assert(hits@.take(i as int + 1).last() == hits@[i as int]);
        let h = &hits[i];
        if notifies(rules, &h.rule_id) {
            let mut key = String::from_str("rule:");
            key.append(h.rule_id.as_str());
            key.append(":");
            key.append(h.subject.as_str());
            let name = trim_chars(&chars_of(h.rule_name.as_str()));
            let text = if name.len() == 0 {
                h.text.clone()
            } else {
                let mut t = string_of(&name);
                t.append(": ");
                t.append(h.text.as_str());
                t
            };
            let f = Firing { key, text };
            assert(f@ == firing_of(hits@[i as int]));
            let ghost before = out@;
            out.push(f);
            assert(firing_views(out@) =~= firing_views(before).push(f@));
        }
        i += 1;
    }
    assert(hits@.take(i as int) =~= hits@);
    out
}

/// A rule that does not ask to notify, or is switched off, never reaches the phone: with no
/// rule that both notifies and is enabled, no hit becomes a firing.
pub proof fn law_only_notifying_rules_reach_the_phone(hits: Seq<Hit>, rules: Seq<Rule>)
    requires
        forall|i: int| 0 <= i < rules.len() ==> !(#[trigger] rules[i].notify && rules[i].enabled),
    ensures
        firings_of(hits, rules).len() == 0,
    decreases hits.len(),
{
    if hits.len() > 0 {
        law_only_notifying_rules_reach_the_phone(hits.drop_last(), rules);
        if notifying(rules, hits.last().rule_id@) {
            let i = choose|i: int|
                0 <= i < rules.len() && #[trigger] rules[i].id@ == hits.last().rule_id@
                    && rules[i].notify && rules[i].enabled;
            assert(!(rules[i].notify && rules[i].enabled));
        }
    }
}

/// Each subject keys separately: two hits of one rule on different subjects give different
/// keys.
pub proof fn law_each_subject_keys_separately(a: Hit, b: Hit)
    requires
        a.rule_id@ == b.rule_id@,
        a.subject@ != b.subject@,
    ensures
        firing_of(a).0 != firing_of(b).0,
{
    let pa = "rule:"@ + a.rule_id@ + ":"@;
    let pb = "rule:"@ + b.rule_id@ + ":"@;
    assert(pa == pb);
    if firing_of(a).0 == firing_of(b).0 {
        assert((pa + a.subject@).skip(pa.len() as int) =~= a.subject@);
        assert((pb + b.subject@).skip(pb.len() as int) =~= b.subject@);
    }
}

// ---------------------------------------------------------------------------------------------
// Which figures the rules are checked against.

/// A holding as the rules read it: which one it is, its ticker, and whether it is priced.
pub struct HoldingShape {
    pub id: String,
    pub ticker: String,
    pub priced: bool,
}

/// A portfolio as the rules read it: its id and name, its holdings in order, the classes it
/// holds in the order they are listed, and the holdings its drift rows are for, in order
/// (`None` when it has no drift rows at all).
pub struct ViewShape {
    pub id: String,
    pub name: String,
    pub holdings: Vec<HoldingShape>,
    pub classes: Vec<String>,
    pub drift: Option<Vec<String>>,
}

/// The holdings a portfolio's drift rows are for, none when it has no drift rows.
pub open spec fn drift_ids(v: ViewShape) -> Seq<Seq<char>> {
    match v.drift {
        Some(ids) => texts(ids@),
        None => Seq::empty(),
    }
}

/// The figure a check compares against the rule's number.
#[derive(Clone, Copy, Debug, PartialEq, Eq)]
pub enum Figure {
    /// The portfolio's move today.
    PortfolioDayMove,
    /// The weight of the class at this position in the portfolio's class list.
    Class(usize),
    /// The rule's field of the holding at this position.
    Holding(usize),
    /// The drift of the holding at the first position, from the drift row at the second.
    Drift(usize, usize),
}

/// One comparison to make: rule `rule` against a figure of portfolio `view`, about `subject`.
/// Whether the figure is on the rule's side of its number is the caller's comparison; a hit
/// is then made with `Hit::new`.
pub struct Check {
    pub rule: usize,
    pub view: usize,
    pub subject: String,
    pub figure: Figure,
}

pub type CheckView = (int, int, Seq<char>, Figure);

pub open spec fn check_views(v: Seq<Check>) -> Seq<CheckView> {
    v.map_values(|c: Check| (c.rule as int, c.view as int, c.subject@, c.figure))
}

/// Whether a field reads one figure of each holding.
pub open spec fn holding_field(f: Field) -> bool {
    f == Field::Weight || f == Field::DayMove || f == Field::PlPct || f == Field::Price
}

/// Whether a rule reads a holding: it is priced, and the rule names no ticker or names its own.
/// An unpriced holding has a zeroed weight and price, which mean "unknown", not "zero".
pub open spec fn reads_holding(r: Rule, h: HoldingShape) -> bool {
    h.priced && (r.ticker@.len() == 0 || h.ticker@ == r.ticker@)
}

/// The checks of rule `r` (at `ri`) against the first `n` holdings of `v` (at `vi`). A drift
/// rule skips a holding without a drift row: no target to drift from is not a zero drift.
pub open spec fn holding_checks(r: Rule, ri: int, v: ViewShape, vi: int, n: nat) -> Seq<CheckView>
    decreases n,
{
    if n == 0 {
        Seq::empty()
    } else {
        let prev = holding_checks(r, ri, v, vi, (n - 1) as nat);
        let h = v.holdings@[n - 1];
        if !reads_holding(r, h) {
            prev
        } else if holding_field(r.field) {
            prev.push((ri, vi, h.ticker@, Figure::Holding((n - 1) as usize)))
        } else if r.field == Field::Drift {
            match v.drift {
                Some(ids) => match position_of(texts(ids@), h.id@) {
                    Some(d) => prev.push((ri, vi, h.ticker@, Figure::Drift((n - 1) as usize, d as usize))),
                    None => prev,
                },
                None => prev,
            }
        } else {
            prev
        }
    }
}

/// The checks of rule `r` against portfolio `v`: the whole portfolio's move, the weight of the
/// class the rule names if the portfolio holds it (a class it does not hold is not a weight of
/// zero), or the figure of each holding the rule reads.
pub open spec fn view_checks(r: Rule, ri: int, v: ViewShape, vi: int) -> Seq<CheckView> {
    if r.field == Field::PortfolioDayMove {
        seq![(ri, vi, v.name@, Figure::PortfolioDayMove)]
    } else if r.field == Field::ClassWeight {
        match position_of(texts(v.classes@), r.cls@) {
            Some(c) => seq![(ri, vi, v.classes@[c]@, Figure::Class(c as usize))],
            None => Seq::empty(),
        }
    } else {
        holding_checks(r, ri, v, vi, v.holdings@.len())
    }
}

/// The checks of rule `r` against each portfolio in turn.
pub open spec fn over_views(r: Rule, ri: int, views: Seq<ViewShape>) -> Seq<CheckView>
    decreases views.len(),
{
    if views.len() == 0 {
        Seq::empty()
    } else {
        over_views(r, ri, views.drop_last()) + view_checks(
            r,
            ri,
            views.last(),
            views.len() - 1,
        )
    }
}

/// Every check, rule by rule; a switched-off rule is not checked at all.
pub open spec fn checks_of(rules: Seq<Rule>, views: Seq<ViewShape>) -> Seq<CheckView>
    decreases rules.len(),
{
    if rules.len() == 0 {
        Seq::empty()
    } else {
        let prev = checks_of(rules.drop_last(), views);
        let r = rules.last();
        if r.enabled {
            prev + over_views(r, rules.len() - 1, views)
        } else {
            prev
        }
    }
}

fn figure_of_holding(r: &Rule, v: &ViewShape, i: usize) -> (f: Option<Figure>)
    requires
        i < v.holdings@.len(),
    ensures
        ({
            let h = v.holdings@[i as int];
            if !reads_holding(*r, h) {
                f is None
            } else if holding_field(r.field) {
                f == Some(Figure::Holding(i))
            } else if r.field == Field::Drift {
                match v.drift {
                    Some(ids) => match position_of(texts(ids@), h.id@) {
                        Some(d) => f == Some(Figure::Drift(i, d as usize)),
                        None => f is None,
                    },
                    None => f is None,
                }
            } else {
                f is None
            }
        }),
{
    let h = &v.holdings[i];
    if !h.priced {
        return None;
    }
    if r.ticker.as_str().unicode_len() > 0 && !chars_eq(
        &chars_of(h.ticker.as_str()),
        &chars_of(r.ticker.as_str()),
    ) {
        return None;
    }
    match r.field {
        Field::Weight | Field::DayMove | Field::PlPct | Field::Price => Some(Figure::Holding(i)),
        Field::Drift => match &v.drift {
            Some(ids) => match position(ids.as_slice(), &h.id) {
                Some(d) => Some(Figure::Drift(i, d)),
                None => None,
            },
            None => None,
        },
        _ => None,
    }
}

fn push_view_checks(out: &mut Vec<Check>, r: &Rule, ri: usize, v: &ViewShape, vi: usize)
    ensures
        check_views(final(out)@) == check_views(old(out)@) + view_checks(
            *r,
            ri as int,
            *v,
            vi as int,
        ),
{
    let ghost start = check_views(out@);
    if r.field == Field::PortfolioDayMove {
        out.push(Check { rule: ri, view: vi, subject: v.name.clone(), figure: Figure::PortfolioDayMove });
        assert(check_views(out@) =~= start + view_checks(*r, ri as int, *v, vi as int));
        return;
    }
    if r.field == Field::ClassWeight {
        match position(v.classes.as_slice(), &r.cls) {
            Some(c) => {
                proof {
                    lemma_position_of(texts(v.classes@), r.cls@);
                    assert(texts(v.classes@)[c as int] == v.classes@[c as int]@);
                }
                out.push(Check {
                    rule: ri,
                    view: vi,
                    subject: v.classes[c].clone(),
                    figure: Figure::Class(c),
                });
                assert(check_views(out@) =~= start + view_checks(*r, ri as int, *v, vi as int));
            },
            None => {
                assert(check_views(out@) =~= start + view_checks(*r, ri as int, *v, vi as int));
            },
        }
        return;
    }
    let mut i: usize = 0;
    assert(check_views(out@) =~= start + holding_checks(*r, ri as int, *v, vi as int, 0));
    while i < v.holdings.len()
        invariant
            i <= v.holdings@.len(),
            r.field != Field::PortfolioDayMove && r.field != Field::ClassWeight,
            check_views(out@) == start + holding_checks(*r, ri as int, *v, vi as int, i as nat),
        decreases v.holdings@.len() - i,
    {
        let ghost before = check_views(out@);
        match figure_of_holding(r, v, i) {
            Some(f) => {
                out.push(Check { rule: ri, view: vi, subject: v.holdings[i].ticker.clone(), figure: f });
                proof {
                    lemma_position_of(drift_ids(*v), v.holdings@[i as int].id@);
                }
                assert(check_views(out@) =~= before.push(
                    (ri as int, vi as int, v.holdings@[i as int].ticker@, f),
                ));
            },
            None => {},
        }
        i += 1;
    }
}

/// Every comparison the rules ask for, in order: rule by rule, portfolio by portfolio, holding
/// by holding. Switched-off rules and unpriced holdings are skipped, a ticker narrows a holding
/// rule to that holding, and a drift rule reads the holding's own drift row.
pub fn checks(rules: &[Rule], views: &[ViewShape]) -> (r: Vec<Check>)
    ensures
        check_views(r@) == checks_of(rules@, views@),
{
    let mut out: Vec<Check> = Vec::new();
    let mut ri: usize = 0;
    while ri < rules.len()
        invariant
            ri <= rules@.len(),
            check_views(out@) == checks_of(rules@.take(ri as int), views@),
        decreases rules@.len() - ri,
    {
        let ghost pre = check_views(out@);
        proof {
            let t = rules@.take(ri as int + 1);
            assert(t.drop_last() =~= rules@.take(ri as int));
            assert(t.last() == rules@[ri as int]);
        }
        if rules[ri].enabled {
            let mut vi: usize = 0;
            assert(pre + over_views(rules@[ri as int], ri as int, views@.take(0)) =~= pre);
            while vi < views.len()
                invariant
                    ri < rules@.len(),
                    vi <= views@.len(),
                    check_views(out@) == pre + over_views(
                        rules@[ri as int],
                        ri as int,
                        views@.take(vi as int),
                    ),
                decreases views@.len() - vi,
            {
                proof {
                    let t = views@.take(vi as int + 1);
                    assert(t.drop_last() =~= views@.take(vi as int));
                    assert(t.last() == views@[vi as int]);
                }
                push_view_checks(&mut out, &rules[ri], ri, &views[vi], vi);
                assert(check_views(out@) =~= pre + over_views(
                    rules@[ri as int],
                    ri as int,
                    views@.take(vi as int + 1),
                ));
                vi += 1;
            }
            assert(views@.take(vi as int) =~= views@);
        }
        ri += 1;
    }
    assert(rules@.take(ri as int) =~= rules@);
    out
}

/// What a check of rule `r` against portfolio `v` may read: the portfolio's own move for a
/// portfolio rule, the class a class rule names, and otherwise a holding the rule reads (priced,
/// and the one its ticker names if it names one), for a drift rule through that holding's own
/// drift row.
pub open spec fn reads_for(r: Rule, v: ViewShape, subject: Seq<char>, fig: Figure) -> bool {
    match fig {
        Figure::PortfolioDayMove => r.field == Field::PortfolioDayMove && subject == v.name@,
        Figure::Class(c) => {
            &&& r.field == Field::ClassWeight
            &&& c < v.classes@.len()
            &&& v.classes@[c as int]@ == r.cls@
            &&& subject == r.cls@
        },
        Figure::Holding(h) => {
            &&& holding_field(r.field)
            &&& h < v.holdings@.len()
            &&& reads_holding(r, v.holdings@[h as int])
            &&& subject == v.holdings@[h as int].ticker@
        },
        Figure::Drift(h, d) => {
            &&& r.field == Field::Drift
            &&& h < v.holdings@.len()
            &&& reads_holding(r, v.holdings@[h as int])
            &&& d < drift_ids(v).len()
            &&& drift_ids(v)[d as int] == v.holdings@[h as int].id@
            &&& subject == v.holdings@[h as int].ticker@
        },
    }
}

proof fn lemma_holding_checks_read(r: Rule, ri: int, v: ViewShape, vi: int, n: nat)
    requires
        n <= v.holdings@.len(),
    ensures
        forall|k: int|
            0 <= k < holding_checks(r, ri, v, vi, n).len() ==> {
                let c = #[trigger] holding_checks(r, ri, v, vi, n)[k];
                c.0 == ri && c.1 == vi && reads_for(r, v, c.2, c.3)
            },
    decreases n,
{
    if n > 0 {
        lemma_holding_checks_read(r, ri, v, vi, (n - 1) as nat);
        lemma_position_of(drift_ids(v), v.holdings@[n - 1].id@);
        assert(v.holdings@.len() == v.holdings.len());
        match v.drift {
            Some(ids) => {
                assert(ids@.len() == ids.len());
            },
            None => {},
        }
        let prev = holding_checks(r, ri, v, vi, (n - 1) as nat);
        let all = holding_checks(r, ri, v, vi, n);
        assert forall|k: int| 0 <= k < all.len() implies {
            let c = #[trigger] all[k];
            c.0 == ri && c.1 == vi && reads_for(r, v, c.2, c.3)
        } by {
            if k < prev.len() {
                assert(all[k] == prev[k]);
            }
        }
    }
}

proof fn lemma_view_checks_read(r: Rule, ri: int, v: ViewShape, vi: int)
    ensures
        forall|k: int|
            0 <= k < view_checks(r, ri, v, vi).len() ==> {
                let c = #[trigger] view_checks(r, ri, v, vi)[k];
                c.0 == ri && c.1 == vi && reads_for(r, v, c.2, c.3)
            },
{
    lemma_holding_checks_read(r, ri, v, vi, v.holdings@.len());
    lemma_position_of(texts(v.classes@), r.cls@);
    assert(v.classes@.len() == v.classes.len());
    match position_of(texts(v.classes@), r.cls@) {
        Some(c) => {
            assert(texts(v.classes@)[c] == v.classes@[c]@);
        },
        None => {},
    }
}

proof fn lemma_over_views_read(r: Rule, ri: int, views: Seq<ViewShape>)
    ensures
        forall|k: int|
            0 <= k < over_views(r, ri, views).len() ==> {
                let c = #[trigger] over_views(r, ri, views)[k];
                c.0 == ri && 0 <= c.1 < views.len() && reads_for(r, views[c.1], c.2, c.3)
            },
    decreases views.len(),
{
    if views.len() > 0 {
        let init = views.drop_last();
        lemma_over_views_read(r, ri, init);
        lemma_view_checks_read(r, ri, views.last(), views.len() - 1);
        let prev = over_views(r, ri, init);
        let here = view_checks(r, ri, views.last(), views.len() - 1);
        let all = over_views(r, ri, views);
        assert forall|k: int| 0 <= k < all.len() implies {
            let c = #[trigger] all[k];
            c.0 == ri && 0 <= c.1 < views.len() && reads_for(r, views[c.1], c.2, c.3)
        } by {
            if k < prev.len() {
                assert(all[k] == prev[k]);
                assert(views[prev[k].1] == init[prev[k].1]);
            } else {
                assert(all[k] == here[k - prev.len()]);
            }
        }
    }
}

proof fn lemma_holding_checks_has(r: Rule, ri: int, v: ViewShape, vi: int, n: nat, h: int)
    requires
        0 <= h < n <= v.holdings@.len(),
        n <= usize::MAX,
        reads_holding(r, v.holdings@[h]),
        holding_field(r.field),
    ensures
        holding_checks(r, ri, v, vi, n).contains(
            (ri, vi, v.holdings@[h].ticker@, Figure::Holding(h as usize)),
        ),
    decreases n,
{
    let x = (ri, vi, v.holdings@[h].ticker@, Figure::Holding(h as usize));
    let prev = holding_checks(r, ri, v, vi, (n - 1) as nat);
    let all = holding_checks(r, ri, v, vi, n);
    if h == n - 1 {
        assert(all == prev.push(x));
        assert(all[all.len() - 1] == x);
    } else {
        lemma_holding_checks_has(r, ri, v, vi, (n - 1) as nat, h);
        let k = choose|k: int| 0 <= k < prev.len() && prev[k] == x;
        assert(all[k] == x);
    }
}

proof fn lemma_over_views_has(r: Rule, ri: int, views: Seq<ViewShape>, vi: int, x: CheckView)
    requires
        0 <= vi < views.len(),
        view_checks(r, ri, views[vi], vi).contains(x),
    ensures
        over_views(r, ri, views).contains(x),
    decreases views.len(),
{
    let init = views.drop_last();
    let prev = over_views(r, ri, init);
    let here = view_checks(r, ri, views.last(), views.len() - 1);
    let all = over_views(r, ri, views);
    assert(all == prev + here);
    if vi == views.len() - 1 {
        let k = choose|k: int| 0 <= k < here.len() && here[k] == x;
        assert(all[prev.len() + k] == x);
    } else {
        assert(init[vi] == views[vi]);
        lemma_over_views_has(r, ri, init, vi, x);
        let k = choose|k: int| 0 <= k < prev.len() && prev[k] == x;
        assert(all[k] == x);
    }
}

proof fn lemma_checks_of_has(rules: Seq<Rule>, views: Seq<ViewShape>, ri: int, x: CheckView)
    requires
        0 <= ri < rules.len(),
        rules[ri].enabled,
        over_views(rules[ri], ri, views).contains(x),
    ensures
        checks_of(rules, views).contains(x),
    decreases rules.len(),
{
    let init = rules.drop_last();
    let prev = checks_of(init, views);
    let all = checks_of(rules, views);
    if ri == rules.len() - 1 {
        let here = over_views(rules.last(), ri, views);
        assert(all == prev + here);
        let k = choose|k: int| 0 <= k < here.len() && here[k] == x;
        assert(all[prev.len() + k] == x);
    } else {
        assert(init[ri] == rules[ri]);
        lemma_checks_of_has(init, views, ri, x);
        let k = choose|k: int| 0 <= k < prev.len() && prev[k] == x;
        if rules.last().enabled {
            assert(all == prev + over_views(rules.last(), rules.len() - 1, views));
        }
        assert(all[k] == x);
    }
}

/// Every comparison a rule asks for is made. A switched-on rule on a holding's weight, daily
/// move, profit or loss, or price is compared against that figure of every priced holding of
/// every portfolio, when it names no ticker or names that holding's; a switched-on rule on the
/// portfolio's daily move is compared against every portfolio's move.
pub proof fn law_every_figure_a_rule_asks_for_is_checked(rules: Seq<Rule>, views: Seq<ViewShape>)
    ensures
        forall|ri: int, vi: int, h: int|
            #![trigger rules[ri], views[vi].holdings@[h]]
            0 <= ri < rules.len() && 0 <= vi < views.len() && 0 <= h < views[vi].holdings@.len()
                && rules[ri].enabled && (rules[ri].field == Field::Weight || rules[ri].field
                == Field::DayMove || rules[ri].field == Field::PlPct || rules[ri].field
                == Field::Price) && views[vi].holdings@[h].priced && (rules[ri].ticker@.len() == 0
                || views[vi].holdings@[h].ticker@ == rules[ri].ticker@) ==> checks_of(
                rules,
                views,
            ).contains((ri, vi, views[vi].holdings@[h].ticker@, Figure::Holding(h as usize))),
        forall|ri: int, vi: int|
            #![trigger rules[ri], views[vi]]
            0 <= ri < rules.len() && 0 <= vi < views.len() && rules[ri].enabled && rules[ri].field
                == Field::PortfolioDayMove ==> checks_of(rules, views).contains(
                (ri, vi, views[vi].name@, Figure::PortfolioDayMove),
            ),
{
    assert forall|ri: int, vi: int, h: int|
        #![trigger rules[ri], views[vi].holdings@[h]]
        0 <= ri < rules.len() && 0 <= vi < views.len() && 0 <= h < views[vi].holdings@.len()
            && rules[ri].enabled && (rules[ri].field == Field::Weight || rules[ri].field
            == Field::DayMove || rules[ri].field == Field::PlPct || rules[ri].field
            == Field::Price) && views[vi].holdings@[h].priced && (rules[ri].ticker@.len() == 0
            || views[vi].holdings@[h].ticker@ == rules[ri].ticker@) implies checks_of(
        rules,
        views,
    ).contains((ri, vi, views[vi].holdings@[h].ticker@, Figure::Holding(h as usize))) by {
        let r = rules[ri];
        let v = views[vi];
        let x = (ri, vi, v.holdings@[h].ticker@, Figure::Holding(h as usize));
        assert(v.holdings@.len() == v.holdings.len());
        lemma_holding_checks_has(r, ri, v, vi, v.holdings@.len(), h);
        assert(view_checks(r, ri, v, vi) == holding_checks(r, ri, v, vi, v.holdings@.len()));
        lemma_over_views_has(r, ri, views, vi, x);
        lemma_checks_of_has(rules, views, ri, x);
    }
    assert forall|ri: int, vi: int|
        #![trigger rules[ri], views[vi]]
        0 <= ri < rules.len() && 0 <= vi < views.len() && rules[ri].enabled && rules[ri].field
            == Field::PortfolioDayMove implies checks_of(rules, views).contains(
        (ri, vi, views[vi].name@, Figure::PortfolioDayMove),
    ) by {
        let x = (ri, vi, views[vi].name@, Figure::PortfolioDayMove);
        assert(view_checks(rules[ri], ri, views[vi], vi)[0] == x);
        lemma_over_views_has(rules[ri], ri, views, vi, x);
        lemma_checks_of_has(rules, views, ri, x);
    }
}

/// Every comparison the rules make is one they ask for: its rule is switched on, and it reads
/// only what that rule may read of that portfolio. A switched-off rule is never checked, an
/// unpriced holding is never compared, a ticker narrows a rule to its holding, a drift rule reads
/// the holding's own drift row, and a class rule reads the class it names.
pub proof fn law_every_check_is_one_the_rules_ask_for(rules: Seq<Rule>, views: Seq<ViewShape>)
    ensures
        forall|k: int|
            0 <= k < checks_of(rules, views).len() ==> {
                let c = #[trigger] checks_of(rules, views)[k];
                &&& 0 <= c.0 < rules.len()
                &&& rules[c.0].enabled
                &&& 0 <= c.1 < views.len()
                &&& reads_for(rules[c.0], views[c.1], c.2, c.3)
            },
    decreases rules.len(),
{
    if rules.len() > 0 {
        let init = rules.drop_last();
        law_every_check_is_one_the_rules_ask_for(init, views);
        let prev = checks_of(init, views);
        let all = checks_of(rules, views);
        let ri = rules.len() - 1;
        lemma_over_views_read(rules.last(), ri, views);
        assert forall|k: int| 0 <= k < all.len() implies {
            let c = #[trigger] all[k];
            &&& 0 <= c.0 < rules.len()
            &&& rules[c.0].enabled
            &&& 0 <= c.1 < views.len()
            &&& reads_for(rules[c.0], views[c.1], c.2, c.3)
        } by {
            if k < prev.len() {
                assert(all[k] == prev[k]);
                assert(rules[prev[k].0] == init[prev[k].0]);
            } else {
                let here = over_views(rules.last(), ri, views);
                assert(all[k] == here[k - prev.len()]);
                assert(rules[ri] == rules.last());
            }
        }
    }
}

/// No rule is compared against a holding it does not read: every holding figure a check names
/// is of a priced holding, of the rule's own ticker when it names one, for a switched-on rule
/// on that holding's weight, daily move, profit or loss, or price.
pub proof fn law_no_rule_reads_an_unpriced_holding(rules: Seq<Rule>, views: Seq<ViewShape>)
    ensures
        forall|k: int|
            0 <= k < checks_of(rules, views).len() ==> {
                let c = #[trigger] checks_of(rules, views)[k];
                c.3 matches Figure::Holding(h) ==> {
                    &&& 0 <= c.0 < rules.len() && 0 <= c.1 < views.len()
                    &&& rules[c.0].enabled
                    &&& rules[c.0].field == Field::Weight || rules[c.0].field == Field::DayMove
                        || rules[c.0].field == Field::PlPct || rules[c.0].field == Field::Price
                    &&& h < views[c.1].holdings@.len()
                    &&& views[c.1].holdings@[h as int].priced
                    &&& rules[c.0].ticker@.len() == 0 || views[c.1].holdings@[h as int].ticker@
                        == rules[c.0].ticker@
                }
            },
{
    law_every_check_is_one_the_rules_ask_for(rules, views);
}

} // verus!
