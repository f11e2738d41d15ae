//! Alerts that fire on a phone: the switches that say which kinds are wanted and what each asks
//! to be compared, under which key; the quiet hours; the old-price and unpriced firings; and the
//! change tracking that sends each breach once.
//!
//! An ntfy topic is public to anyone who knows its name, so a notification carries a ticker
//! and a percentage and never an amount. Whether a figure passes a threshold or a price level
//! is arithmetic on floating-point figures and is done by the caller, check by check.

use vstd::prelude::*;

use crate::rules::HoldingShape;
use crate::text::{chars_eq, chars_of, decimal, push_decimal, string_of, trim, trim_chars};

verus! {

/// Where notifications go unless a self-hosted server is configured.
pub const DEFAULT_SERVER: &'static str = "https://ntfy.sh";

/// Quotes older than this, in seconds, mean the figures on screen are not today's.
pub const STALE_SECS: i64 = 21600;

/// The alert switches and where to send, as stored beside the portfolios. The numeric
/// thresholds and price levels belong to the caller, whose figures are floating point.
#[derive(Clone, Debug, Default, PartialEq)]
pub struct Alerts {
    pub enabled: bool,
    /// The ntfy topic. Treat it as a password that is printed on every message.
    pub topic: String,
    pub server: String,
    pub drift: bool,
    pub big_move: bool,
    pub portfolio_move: bool,
    /// Hours of the local day between which nothing is sent. Equal hours mean no quiet window.
    pub quiet_from: u32,
    pub quiet_to: u32,
    pub stale: bool,
}

/// Whether `hour` falls inside the quiet window from `from` to `to`, both taken modulo 24. The
/// window wraps past midnight, and equal ends mean no window at all.
pub open spec fn quiet_spec(from: u32, to: u32, hour: u32) -> bool {
    let (f, t) = (from % 24, to % 24);
    if f == t {
        false
    } else if f < t {
        f <= hour && hour < t
    } else {
        hour >= f || hour < t
    }
}

impl Alerts {
    /// The ntfy server: the configured one without surrounding whitespace, or the public one.
    pub open spec fn spec_server_url(&self) -> Seq<char> {
        if trim(self.server@).len() == 0 {
            DEFAULT_SERVER@
        } else {
            trim(self.server@)
        }
    }

    pub fn server_url(&self) -> (r: String)
        ensures
            r@ == self.spec_server_url(),
    {
        let t = trim_chars(&chars_of(self.server.as_str()));
        if t.len() == 0 {
            String::from_str(DEFAULT_SERVER)
        } else {
            string_of(&t)
        }
    }

    /// Whether `hour` (0 to 23, local) falls inside the quiet window. The window wraps: 22 to 7
    /// is the night, not an empty range. Equal hours mean no window at all, which is what an
    /// untouched pair of zeros means.
    pub fn quiet_at(&self, hour: u32) -> (r: bool)
        ensures
            r == quiet_spec(self.quiet_from, self.quiet_to, hour),
    {
        let from = self.quiet_from % 24;
        let to = self.quiet_to % 24;
        if from == to {
            return false;
        }
        if from < to {
            hour >= from && hour < to
        } else {
            hour >= from || hour < to
        }
    }

    /// Configured well enough to send anything at all: switched on, with a topic.
    pub open spec fn spec_live(&self) -> bool {
        self.enabled && trim(self.topic@).len() > 0
    }

    pub fn live(&self) -> (r: bool)
        ensures
            r == self.spec_live(),
    {
        self.enabled && trim_chars(&chars_of(self.topic.as_str())).len() > 0
    }

    /// Where a notification is posted: the server, a slash, and the trimmed topic.
    pub open spec fn spec_notify_url(&self) -> Seq<char> {
        self.spec_server_url() + "/"@ + trim(self.topic@)
    }

    pub fn notify_url(&self) -> (r: String)
        ensures
            r@ == self.spec_notify_url(),
    {
        let mut out = self.server_url();
        out.append("/");
        let topic = string_of(&trim_chars(&chars_of(self.topic.as_str())));
        out.append(topic.as_str());
        out
    }
}

/// One rule currently firing.
///
/// `key` identifies the rule, not the occasion: the same breach on the same holding produces
/// the same key every quarter hour, which is what lets the caller notify once and then stay
/// quiet.
#[derive(Debug, PartialEq)]
pub struct Firing {
    pub key: String,
    pub text: String,
}

impl Clone for Firing {
    fn clone(&self) -> (r: Firing)
        ensures
            r@ == self@,
    {
        Firing { key: self.key.clone(), text: self.text.clone() }
    }
}

impl View for Firing {
    type V = (Seq<char>, Seq<char>);

    open spec fn view(&self) -> (Seq<char>, Seq<char>) {
        (self.key@, self.text@)
    }
}

pub open spec fn firing_views(v: Seq<Firing>) -> Seq<(Seq<char>, Seq<char>)> {
    v.map_values(|f: Firing| f@)
}

pub open spec fn key_texts(v: Seq<String>) -> Seq<Seq<char>> {
    v.map_values(|s: String| s@)
}

/// The keys of a list of firings, in order.
pub open spec fn keys_of(now: Seq<(Seq<char>, Seq<char>)>) -> Seq<Seq<char>> {
    now.map_values(|f: (Seq<char>, Seq<char>)| f.0)
}

/// The firings whose key was not seen last time, in order.
pub open spec fn fresh_of(now: Seq<(Seq<char>, Seq<char>)>, seen: Seq<Seq<char>>) -> Seq<
    (Seq<char>, Seq<char>),
>
    decreases now.len(),
{
    if now.len() == 0 {
        now
    } else if seen.contains(now.last().0) {
        fresh_of(now.drop_last(), seen)
    } else {
        fresh_of(now.drop_last(), seen).push(now.last())
    }
}

pub(crate) fn contains_key(seen: &[String], key: &String) -> (r: bool)
    ensures
        r == key_texts(seen@).contains(key@),
{
    let k = chars_of(key.as_str());
    let mut i: usize = 0;
    while i < seen.len()
        invariant
            i <= seen@.len(),
            k@ == key@,
            forall|j: int| 0 <= j < i ==> #[trigger] seen@[j]@ != key@,
        decreases seen@.len() - i,
    {
        if crate::text::chars_eq(&chars_of(seen[i].as_str()), &k) {
            assert(key_texts(seen@)[i as int] == key@);
            return true;
        }
        i += 1;
    }
    proof {
        if key_texts(seen@).contains(key@) {
            let j = choose|j: int| 0 <= j < key_texts(seen@).len() && key_texts(seen@)[j] == key@;
            assert(seen@[j]@ == key@);
        }
    }
    false
}

/// Which firings are new, and the keys to remember for next time.
///
/// A rule that is still firing is not sent again: a drift breach that lasts a fortnight should
/// buzz once, not thirteen hundred times. A rule that stops firing is forgotten, so the next
/// breach is news again.
pub fn newly_firing(now: &[Firing], seen: &[String]) -> (r: (Vec<Firing>, Vec<String>))
    ensures
        firing_views(r.0@) == fresh_of(firing_views(now@), key_texts(seen@)),
        key_texts(r.1@) == keys_of(firing_views(now@)),
{
    let ghost nv = firing_views(now@);
    let ghost sv = key_texts(seen@);
    let mut fresh: Vec<Firing> = Vec::new();
    let mut keys: Vec<String> = Vec::new();
    let mut i: usize = 0;
    while i < now.len()
        invariant
            i <= now@.len(),
            nv == firing_views(now@),
            sv == key_texts(seen@),
            firing_views(fresh@) == fresh_of(nv.take(i as int), sv),
            key_texts(keys@) =~= keys_of(nv.take(i as int)),
        decreases now@.len() - i,
    {
        assert(nv.take(i as int + 1).drop_last() =~= nv.take(i as int));
        assert(nv.take(i as int + 1).last() == now@[i as int]@);
        let f = &now[i];
        if !contains_key(seen, &f.key) {
            let ghost before = fresh@;
            fresh.push(f.clone());
            assert(firing_views(fresh@) =~= firing_views(before).push(f@));
        }
        let ghost kb = keys@;
        keys.push(f.key.clone());
        assert(key_texts(keys@) =~= key_texts(kb).push(f.key@));
        i += 1;
    }
    assert(nv.take(i as int) =~= nv);
    (fresh, keys)
}

// ---------------------------------------------------------------------------------------------
// Laws.

proof fn lemma_fresh_of_none(now: Seq<(Seq<char>, Seq<char>)>, seen: Seq<Seq<char>>)
    requires
        forall|i: int| 0 <= i < now.len() ==> seen.contains(#[trigger] now[i].0),
    ensures
        fresh_of(now, seen).len() == 0,
    decreases now.len(),
{
    if now.len() > 0 {
        let t = now.drop_last();
        assert forall|i: int| 0 <= i < t.len() implies seen.contains(#[trigger] t[i].0) by {
            assert(t[i] == now[i]);
        }
        lemma_fresh_of_none(t, seen);
        assert(seen.contains(now[now.len() - 1].0));
    }
}

/// A rule that is still firing is not news: after one round, the same firings produce nothing
/// fresh.
pub proof fn law_still_firing_is_not_news(now: Seq<(Seq<char>, Seq<char>)>)
    ensures
        fresh_of(now, keys_of(now)).len() == 0,
{
    assert forall|i: int| 0 <= i < now.len() implies keys_of(now).contains(#[trigger] now[i].0) by {
        assert(keys_of(now)[i] == now[i].0);
    }
    lemma_fresh_of_none(now, keys_of(now));
}

/// A firing whose key was not seen last round is sent: after a quiet round (nothing firing,
/// so nothing remembered), a breach is news again.
pub proof fn law_a_breach_after_a_quiet_spell_is_news(f: (Seq<char>, Seq<char>))
    ensures
        fresh_of(seq![f], keys_of(Seq::<(Seq<char>, Seq<char>)>::empty())) == seq![f],
{
    let e = keys_of(Seq::<(Seq<char>, Seq<char>)>::empty());
    assert(e.len() == 0);
    assert(!e.contains(f.0));
    let one = seq![f];
    let none = Seq::<(Seq<char>, Seq<char>)>::empty();
    assert(one.drop_last() =~= none);
    assert(one.last() == f);
    assert(fresh_of(none, e) == none);
    assert(fresh_of(one, e) == fresh_of(none, e).push(f));
    assert(fresh_of(one, e) =~= one);
}

/// Every fresh firing is one of the firings now, and its key was not seen; every firing now
/// whose key was not seen is fresh.
pub proof fn law_fresh_is_exactly_the_unseen(
    now: Seq<(Seq<char>, Seq<char>)>,
    seen: Seq<Seq<char>>,
    f: (Seq<char>, Seq<char>),
)
    ensures
        fresh_of(now, seen).contains(f) <==> (now.contains(f) && !seen.contains(f.0)),
    decreases now.len(),
{
    if now.len() > 0 {
        let t = now.drop_last();
        law_fresh_is_exactly_the_unseen(t, seen, f);
        assert(now =~= t.push(now.last()));
        if now.contains(f) && f != now.last() {
            let i = choose|i: int| 0 <= i < now.len() && now[i] == f;
            assert(t[i] == f);
        }
        if t.contains(f) {
            let i = choose|i: int| 0 <= i < t.len() && t[i] == f;
            assert(now[i] == f);
        }
        let fr = fresh_of(t, seen);
        if !seen.contains(now.last().0) {
            assert(fr.push(now.last())[fr.len() as int] == now.last());
            if fr.contains(f) {
                let i = choose|i: int| 0 <= i < fr.len() && fr[i] == f;
                assert(fr.push(now.last())[i] == f);
            }
            if fr.push(now.last()).contains(f) && f != now.last() {
                let i = choose|i: int| 0 <= i < fr.len() + 1 && fr.push(now.last())[i] == f;
                assert(fr[i] == f);
            }
        }
    }
}

// ---------------------------------------------------------------------------------------------
// What the switches ask to be compared.

/// What an alert reads of a portfolio: its id, its holdings in order, and its drift rows in
/// order, each as the holding id and whether the row is out of its band. A portfolio with no
/// targets has no drift rows.
pub struct AlertView {
    pub id: String,
    pub holdings: Vec<HoldingShape>,
    pub drift: Vec<(String, bool)>,
}

/// A price level as the switches read it: its id and the ticker it watches. The price and the
/// side are the caller's, whose figures are floating point.
pub struct LevelShape {
    pub id: String,
    pub ticker: String,
}

/// What one check compares, by position: a drift row (portfolio, row), a holding's daily move
/// (portfolio, holding), a portfolio's daily move, or a price level against a holding (level,
/// portfolio, holding).
#[derive(Clone, Copy, Debug, PartialEq, Eq, Structural)]
pub enum Watch {
    Drift(usize, usize),
    Move(usize, usize),
    PortfolioMove(usize),
    Level(usize, usize, usize),
}

/// One comparison the switches ask for, with the key its firing carries. A drift row that is
/// out of its band fires as it stands; the others fire when the caller's figure passes its
/// threshold or level.
pub struct AlertCheck {
    pub key: String,
    pub watch: Watch,
}

pub open spec fn alert_check_views(v: Seq<AlertCheck>) -> Seq<(Seq<char>, Watch)> {
    v.map_values(|c: AlertCheck| (c.key@, c.watch))
}

/// The out-of-band drift rows among the first `n` rows of portfolio `vi`.
pub open spec fn drift_checks(v: AlertView, vi: usize, n: nat) -> Seq<(Seq<char>, Watch)>
    decreases n,
{
    if n == 0 {
        Seq::empty()
    } else {
        let rest = drift_checks(v, vi, (n - 1) as nat);
        let row = v.drift@[n - 1];
        if row.1 {
            rest.push(("drift:"@ + row.0@, Watch::Drift(vi, (n - 1) as usize)))
        } else {
            rest
        }
    }
}

/// The priced holdings among the first `n` of portfolio `vi`, each watched for its daily move.
pub open spec fn move_checks(v: AlertView, vi: usize, n: nat) -> Seq<(Seq<char>, Watch)>
    decreases n,
{
    if n == 0 {
        Seq::empty()
    } else {
        let rest = move_checks(v, vi, (n - 1) as nat);
        let h = v.holdings@[n - 1];
        if h.priced {
            rest.push(("move:"@ + h.id@, Watch::Move(vi, (n - 1) as usize)))
        } else {
            rest
        }
    }
}

/// The priced holdings among the first `n` of portfolio `vi` whose ticker level `li` watches.
pub open spec fn level_checks(l: LevelShape, li: usize, v: AlertView, vi: usize, n: nat) -> Seq<
    (Seq<char>, Watch),
>
    decreases n,
{
    if n == 0 {
        Seq::empty()
    } else {
        let rest = level_checks(l, li, v, vi, (n - 1) as nat);
        let h = v.holdings@[n - 1];
        if h.priced && h.ticker@ == l.ticker@ {
            rest.push(("level:"@ + l.id@, Watch::Level(li, vi, (n - 1) as usize)))
        } else {
            rest
        }
    }
}

/// The drift checks of the first `n` portfolios, portfolio by portfolio.
pub open spec fn drift_part(views: Seq<AlertView>, n: nat) -> Seq<(Seq<char>, Watch)>
    decreases n,
{
    if n == 0 {
        Seq::empty()
    } else {
        let v = views[n - 1];
        drift_part(views, (n - 1) as nat) + drift_checks(v, (n - 1) as usize, v.drift@.len())
    }
}

/// The move checks of the first `n` portfolios, portfolio by portfolio.
pub open spec fn move_part(views: Seq<AlertView>, n: nat) -> Seq<(Seq<char>, Watch)>
    decreases n,
{
    if n == 0 {
        Seq::empty()
    } else {
        let v = views[n - 1];
        move_part(views, (n - 1) as nat) + move_checks(v, (n - 1) as usize, v.holdings@.len())
    }
}

/// The first `n` portfolios, each watched for its own daily move.
pub open spec fn pmove_part(views: Seq<AlertView>, n: nat) -> Seq<(Seq<char>, Watch)>
    decreases n,
{
    if n == 0 {
        Seq::empty()
    } else {
        pmove_part(views, (n - 1) as nat).push(
            ("pmove:"@ + views[n - 1].id@, Watch::PortfolioMove((n - 1) as usize)),
        )
    }
}

/// Level `li` against the holdings of the first `n` portfolios.
pub open spec fn level_views(l: LevelShape, li: usize, views: Seq<AlertView>, n: nat) -> Seq<
    (Seq<char>, Watch),
>
    decreases n,
{
    if n == 0 {
        Seq::empty()
    } else {
        let v = views[n - 1];
        level_views(l, li, views, (n - 1) as nat) + level_checks(
            l,
            li,
            v,
            (n - 1) as usize,
            v.holdings@.len(),
        )
    }
}

/// The first `n` levels, level by level, each against every portfolio.
pub open spec fn level_part(levels: Seq<LevelShape>, views: Seq<AlertView>, n: nat) -> Seq<
    (Seq<char>, Watch),
>
    decreases n,
{
    if n == 0 {
        Seq::empty()
    } else {
        level_part(levels, views, (n - 1) as nat) + level_views(
            levels[n - 1],
            (n - 1) as usize,
            views,
            views.len(),
        )
    }
}

/// Every comparison the alerts ask for, in the order their firings are listed: out-of-band
/// drift rows, then holdings' daily moves, then portfolios' daily moves, each only when its
/// switch is on, then every price level against the priced holdings with its ticker. Nothing
/// when alerts are not live.
pub open spec fn alert_checks_of(cfg: Alerts, views: Seq<AlertView>, levels: Seq<LevelShape>) -> Seq<
    (Seq<char>, Watch),
> {
    if !cfg.spec_live() {
        Seq::empty()
    } else {
        (if cfg.drift {
            drift_part(views, views.len())
        } else {
            Seq::empty()
        }) + (if cfg.big_move {
            move_part(views, views.len())
        } else {
            Seq::empty()
        }) + (if cfg.portfolio_move {
            pmove_part(views, views.len())
        } else {
            Seq::empty()
        }) + level_part(levels, views, levels.len())
    }
}

fn push_drift(out: &mut Vec<AlertCheck>, v: &AlertView, vi: usize)
    ensures
        alert_check_views(final(out)@) == alert_check_views(old(out)@) + drift_checks(
            *v,
            vi,
            v.drift@.len(),
        ),
{
    let ghost start = alert_check_views(out@);
    let mut k: usize = 0;
    assert(alert_check_views(out@) =~= start + drift_checks(*v, vi, 0));
    while k < v.drift.len()
        invariant
            k <= v.drift@.len(),
            alert_check_views(out@) == start + drift_checks(*v, vi, k as nat),
        decreases v.drift@.len() - k,
    {
        let ghost before = alert_check_views(out@);
        if v.drift[k].1 {
            let mut key = String::from_str("drift:");
            key.append(v.drift[k].0.as_str());
            out.push(AlertCheck { key, watch: Watch::Drift(vi, k) });
            assert(alert_check_views(out@) =~= before.push(
                ("drift:"@ + v.drift@[k as int].0@, Watch::Drift(vi, k)),
            ));
        }
        k += 1;
    }
}

fn push_moves(out: &mut Vec<AlertCheck>, v: &AlertView, vi: usize)
    ensures
        alert_check_views(final(out)@) == alert_check_views(old(out)@) + move_checks(
            *v,
            vi,
            v.holdings@.len(),
        ),
{
    let ghost start = alert_check_views(out@);
    let mut k: usize = 0;
    assert(alert_check_views(out@) =~= start + move_checks(*v, vi, 0));
    while k < v.holdings.len()
        invariant
            k <= v.holdings@.len(),
            alert_check_views(out@) == start + move_checks(*v, vi, k as nat),
        decreases v.holdings@.len() - k,
    {
        let ghost before = alert_check_views(out@);
        if v.holdings[k].priced {
            let mut key = String::from_str("move:");
            key.append(v.holdings[k].id.as_str());
            out.push(AlertCheck { key, watch: Watch::Move(vi, k) });
            assert(alert_check_views(out@) =~= before.push(
                ("move:"@ + v.holdings@[k as int].id@, Watch::Move(vi, k)),
            ));
        }
        k += 1;
    }
}

fn push_level(out: &mut Vec<AlertCheck>, l: &LevelShape, li: usize, v: &AlertView, vi: usize)
    ensures
        alert_check_views(final(out)@) == alert_check_views(old(out)@) + level_checks(
            *l,
            li,
            *v,
            vi,
            v.holdings@.len(),
        ),
{
    let ghost start = alert_check_views(out@);
    let ticker = chars_of(l.ticker.as_str());
    let mut k: usize = 0;
    assert(alert_check_views(out@) =~= start + level_checks(*l, li, *v, vi, 0));
    while k < v.holdings.len()
        invariant
            k <= v.holdings@.len(),
            ticker@ == l.ticker@,
            alert_check_views(out@) == start + level_checks(*l, li, *v, vi, k as nat),
        decreases v.holdings@.len() - k,
    {
        let ghost before = alert_check_views(out@);
        let h = &v.holdings[k];
        if h.priced && chars_eq(&chars_of(h.ticker.as_str()), &ticker) {
            let mut key = String::from_str("level:");
            key.append(l.id.as_str());
            out.push(AlertCheck { key, watch: Watch::Level(li, vi, k) });
            assert(alert_check_views(out@) =~= before.push(
                ("level:"@ + l.id@, Watch::Level(li, vi, k)),
            ));
        }
        k += 1;
    }
}

/// Every comparison the alerts ask for, in the order their firings are listed: out-of-band
/// drift rows, holdings' daily moves and portfolios' daily moves where their switches are on,
/// then each price level against the priced holdings with its ticker. Each check carries the
/// key of the rule it stands for, so the same breach keys the same every time.
pub fn alert_checks(cfg: &Alerts, views: &[AlertView], levels: &[LevelShape]) -> (r: Vec<
    AlertCheck,
>)
    ensures
        alert_check_views(r@) == alert_checks_of(*cfg, views@, levels@),
{
    let mut out: Vec<AlertCheck> = Vec::new();
    if !cfg.live() {
        assert(alert_check_views(out@) =~= Seq::<(Seq<char>, Watch)>::empty());
        return out;
    }
    assert(alert_check_views(out@) =~= Seq::<(Seq<char>, Watch)>::empty());
    if cfg.drift {
        let mut i: usize = 0;
        while i < views.len()
            invariant
                i <= views@.len(),
                alert_check_views(out@) == drift_part(views@, i as nat),
            decreases views@.len() - i,
        {
            push_drift(&mut out, &views[i], i);
            i += 1;
        }
    }
    let ghost p1 = alert_check_views(out@);
    assert(p1 == (if cfg.drift {
        drift_part(views@, views@.len())
    } else {
        Seq::empty()
    }));
    if cfg.big_move {
        let mut i: usize = 0;
        assert(alert_check_views(out@) =~= p1 + move_part(views@, 0));
        while i < views.len()
            invariant
                i <= views@.len(),
                alert_check_views(out@) == p1 + move_part(views@, i as nat),
            decreases views@.len() - i,
        {
            push_moves(&mut out, &views[i], i);
            proof {
                assert(p1 + move_part(views@, i as nat + 1) =~= p1 + move_part(views@, i as nat)
                    + move_checks(views@[i as int], i, views@[i as int].holdings@.len()));
            }
            i += 1;
        }
    } else {
        assert(alert_check_views(out@) =~= p1 + Seq::<(Seq<char>, Watch)>::empty());
    }
    let ghost p2 = alert_check_views(out@);
    if cfg.portfolio_move {
        let mut i: usize = 0;
        assert(alert_check_views(out@) =~= p2 + pmove_part(views@, 0));
        while i < views.len()
            invariant
                i <= views@.len(),
                alert_check_views(out@) == p2 + pmove_part(views@, i as nat),
            decreases views@.len() - i,
        {
            let ghost before = alert_check_views(out@);
            let mut key = String::from_str("pmove:");
            key.append(views[i].id.as_str());
            out.push(AlertCheck { key, watch: Watch::PortfolioMove(i) });
            assert(alert_check_views(out@) =~= before.push(
                ("pmove:"@ + views@[i as int].id@, Watch::PortfolioMove(i)),
            ));
            i += 1;
        }
    } else {
        assert(alert_check_views(out@) =~= p2 + Seq::<(Seq<char>, Watch)>::empty());
    }
    let ghost p3 = alert_check_views(out@);
    let mut li: usize = 0;
    assert(alert_check_views(out@) =~= p3 + level_part(levels@, views@, 0));
    while li < levels.len()
        invariant
            li <= levels@.len(),
            alert_check_views(out@) == p3 + level_part(levels@, views@, li as nat),
        decreases levels@.len() - li,
    {
        let ghost pre = alert_check_views(out@);
        let mut vi: usize = 0;
        assert(pre =~= pre + level_views(levels@[li as int], li, views@, 0));
        while vi < views.len()
            invariant
                li < levels@.len(),
                vi <= views@.len(),
                alert_check_views(out@) == pre + level_views(levels@[li as int], li, views@, vi as nat),
            decreases views@.len() - vi,
        {
            push_level(&mut out, &levels[li], li, &views[vi], vi);
            proof {
                assert(pre + level_views(levels@[li as int], li, views@, vi as nat + 1) =~= pre
                    + level_views(levels@[li as int], li, views@, vi as nat) + level_checks(
                    levels@[li as int],
                    li,
                    views@[vi as int],
                    vi,
                    views@[vi as int].holdings@.len(),
                ));
            }
            vi += 1;
        }
        proof {
            assert(p3 + level_part(levels@, views@, li as nat + 1) =~= p3 + level_part(
                levels@,
                views@,
                li as nat,
            ) + level_views(levels@[li as int], li, views@, views@.len()));
        }
        li += 1;
    }
    out
}

/// What a check may watch, given the switches: an out-of-band drift row only under the drift
/// switch, a priced holding's move only under the move switch, a portfolio's move only under the
/// portfolio switch, and a level only against a priced holding with the ticker it watches; each
/// keyed by the rule's kind and the id it is about.
pub open spec fn watches(
    cfg: Alerts,
    views: Seq<AlertView>,
    levels: Seq<LevelShape>,
    c: (Seq<char>, Watch),
) -> bool {
    match c.1 {
        Watch::Drift(v, d) => {
            &&& cfg.drift
            &&& v < views.len()
            &&& d < views[v as int].drift@.len()
            &&& views[v as int].drift@[d as int].1
            &&& c.0 == "drift:"@ + views[v as int].drift@[d as int].0@
        },
        Watch::Move(v, h) => {
            &&& cfg.big_move
            &&& v < views.len()
            &&& h < views[v as int].holdings@.len()
            &&& views[v as int].holdings@[h as int].priced
            &&& c.0 == "move:"@ + views[v as int].holdings@[h as int].id@
        },
        Watch::PortfolioMove(v) => {
            &&& cfg.portfolio_move
            &&& v < views.len()
            &&& c.0 == "pmove:"@ + views[v as int].id@
        },
        Watch::Level(l, v, h) => {
            &&& l < levels.len()
            &&& v < views.len()
            &&& h < views[v as int].holdings@.len()
            &&& views[v as int].holdings@[h as int].priced
            &&& views[v as int].holdings@[h as int].ticker@ == levels[l as int].ticker@
            &&& c.0 == "level:"@ + levels[l as int].id@
        },
    }
}

/// Whether every check in `s` is one the switches allow.
pub open spec fn all_watched(
    cfg: Alerts,
    views: Seq<AlertView>,
    levels: Seq<LevelShape>,
    s: Seq<(Seq<char>, Watch)>,
) -> bool {
    forall|k: int| 0 <= k < s.len() ==> #[trigger] watches(cfg, views, levels, s[k])
}

proof fn lemma_concat_watched(
    cfg: Alerts,
    views: Seq<AlertView>,
    levels: Seq<LevelShape>,
    a: Seq<(Seq<char>, Watch)>,
    b: Seq<(Seq<char>, Watch)>,
)
    requires
        all_watched(cfg, views, levels, a),
        all_watched(cfg, views, levels, b),
    ensures
        all_watched(cfg, views, levels, a + b),
{
    assert forall|k: int| 0 <= k < (a + b).len() implies #[trigger] watches(
        cfg,
        views,
        levels,
        (a + b)[k],
    ) by {
        if k < a.len() {
            assert((a + b)[k] == a[k]);
        } else {
            assert((a + b)[k] == b[k - a.len()]);
        }
    }
}

proof fn lemma_drift_rows_watched(
    cfg: Alerts,
    views: Seq<AlertView>,
    levels: Seq<LevelShape>,
    vi: nat,
    m: nat,
)
    requires
        views.len() <= usize::MAX,
        levels.len() <= usize::MAX,
        cfg.drift,
        vi < views.len(),
        m <= views[vi as int].drift@.len(),
    ensures
        all_watched(cfg, views, levels, drift_checks(views[vi as int], vi as usize, m)),
    decreases m,
{
    if m > 0 {
        lemma_drift_rows_watched(cfg, views, levels, vi, (m - 1) as nat);
        assert(views[vi as int].drift@.len() == views[vi as int].drift.len());
        let prev = drift_checks(views[vi as int], vi as usize, (m - 1) as nat);
        let next = drift_checks(views[vi as int], vi as usize, m);
        assert forall|k: int| 0 <= k < next.len() implies #[trigger] watches(
            cfg,
            views,
            levels,
            next[k],
        ) by {
            if k < prev.len() {
                assert(next[k] == prev[k]);
            }
        }
    }
}

proof fn lemma_move_rows_watched(
    cfg: Alerts,
    views: Seq<AlertView>,
    levels: Seq<LevelShape>,
    vi: nat,
    m: nat,
)
    requires
        views.len() <= usize::MAX,
        levels.len() <= usize::MAX,
        cfg.big_move,
        vi < views.len(),
        m <= views[vi as int].holdings@.len(),
    ensures
        all_watched(cfg, views, levels, move_checks(views[vi as int], vi as usize, m)),
    decreases m,
{
    if m > 0 {
        lemma_move_rows_watched(cfg, views, levels, vi, (m - 1) as nat);
        assert(views[vi as int].holdings@.len() == views[vi as int].holdings.len());
        let prev = move_checks(views[vi as int], vi as usize, (m - 1) as nat);
        let next = move_checks(views[vi as int], vi as usize, m);
        assert forall|k: int| 0 <= k < next.len() implies #[trigger] watches(
            cfg,
            views,
            levels,
            next[k],
        ) by {
            if k < prev.len() {
                assert(next[k] == prev[k]);
            }
        }
    }
}

proof fn lemma_level_rows_watched(
    cfg: Alerts,
    views: Seq<AlertView>,
    levels: Seq<LevelShape>,
    li: nat,
    vi: nat,
    m: nat,
)
    requires
        views.len() <= usize::MAX,
        levels.len() <= usize::MAX,
        li < levels.len(),
        vi < views.len(),
        m <= views[vi as int].holdings@.len(),
    ensures
        all_watched(
            cfg,
            views,
            levels,
            level_checks(levels[li as int], li as usize, views[vi as int], vi as usize, m),
        ),
    decreases m,
{
    if m > 0 {
        lemma_level_rows_watched(cfg, views, levels, li, vi, (m - 1) as nat);
        assert(views[vi as int].holdings@.len() == views[vi as int].holdings.len());
        let l = levels[li as int];
        let prev = level_checks(l, li as usize, views[vi as int], vi as usize, (m - 1) as nat);
        let next = level_checks(l, li as usize, views[vi as int], vi as usize, m);
        assert forall|k: int| 0 <= k < next.len() implies #[trigger] watches(
            cfg,
            views,
            levels,
            next[k],
        ) by {
            if k < prev.len() {
                assert(next[k] == prev[k]);
            }
        }
    }
}

proof fn lemma_drift_watched(cfg: Alerts, views: Seq<AlertView>, levels: Seq<LevelShape>, n: nat)
    requires
        views.len() <= usize::MAX,
        levels.len() <= usize::MAX,
        cfg.drift,
        n <= views.len(),
    ensures
        all_watched(cfg, views, levels, drift_part(views, n)),
    decreases n,
{
    if n > 0 {
        lemma_drift_watched(cfg, views, levels, (n - 1) as nat);
        let vi = n - 1;
        let v = views[vi];
        lemma_drift_rows_watched(cfg, views, levels, vi as nat, v.drift@.len());
        lemma_concat_watched(
            cfg,
            views,
            levels,
            drift_part(views, (n - 1) as nat),
            drift_checks(v, vi as usize, v.drift@.len()),
        );
    }
}

proof fn lemma_move_watched(cfg: Alerts, views: Seq<AlertView>, levels: Seq<LevelShape>, n: nat)
    requires
        views.len() <= usize::MAX,
        levels.len() <= usize::MAX,
        cfg.big_move,
        n <= views.len(),
    ensures
        all_watched(cfg, views, levels, move_part(views, n)),
    decreases n,
{
    if n > 0 {
        lemma_move_watched(cfg, views, levels, (n - 1) as nat);
        let vi = n - 1;
        let v = views[vi];
        lemma_move_rows_watched(cfg, views, levels, vi as nat, v.holdings@.len());
        lemma_concat_watched(
            cfg,
            views,
            levels,
            move_part(views, (n - 1) as nat),
            move_checks(v, vi as usize, v.holdings@.len()),
        );
    }
}

proof fn lemma_pmove_watched(cfg: Alerts, views: Seq<AlertView>, levels: Seq<LevelShape>, n: nat)
    requires
        views.len() <= usize::MAX,
        levels.len() <= usize::MAX,
        cfg.portfolio_move,
        n <= views.len(),
    ensures
        all_watched(cfg, views, levels, pmove_part(views, n)),
    decreases n,
{
    if n > 0 {
        lemma_pmove_watched(cfg, views, levels, (n - 1) as nat);
        let prev = pmove_part(views, (n - 1) as nat);
        let next = pmove_part(views, n);
        assert forall|k: int| 0 <= k < next.len() implies #[trigger] watches(
            cfg,
            views,
            levels,
            next[k],
        ) by {
            if k < prev.len() {
                assert(next[k] == prev[k]);
            }
        }
    }
}

proof fn lemma_level_views_watched(
    cfg: Alerts,
    views: Seq<AlertView>,
    levels: Seq<LevelShape>,
    li: nat,
    n: nat,
)
    requires
        views.len() <= usize::MAX,
        levels.len() <= usize::MAX,
        li < levels.len(),
        n <= views.len(),
    ensures
        all_watched(cfg, views, levels, level_views(levels[li as int], li as usize, views, n)),
    decreases n,
{
    if n > 0 {
        lemma_level_views_watched(cfg, views, levels, li, (n - 1) as nat);
        let l = levels[li as int];
        let vi = n - 1;
        let v = views[vi];
        lemma_level_rows_watched(cfg, views, levels, li, vi as nat, v.holdings@.len());
        lemma_concat_watched(
            cfg,
            views,
            levels,
            level_views(l, li as usize, views, (n - 1) as nat),
            level_checks(l, li as usize, v, vi as usize, v.holdings@.len()),
        );
    }
}

proof fn lemma_level_watched(cfg: Alerts, views: Seq<AlertView>, levels: Seq<LevelShape>, n: nat)
    requires
        views.len() <= usize::MAX,
        levels.len() <= usize::MAX,
        n <= levels.len(),
    ensures
        all_watched(cfg, views, levels, level_part(levels, views, n)),
    decreases n,
{
    if n > 0 {
        lemma_level_watched(cfg, views, levels, (n - 1) as nat);
        lemma_level_views_watched(cfg, views, levels, (n - 1) as nat, views.len());
        lemma_concat_watched(
            cfg,
            views,
            levels,
            level_part(levels, views, (n - 1) as nat),
            level_views(levels[n - 1], (n - 1) as usize, views, views.len()),
        );
    }
}

/// The alerts watch only what their switches ask for: nothing at all unless alerts are live, a
/// drift row only when it is out of its band and the drift switch is on, a holding's move only
/// when it is priced and the move switch is on, a portfolio's move only under its own switch,
/// and a level only against a priced holding with the ticker it watches. Every check is keyed
/// by its kind and the id it is about, never by a figure, so a breach that lasts keys the same.
pub proof fn law_alerts_watch_only_what_is_switched_on(
    cfg: Alerts,
    views: Seq<AlertView>,
    levels: Seq<LevelShape>,
)
    requires
        views.len() <= usize::MAX,
        levels.len() <= usize::MAX,
    ensures
        alert_checks_of(cfg, views, levels).len() > 0 ==> cfg.spec_live(),
        alert_checks_of(cfg, views, levels).len() > 0 ==> cfg.enabled && trim(cfg.topic@).len()
            > 0,
        all_watched(cfg, views, levels, alert_checks_of(cfg, views, levels)),
{
    if cfg.spec_live() {
        let e = Seq::<(Seq<char>, Watch)>::empty();
        let a = if cfg.drift {
            lemma_drift_watched(cfg, views, levels, views.len());
            drift_part(views, views.len())
        } else {
            e
        };
        let b = if cfg.big_move {
            lemma_move_watched(cfg, views, levels, views.len());
            move_part(views, views.len())
        } else {
            e
        };
        let c = if cfg.portfolio_move {
            lemma_pmove_watched(cfg, views, levels, views.len());
            pmove_part(views, views.len())
        } else {
            e
        };
        lemma_level_watched(cfg, views, levels, levels.len());
        let d = level_part(levels, views, levels.len());
        assert(all_watched(cfg, views, levels, a));
        assert(all_watched(cfg, views, levels, b));
        assert(all_watched(cfg, views, levels, c));
        lemma_concat_watched(cfg, views, levels, a, b);
        lemma_concat_watched(cfg, views, levels, a + b, c);
        lemma_concat_watched(cfg, views, levels, a + b + c, d);
    }
}

proof fn lemma_in_left(a: Seq<(Seq<char>, Watch)>, b: Seq<(Seq<char>, Watch)>, x: (Seq<char>, Watch))
    requires
        a.contains(x),
    ensures
        (a + b).contains(x),
{
    let k = choose|k: int| 0 <= k < a.len() && a[k] == x;
    assert((a + b)[k] == x);
}

proof fn lemma_in_right(a: Seq<(Seq<char>, Watch)>, b: Seq<(Seq<char>, Watch)>, x: (Seq<char>, Watch))
    requires
        b.contains(x),
    ensures
        (a + b).contains(x),
{
    let k = choose|k: int| 0 <= k < b.len() && b[k] == x;
    assert((a + b)[a.len() + k] == x);
}

proof fn lemma_in_push(a: Seq<(Seq<char>, Watch)>, y: (Seq<char>, Watch), x: (Seq<char>, Watch))
    requires
        a.contains(x) || x == y,
    ensures
        a.push(y).contains(x),
{
    if x == y {
        assert(a.push(y)[a.len() as int] == x);
    } else {
        let k = choose|k: int| 0 <= k < a.len() && a[k] == x;
        assert(a.push(y)[k] == x);
    }
}

proof fn lemma_drift_rows_has(v: AlertView, vi: usize, n: nat, d: int)
    requires
        0 <= d < n <= v.drift@.len(),
        v.drift@[d].1,
    ensures
        drift_checks(v, vi, n).contains(("drift:"@ + v.drift@[d].0@, Watch::Drift(vi, d as usize))),
    decreases n,
{
    assert(v.drift@.len() == v.drift.len());
    let x = ("drift:"@ + v.drift@[d].0@, Watch::Drift(vi, d as usize));
    let prev = drift_checks(v, vi, (n - 1) as nat);
    if d < n - 1 {
        lemma_drift_rows_has(v, vi, (n - 1) as nat, d);
    }
    if v.drift@[n - 1].1 {
        lemma_in_push(prev, ("drift:"@ + v.drift@[n - 1].0@, Watch::Drift(vi, (n - 1) as usize)), x);
    }
}

proof fn lemma_drift_part_has(views: Seq<AlertView>, n: nat, vi: int, d: int)
    requires
        0 <= vi < n <= views.len(),
        views.len() <= usize::MAX,
        0 <= d < views[vi].drift@.len(),
        views[vi].drift@[d].1,
    ensures
        drift_part(views, n).contains(
            ("drift:"@ + views[vi].drift@[d].0@, Watch::Drift(vi as usize, d as usize)),
        ),
    decreases n,
{
    let x = ("drift:"@ + views[vi].drift@[d].0@, Watch::Drift(vi as usize, d as usize));
    let v = views[n - 1];
    let prev = drift_part(views, (n - 1) as nat);
    let here = drift_checks(v, (n - 1) as usize, v.drift@.len());
    if vi == n - 1 {
        lemma_drift_rows_has(v, (n - 1) as usize, v.drift@.len(), d);
        lemma_in_right(prev, here, x);
    } else {
        lemma_drift_part_has(views, (n - 1) as nat, vi, d);
        lemma_in_left(prev, here, x);
    }
}

proof fn lemma_move_rows_has(v: AlertView, vi: usize, n: nat, h: int)
    requires
        0 <= h < n <= v.holdings@.len(),
        v.holdings@[h].priced,
    ensures
        move_checks(v, vi, n).contains(("move:"@ + v.holdings@[h].id@, Watch::Move(vi, h as usize))),
    decreases n,
{
    assert(v.holdings@.len() == v.holdings.len());
    let x = ("move:"@ + v.holdings@[h].id@, Watch::Move(vi, h as usize));
    let prev = move_checks(v, vi, (n - 1) as nat);
    if h < n - 1 {
        lemma_move_rows_has(v, vi, (n - 1) as nat, h);
    }
    if v.holdings@[n - 1].priced {
        lemma_in_push(
            prev,
            ("move:"@ + v.holdings@[n - 1].id@, Watch::Move(vi, (n - 1) as usize)),
            x,
        );
    }
}

proof fn lemma_move_part_has(views: Seq<AlertView>, n: nat, vi: int, h: int)
    requires
        0 <= vi < n <= views.len(),
        views.len() <= usize::MAX,
        0 <= h < views[vi].holdings@.len(),
        views[vi].holdings@[h].priced,
    ensures
        move_part(views, n).contains(
            ("move:"@ + views[vi].holdings@[h].id@, Watch::Move(vi as usize, h as usize)),
        ),
    decreases n,
{
    let x = ("move:"@ + views[vi].holdings@[h].id@, Watch::Move(vi as usize, h as usize));
    let v = views[n - 1];
    let prev = move_part(views, (n - 1) as nat);
    let here = move_checks(v, (n - 1) as usize, v.holdings@.len());
    if vi == n - 1 {
        lemma_move_rows_has(v, (n - 1) as usize, v.holdings@.len(), h);
        lemma_in_right(prev, here, x);
    } else {
        lemma_move_part_has(views, (n - 1) as nat, vi, h);
        lemma_in_left(prev, here, x);
    }
}

proof fn lemma_pmove_part_has(views: Seq<AlertView>, n: nat, vi: int)
    requires
        0 <= vi < n <= views.len(),
        views.len() <= usize::MAX,
    ensures
        pmove_part(views, n).contains(
            ("pmove:"@ + views[vi].id@, Watch::PortfolioMove(vi as usize)),
        ),
    decreases n,
{
    let x = ("pmove:"@ + views[vi].id@, Watch::PortfolioMove(vi as usize));
    let prev = pmove_part(views, (n - 1) as nat);
    if vi < n - 1 {
        lemma_pmove_part_has(views, (n - 1) as nat, vi);
    }
    lemma_in_push(prev, ("pmove:"@ + views[n - 1].id@, Watch::PortfolioMove((n - 1) as usize)), x);
}

proof fn lemma_level_rows_has(l: LevelShape, li: usize, v: AlertView, vi: usize, n: nat, h: int)
    requires
        0 <= h < n <= v.holdings@.len(),
        v.holdings@[h].priced,
        v.holdings@[h].ticker@ == l.ticker@,
    ensures
        level_checks(l, li, v, vi, n).contains(
            ("level:"@ + l.id@, Watch::Level(li, vi, h as usize)),
        ),
    decreases n,
{
    assert(v.holdings@.len() == v.holdings.len());
    let x = ("level:"@ + l.id@, Watch::Level(li, vi, h as usize));
    let prev = level_checks(l, li, v, vi, (n - 1) as nat);
    if h < n - 1 {
        lemma_level_rows_has(l, li, v, vi, (n - 1) as nat, h);
    }
    let g = v.holdings@[n - 1];
    if g.priced && g.ticker@ == l.ticker@ {
        lemma_in_push(prev, ("level:"@ + l.id@, Watch::Level(li, vi, (n - 1) as usize)), x);
    }
}

proof fn lemma_level_views_has(l: LevelShape, li: usize, views: Seq<AlertView>, n: nat, vi: int, h: int)
    requires
        0 <= vi < n <= views.len(),
        views.len() <= usize::MAX,
        0 <= h < views[vi].holdings@.len(),
        views[vi].holdings@[h].priced,
        views[vi].holdings@[h].ticker@ == l.ticker@,
    ensures
        level_views(l, li, views, n).contains(
            ("level:"@ + l.id@, Watch::Level(li, vi as usize, h as usize)),
        ),
    decreases n,
{
    let x = ("level:"@ + l.id@, Watch::Level(li, vi as usize, h as usize));
    let v = views[n - 1];
    let prev = level_views(l, li, views, (n - 1) as nat);
    let here = level_checks(l, li, v, (n - 1) as usize, v.holdings@.len());
    if vi == n - 1 {
        lemma_level_rows_has(l, li, v, (n - 1) as usize, v.holdings@.len(), h);
        lemma_in_right(prev, here, x);
    } else {
        lemma_level_views_has(l, li, views, (n - 1) as nat, vi, h);
        lemma_in_left(prev, here, x);
    }
}

proof fn lemma_level_part_has(
    levels: Seq<LevelShape>,
    views: Seq<AlertView>,
    n: nat,
    li: int,
    vi: int,
    h: int,
)
    requires
        0 <= li < n <= levels.len(),
        levels.len() <= usize::MAX,
        views.len() <= usize::MAX,
        0 <= vi < views.len(),
        0 <= h < views[vi].holdings@.len(),
        views[vi].holdings@[h].priced,
        views[vi].holdings@[h].ticker@ == levels[li].ticker@,
    ensures
        level_part(levels, views, n).contains(
            ("level:"@ + levels[li].id@, Watch::Level(li as usize, vi as usize, h as usize)),
        ),
    decreases n,
{
    let x = ("level:"@ + levels[li].id@, Watch::Level(li as usize, vi as usize, h as usize));
    let prev = level_part(levels, views, (n - 1) as nat);
    let here = level_views(levels[n - 1], (n - 1) as usize, views, views.len());
    if li == n - 1 {
        lemma_level_views_has(levels[li], li as usize, views, views.len(), vi, h);
        lemma_in_right(prev, here, x);
    } else {
        lemma_level_part_has(levels, views, (n - 1) as nat, li, vi, h);
        lemma_in_left(prev, here, x);
    }
}

/// Every breach a switch asks about is checked, in every portfolio. When alerts are switched on
/// and have a topic: under the drift switch every out-of-band drift row of every portfolio is
/// checked, keyed `drift:` and its holding; under the move switch every priced holding of every
/// portfolio, keyed `move:` and its id; under the portfolio switch every portfolio, keyed
/// `pmove:` and its id; and every price level against every priced holding with its ticker,
/// keyed `level:` and the level's id.
pub proof fn law_every_breach_a_switch_asks_about_is_checked(
    cfg: Alerts,
    views: Seq<AlertView>,
    levels: Seq<LevelShape>,
)
    requires
        views.len() <= usize::MAX,
        levels.len() <= usize::MAX,
    ensures
        cfg.enabled && trim(cfg.topic@).len() > 0 && cfg.drift ==> forall|vi: int, d: int|
            #![trigger views[vi].drift@[d]]
            0 <= vi < views.len() && 0 <= d < views[vi].drift@.len() && views[vi].drift@[d].1
                ==> alert_checks_of(cfg, views, levels).contains(
                ("drift:"@ + views[vi].drift@[d].0@, Watch::Drift(vi as usize, d as usize)),
            ),
        cfg.enabled && trim(cfg.topic@).len() > 0 && cfg.big_move ==> forall|vi: int, h: int|
            #![trigger views[vi].holdings@[h]]
            0 <= vi < views.len() && 0 <= h < views[vi].holdings@.len()
                && views[vi].holdings@[h].priced ==> alert_checks_of(cfg, views, levels).contains(
                ("move:"@ + views[vi].holdings@[h].id@, Watch::Move(vi as usize, h as usize)),
            ),
        cfg.enabled && trim(cfg.topic@).len() > 0 && cfg.portfolio_move ==> forall|vi: int|
            #![trigger views[vi]]
            0 <= vi < views.len() ==> alert_checks_of(cfg, views, levels).contains(
                ("pmove:"@ + views[vi].id@, Watch::PortfolioMove(vi as usize)),
            ),
        cfg.enabled && trim(cfg.topic@).len() > 0 ==> forall|li: int, vi: int, h: int|
            #![trigger levels[li], views[vi].holdings@[h]]
            0 <= li < levels.len() && 0 <= vi < views.len() && 0 <= h < views[vi].holdings@.len()
                && views[vi].holdings@[h].priced && views[vi].holdings@[h].ticker@
                == levels[li].ticker@ ==> alert_checks_of(cfg, views, levels).contains(
                ("level:"@ + levels[li].id@, Watch::Level(li as usize, vi as usize, h as usize)),
            ),
{
    if cfg.spec_live() {
        let e = Seq::<(Seq<char>, Watch)>::empty();
        let a = if cfg.drift {
            drift_part(views, views.len())
        } else {
            e
        };
        let b = if cfg.big_move {
            move_part(views, views.len())
        } else {
            e
        };
        let c = if cfg.portfolio_move {
            pmove_part(views, views.len())
        } else {
            e
        };
        let dd = level_part(levels, views, levels.len());
        let all = alert_checks_of(cfg, views, levels);
        assert(all == a + b + c + dd);
        if cfg.drift {
            assert forall|vi: int, d: int|
                #![trigger views[vi].drift@[d]]
                0 <= vi < views.len() && 0 <= d < views[vi].drift@.len() && views[vi].drift@[d].1
                    implies all.contains(
                    ("drift:"@ + views[vi].drift@[d].0@, Watch::Drift(vi as usize, d as usize)),
                ) by {
                let x = ("drift:"@ + views[vi].drift@[d].0@, Watch::Drift(vi as usize, d as usize));
                lemma_drift_part_has(views, views.len(), vi, d);
                lemma_in_left(a, b, x);
                lemma_in_left(a + b, c, x);
                lemma_in_left(a + b + c, dd, x);
            }
        }
        if cfg.big_move {
            assert forall|vi: int, h: int|
                #![trigger views[vi].holdings@[h]]
                0 <= vi < views.len() && 0 <= h < views[vi].holdings@.len()
                    && views[vi].holdings@[h].priced implies all.contains(
                    ("move:"@ + views[vi].holdings@[h].id@, Watch::Move(vi as usize, h as usize)),
                ) by {
                let x = ("move:"@ + views[vi].holdings@[h].id@, Watch::Move(vi as usize, h as usize));
                lemma_move_part_has(views, views.len(), vi, h);
                lemma_in_right(a, b, x);
                lemma_in_left(a + b, c, x);
                lemma_in_left(a + b + c, dd, x);
            }
        }
        if cfg.portfolio_move {
            assert forall|vi: int|
                #![trigger views[vi]]
                0 <= vi < views.len() implies all.contains(
                    ("pmove:"@ + views[vi].id@, Watch::PortfolioMove(vi as usize)),
                ) by {
                let x = ("pmove:"@ + views[vi].id@, Watch::PortfolioMove(vi as usize));
                lemma_pmove_part_has(views, views.len(), vi);
                lemma_in_right(a + b, c, x);
                lemma_in_left(a + b + c, dd, x);
            }
        }
        assert forall|li: int, vi: int, h: int|
            #![trigger levels[li], views[vi].holdings@[h]]
            0 <= li < levels.len() && 0 <= vi < views.len() && 0 <= h < views[vi].holdings@.len()
                && views[vi].holdings@[h].priced && views[vi].holdings@[h].ticker@
                == levels[li].ticker@ implies all.contains(
                ("level:"@ + levels[li].id@, Watch::Level(li as usize, vi as usize, h as usize)),
            ) by {
            let x = ("level:"@ + levels[li].id@, Watch::Level(li as usize, vi as usize, h as usize));
            lemma_level_part_has(levels, views, levels.len(), li, vi, h);
            lemma_in_right(a + b + c, dd, x);
        }
    }
}

// ---------------------------------------------------------------------------------------------
// Old and missing prices.

/// The firings for holdings with no usable price, given as (holding id, ticker), in order.
pub open spec fn unpriced_firings(unpriced: Seq<(Seq<char>, Seq<char>)>) -> Seq<
    (Seq<char>, Seq<char>),
>
    decreases unpriced.len(),
{
    if unpriced.len() == 0 {
        Seq::empty()
    } else {
        let u = unpriced.last();
        unpriced_firings(unpriced.drop_last()).push(
            (
                "unpriced:"@ + u.0,
                u.1 + " has no usable price and is left out of every total"@,
            ),
        )
    }
}

/// What the stale-price switch sends: a firing when the oldest quote is `STALE_SECS` or more
/// old, saying how many whole hours, and one for every holding with no usable price. Nothing
/// when alerts are not live or the switch is off.
pub open spec fn stale_firings_of(
    cfg: Alerts,
    quotes_age_secs: i64,
    unpriced: Seq<(Seq<char>, Seq<char>)>,
) -> Seq<(Seq<char>, Seq<char>)> {
    if !(cfg.spec_live() && cfg.stale) {
        Seq::empty()
    } else {
        let old = if quotes_age_secs >= STALE_SECS {
            seq![
                (
                    "stale"@,
                    "Prices are "@ + decimal((quotes_age_secs / 3600) as nat)
                        + " hours old, so the figures in the app are not today's"@,
                ),
            ]
        } else {
            Seq::empty()
        };
        old + unpriced_firings(unpriced)
    }
}

pub open spec fn pair_texts(v: Seq<(String, String)>) -> Seq<(Seq<char>, Seq<char>)> {
    v.map_values(|p: (String, String)| (p.0@, p.1@))
}

/// The stale-price firings, given the age of the oldest quote and the (id, ticker) of every
/// unpriced holding.
pub fn stale_firings(cfg: &Alerts, quotes_age_secs: i64, unpriced: &[(String, String)]) -> (r: Vec<
    Firing,
>)
    ensures
        firing_views(r@) == stale_firings_of(*cfg, quotes_age_secs, pair_texts(unpriced@)),
{
    let mut out: Vec<Firing> = Vec::new();
    if !(cfg.live() && cfg.stale) {
        assert(firing_views(out@) =~= Seq::<(Seq<char>, Seq<char>)>::empty());
        return out;
    }
    if quotes_age_secs >= STALE_SECS {
        let mut text = String::from_str("Prices are ");
        push_decimal(&mut text, (quotes_age_secs / 3600) as u64);
        text.append(" hours old, so the figures in the app are not today's");
        out.push(Firing { key: String::from_str("stale"), text });
    }
    let ghost head = firing_views(out@);
    let mut i: usize = 0;
    while i < unpriced.len()
        invariant
            i <= unpriced@.len(),
            firing_views(out@) == head + unpriced_firings(pair_texts(unpriced@.take(i as int))),
        decreases unpriced@.len() - i,
    {
        let ghost t = pair_texts(unpriced@.take(i as int + 1));
        proof {
            assert(t.drop_last() =~= pair_texts(unpriced@.take(i as int)));
            assert(t.last() == (unpriced@[i as int].0@, unpriced@[i as int].1@));
        }
        let (id, ticker) = (&unpriced[i].0, &unpriced[i].1);
        let mut key = String::from_str("unpriced:");
        key.append(id.as_str());
        let mut text = ticker.clone();
        text.append(" has no usable price and is left out of every total");
        let ghost before = out@;
        out.push(Firing { key, text });
        assert(firing_views(out@) =~= firing_views(before).push(out@.last()@));
        i += 1;
    }
    assert(unpriced@.take(i as int) =~= unpriced@);
    out
}

} // verus!
