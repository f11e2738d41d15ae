//! Prices: which cached quotes are too old, which symbols need fetching, and the Yahoo symbols
//! and addresses prices are fetched from.
//!
//! Yahoo's chart endpoint is unofficial. Everything here is built so that losing it degrades the
//! app to stale prices rather than breaking it.

use vstd::prelude::*;

use crate::config::Scope;
use crate::json::{json_of, parse_json, Json};
use crate::text::{
    ascii_upper, ascii_upper_chars, chars_eq, chars_of, push_char, string_of, url_encode,
    url_encoded,
};

verus! {

/// A quote older than this, in seconds, is shown dimmed, with its age.
pub const STALE_AFTER: i64 = 900;

/// A quote younger than this, in seconds, is not worth refetching. An explicit refresh passes a
/// ttl of 0 and refetches regardless.
pub const REFRESH_TTL: i64 = 60;

/// The parts of a cached price that staleness and currency matching read: the currency it is
/// quoted in and when it was fetched, in unix seconds.
#[derive(Debug, PartialEq)]
pub struct Quote {
    pub currency: String,
    pub ts: i64,
}

impl Clone for Quote {
    fn clone(&self) -> (r: Quote)
        ensures
            r.currency@ == self.currency@,
            r.ts == self.ts,
    {
        Quote { currency: self.currency.clone(), ts: self.ts }
    }
}

/// How old a quote is at `now`.
pub fn age_secs(q: &Quote, now: i64) -> (r: i64)
    requires
        i64::MIN <= now - q.ts <= i64::MAX,
    ensures
        r == now - q.ts,
{
    now - q.ts
}

/// Whether a quote is old enough to be shown as stale.
pub fn is_stale(q: &Quote, now: i64) -> (r: bool)
    requires
        i64::MIN <= now - q.ts <= i64::MAX,
    ensures
        r == (now - q.ts > STALE_AFTER),
{
    age_secs(q, now) > STALE_AFTER
}

/// The cached quotes, one per symbol.
pub struct Cache {
    entries: Vec<(String, Quote)>,
}

/// What the cache holds: each symbol's currency and fetch time.
pub type CacheView = Map<Seq<char>, (Seq<char>, i64)>;

impl Cache {
    /// No symbol is cached twice.
    pub closed spec fn wf(&self) -> bool {
        forall|i: int, j: int|
            0 <= i < j < self.entries@.len() ==> #[trigger] self.entries@[i].0@
                != #[trigger] self.entries@[j].0@
    }

    pub closed spec fn view(&self) -> CacheView {
        Map::new(
            |s: Seq<char>| exists|i: int| 0 <= i < self.entries@.len() && self.entries@[i].0@ == s,
            |s: Seq<char>|
                {
                    let i = choose|i: int| 0 <= i < self.entries@.len() && self.entries@[i].0@ == s;
                    (self.entries@[i].1.currency@, self.entries@[i].1.ts)
                },
        )
    }

    proof fn lemma_view_at(&self, i: int)
        requires
            self.wf(),
            0 <= i < self.entries@.len(),
        ensures
            self.view().dom().contains(self.entries@[i].0@),
            self.view()[self.entries@[i].0@] == (
                self.entries@[i].1.currency@,
                self.entries@[i].1.ts,
            ),
    {
        let s = self.entries@[i].0@;
        assert(exists|j: int| 0 <= j < self.entries@.len() && self.entries@[j].0@ == s);
        let j = choose|j: int| 0 <= j < self.entries@.len() && self.entries@[j].0@ == s;
        if j != i {
            if j < i {
                assert(self.entries@[j].0@ != self.entries@[i].0@);
            } else {
                assert(self.entries@[i].0@ != self.entries@[j].0@);
            }
        }
    }

    pub fn new() -> (r: Cache)
        ensures
            r.wf(),
            r.view() == Map::<Seq<char>, (Seq<char>, i64)>::empty(),
    {
        let r = Cache { entries: Vec::new() };
        assert(r.view() =~= Map::<Seq<char>, (Seq<char>, i64)>::empty());
        r
    }

    fn position(&self, symbol: &str) -> (r: Option<usize>)
        ensures
            match r {
                Some(i) => i < self.entries@.len() && self.entries@[i as int].0@ == symbol@,
                None => forall|i: int|
                    0 <= i < self.entries@.len() ==> #[trigger] self.entries@[i].0@ != symbol@,
            },
    {
        let want = chars_of(symbol);
        let mut i: usize = 0;
        while i < self.entries.len()
            invariant
                i <= self.entries@.len(),
                want@ == symbol@,
                forall|j: int| 0 <= j < i ==> #[trigger] self.entries@[j].0@ != symbol@,
            decreases self.entries@.len() - i,
        {
            if chars_eq(&chars_of(self.entries[i].0.as_str()), &want) {
                return Some(i);
            }
            i += 1;
        }
        None
    }

    /// The cached quote for a symbol.
    pub fn get(&self, symbol: &str) -> (r: Option<&Quote>)
        requires
            self.wf(),
        ensures
            match r {
                Some(q) => self.view().dom().contains(symbol@) && self.view()[symbol@] == (
                    q.currency@,
                    q.ts,
                ),
                None => !self.view().dom().contains(symbol@),
            },
    {
        match self.position(symbol) {
            Some(i) => {
                proof {
                    self.lemma_view_at(i as int);
                }
                Some(&self.entries[i].1)
            },
            None => None,
        }
    }

    /// Caches a quote for a symbol, replacing any it had.
    pub fn insert(&mut self, symbol: String, q: Quote)
        requires
            old(self).wf(),
        ensures
            final(self).wf(),
            final(self).view() == old(self).view().insert(symbol@, (q.currency@, q.ts)),
    {
        let ghost old_view = self.view();
        let ghost key = symbol@;
        let ghost val = (q.currency@, q.ts);
        match self.position(symbol.as_str()) {
            Some(i) => {
                let ghost before = self.entries@;
                self.entries.set(i, (symbol, q));
                assert(self.wf()) by {
                    assert forall|a: int, b: int| 0 <= a < b < self.entries@.len() implies #[trigger] self.entries@[a].0@
                        != #[trigger] self.entries@[b].0@ by {
                        if a != i && b != i {
                            assert(before[a].0@ != before[b].0@);
                        } else if a == i {
                            assert(before[a].0@ != before[b].0@);
                        } else {
                            assert(before[a].0@ != before[b].0@);
                        }
                    }
                }
                assert(self.entries@[i as int].0@ == key);
                assert forall|s: Seq<char>| #[trigger] self.view().dom().contains(s) == old_view.insert(key, val).dom().contains(s) by {
                    if self.view().dom().contains(s) {
                        let j = choose|j: int| 0 <= j < self.entries@.len() && self.entries@[j].0@ == s;
                        if j != i {
                            assert(before[j].0@ == s);
                        }
                    }
                    if old_view.dom().contains(s) {
                        let j = choose|j: int| 0 <= j < before.len() && before[j].0@ == s;
                        if j == i {
                            assert(before[j].0@ == key);
                            assert(self.entries@[i as int].0@ == s);
                        } else {
                            assert(self.entries@[j] == before[j]);
                            assert(self.entries@[j].0@ == s);
                        }
                    }
                    if s == key {
                        assert(self.entries@[i as int].0@ == s);
                    }
                }
                assert forall|s: Seq<char>| #[trigger] self.view().dom().contains(s) implies self.view()[s] == old_view.insert(key, val)[s] by {
                    let j = choose|j: int| 0 <= j < self.entries@.len() && self.entries@[j].0@ == s;
                    self.lemma_view_at(j);
                    if j != i {
                        assert(before[j].0@ == s);
                        assert(before[j].0@ != key) by {
                            if j < i {
                                assert(before[j].0@ != before[i as int].0@);
                            } else {
                                assert(before[i as int].0@ != before[j].0@);
                            }
                        }
                        assert(old_view.dom().contains(s));
                        let k = choose|k: int| 0 <= k < before.len() && before[k].0@ == s;
                        assert(k == j) by {
                            if k != j {
                                if k < j {
                                    assert(before[k].0@ != before[j].0@);
                                } else {
                                    assert(before[j].0@ != before[k].0@);
                                }
                            }
                        }
                    }
                }
                assert(self.view() =~= old_view.insert(key, val));
            },
            None => {
                let ghost before = self.entries@;
                self.entries.push((symbol, q));
                let ghost n = before.len();
                assert(self.wf()) by {
                    assert forall|a: int, b: int| 0 <= a < b < self.entries@.len() implies #[trigger] self.entries@[a].0@
                        != #[trigger] self.entries@[b].0@ by {
                        if b < n {
                            assert(before[a].0@ != before[b].0@);
                        }
                    }
                }
                assert(self.entries@[n as int].0@ == key);
                assert forall|s: Seq<char>| #[trigger] self.view().dom().contains(s) == old_view.insert(key, val).dom().contains(s) by {
                    if self.view().dom().contains(s) {
                        let j = choose|j: int| 0 <= j < self.entries@.len() && self.entries@[j].0@ == s;
                        if j < n {
                            assert(before[j].0@ == s);
                        }
                    }
                    if old_view.dom().contains(s) {
                        let j = choose|j: int| 0 <= j < before.len() && before[j].0@ == s;
                        assert(self.entries@[j] == before[j]);
                        assert(self.entries@[j].0@ == s);
                    }
                    if s == key {
                        assert(self.entries@[n as int].0@ == s);
                    }
                }
                assert forall|s: Seq<char>| #[trigger] self.view().dom().contains(s) implies self.view()[s] == old_view.insert(key, val)[s] by {
                    let j = choose|j: int| 0 <= j < self.entries@.len() && self.entries@[j].0@ == s;
                    self.lemma_view_at(j);
                    if j < n {
                        assert(before[j].0@ == s);
                        assert(s != key);
                        let k = choose|k: int| 0 <= k < before.len() && before[k].0@ == s;
                        assert(k == j) by {
                            if k != j {
                                if k < j {
                                    assert(before[k].0@ != before[j].0@);
                                } else {
                                    assert(before[j].0@ != before[k].0@);
                                }
                            }
                        }
                    }
                }
                assert(self.view() =~= old_view.insert(key, val));
            },
        }
    }
}

/// Whether a wanted symbol must be fetched: it has no cached quote, or the quote has aged past
/// `ttl`.
pub open spec fn must_fetch(cache: CacheView, symbol: Seq<char>, ttl: i64, now: i64) -> bool {
    !cache.dom().contains(symbol) || now - cache[symbol].1 >= ttl
}

pub open spec fn strings(v: Seq<String>) -> Seq<Seq<char>> {
    v.map_values(|s: String| s@)
}

/// The wanted symbols that must be fetched, in the order wanted.
pub open spec fn to_fetch(cache: CacheView, wanted: Seq<Seq<char>>, ttl: i64, now: i64) -> Seq<
    Seq<char>,
>
    decreases wanted.len(),
{
    if wanted.len() == 0 {
        wanted
    } else if must_fetch(cache, wanted.last(), ttl, now) {
        to_fetch(cache, wanted.drop_last(), ttl, now).push(wanted.last())
    } else {
        to_fetch(cache, wanted.drop_last(), ttl, now)
    }
}

proof fn lemma_to_fetch_members(cache: CacheView, wanted: Seq<Seq<char>>, ttl: i64, now: i64)
    ensures
        forall|s: Seq<char>|
            #[trigger] to_fetch(cache, wanted, ttl, now).contains(s) <==> (wanted.contains(s)
                && must_fetch(cache, s, ttl, now)),
    decreases wanted.len(),
{
    if wanted.len() > 0 {
        let init = wanted.drop_last();
        lemma_to_fetch_members(cache, init, ttl, now);
        let r = to_fetch(cache, wanted, ttl, now);
        let ri = to_fetch(cache, init, ttl, now);
        assert forall|s: Seq<char>| #[trigger] r.contains(s) <==> (wanted.contains(s) && must_fetch(
            cache,
            s,
            ttl,
            now,
        )) by {
            if wanted.contains(s) && must_fetch(cache, s, ttl, now) {
                let k = choose|k: int| 0 <= k < wanted.len() && wanted[k] == s;
                if k < init.len() {
                    assert(init[k] == s);
                    assert(ri.contains(s));
                    let j = choose|j: int| 0 <= j < ri.len() && ri[j] == s;
                    if r != ri {
                        assert(r == ri.push(wanted.last()));
                        assert(r[j] == s);
                    }
                } else {
                    assert(r == ri.push(wanted.last()));
                    assert(r[ri.len() as int] == s);
                }
            }
            if r.contains(s) {
                let j = choose|j: int| 0 <= j < r.len() && r[j] == s;
                if j < ri.len() && (r == ri || r == ri.push(wanted.last())) {
                    assert(r[j] == ri[j]);
                    assert(ri.contains(s));
                    assert(init.contains(s));
                    let k = choose|k: int| 0 <= k < init.len() && init[k] == s;
                    assert(wanted[k] == s);
                } else {
                    assert(s == wanted.last());
                    assert(wanted[wanted.len() - 1] == s);
                }
            }
        }
    }
}

/// A symbol with no quote at all is always fetched, whatever the ttl.
pub proof fn law_an_unquoted_symbol_is_always_fetched(
    cache: CacheView,
    wanted: Seq<Seq<char>>,
    ttl: i64,
    now: i64,
    s: Seq<char>,
)
    requires
        wanted.contains(s),
        !cache.dom().contains(s),
    ensures
        to_fetch(cache, wanted, ttl, now).contains(s),
{
    lemma_to_fetch_members(cache, wanted, ttl, now);
}

/// A quote younger than the ttl is left alone: a second window opened a moment later costs no
/// requests.
pub proof fn law_a_young_quote_is_left_alone(
    cache: CacheView,
    wanted: Seq<Seq<char>>,
    ttl: i64,
    now: i64,
    s: Seq<char>,
)
    requires
        cache.dom().contains(s),
        now - cache[s].1 < ttl,
    ensures
        !to_fetch(cache, wanted, ttl, now).contains(s),
{
    lemma_to_fetch_members(cache, wanted, ttl, now);
}

/// A ttl of zero refetches every wanted symbol however fresh, as long as no cached quote is
/// stamped later than the clock now reads.
pub proof fn law_a_zero_ttl_refetches_everything(cache: CacheView, wanted: Seq<Seq<char>>, now: i64)
    requires
        forall|s: Seq<char>| #[trigger] cache.dom().contains(s) ==> cache[s].1 <= now,
    ensures
        to_fetch(cache, wanted, 0, now) == wanted,
    decreases wanted.len(),
{
    if wanted.len() > 0 {
        law_a_zero_ttl_refetches_everything(cache, wanted.drop_last(), now);
        assert(must_fetch(cache, wanted.last(), 0, now));
        assert(wanted.drop_last().push(wanted.last()) =~= wanted);
    }
}

/// Which of `wanted` actually have to be fetched: the ones with no quote at all, and the ones
/// whose quote has aged past `ttl`. This is the whole cache policy.
pub fn needs_fetch(cache: &Cache, wanted: &[String], ttl: i64, now: i64) -> (r: Vec<String>)
    requires
        cache.wf(),
        forall|s: Seq<char>|
            #[trigger] cache.view().dom().contains(s) ==> i64::MIN <= now - cache.view()[s].1
                <= i64::MAX,
    ensures
        strings(r@) == to_fetch(cache.view(), strings(wanted@), ttl, now),
{
    let ghost wv = strings(wanted@);
    let mut r: Vec<String> = Vec::new();
    let mut i: usize = 0;
    while i < wanted.len()
        invariant
            i <= wanted@.len(),
            wv == strings(wanted@),
            cache.wf(),
            forall|s: Seq<char>|
                #[trigger] cache.view().dom().contains(s) ==> i64::MIN <= now - cache.view()[s].1
                    <= i64::MAX,
            strings(r@) == to_fetch(cache.view(), wv.take(i as int), ttl, now),
        decreases wanted@.len() - i,
    {
        assert(wv.take(i as int + 1).drop_last() =~= wv.take(i as int));
        assert(wv.take(i as int + 1).last() == wanted@[i as int]@);
        let fetch = match cache.get(wanted[i].as_str()) {
            None => true,
            Some(q) => age_secs(q, now) >= ttl,
        };
        if fetch {
            let ghost before = r@;
            r.push(wanted[i].clone());
            assert(strings(r@) =~= strings(before).push(wanted@[i as int]@));
        }
        i += 1;
    }
    assert(wv.take(i as int) =~= wv);
    r
}

/// The Yahoo symbol for converting `from` into `to`, or `None` when no conversion is needed.
pub open spec fn fx_pair(from: Seq<char>, to: Seq<char>) -> Option<Seq<char>> {
    let (f, t) = (ascii_upper(from), ascii_upper(to));
    if f == t {
        None
    } else {
        Some(f + t + "=X"@)
    }
}

/// The Yahoo symbol for a currency pair, or `None` when no conversion is needed. One hop, base
/// currency only: Yahoo quotes every pair this app needs directly.
pub fn fx_symbol(from: &str, to: &str) -> (r: Option<String>)
    ensures
        match fx_pair(from@, to@) {
            Some(p) => r matches Some(s) && s@ == p,
            None => r is None,
        },
{
    let f = ascii_upper_chars(&chars_of(from));
    let t = ascii_upper_chars(&chars_of(to));
    if chars_eq(&f, &t) {
        return None;
    }
    let mut out = string_of(&f);
    let t_text = string_of(&t);
    out.append(t_text.as_str());
    out.append("=X");
    Some(out)
}

/// The address of a symbol's last price and previous close.
pub open spec fn chart_url_of(symbol: Seq<char>) -> Seq<char> {
    "https://query1.finance.yahoo.com/v8/finance/chart/"@ + url_encoded(symbol)
        + "?range=1d&interval=1d"@
}

pub fn chart_url(symbol: &str) -> (r: String)
    ensures
        r@ == chart_url_of(symbol@),
{
    let mut out = String::from_str("https://query1.finance.yahoo.com/v8/finance/chart/");
    let enc = url_encode(symbol);
    out.append(enc.as_str());
    out.append("?range=1d&interval=1d");
    out
}

/// The address of a ticker search.
pub open spec fn search_url_of(query: Seq<char>) -> Seq<char> {
    "https://query1.finance.yahoo.com/v1/finance/search?q="@ + url_encoded(query)
        + "&quotesCount=20&newsCount=0"@
}

pub fn search_url(query: &str) -> (r: String)
    ensures
        r@ == search_url_of(query@),
{
    let mut out = String::from_str("https://query1.finance.yahoo.com/v1/finance/search?q=");
    let enc = url_encode(query);
    out.append(enc.as_str());
    out.append("&quotesCount=20&newsCount=0");
    out
}

/// One field of a search result row as the JSON had it: missing, a string, or something else.
pub enum JsonField {
    Absent,
    Text(String),
    Other,
}

/// A field as plain values: `None` when missing, `Some(None)` when not a string.
pub open spec fn field_view(f: JsonField) -> Option<Option<Seq<char>>> {
    match f {
        JsonField::Absent => None,
        JsonField::Text(s) => Some(Some(s@)),
        JsonField::Other => Some(None),
    }
}

/// The string a field holds, if it holds one.
pub open spec fn field_text(f: Option<Option<Seq<char>>>) -> Option<Seq<char>> {
    match f {
        Some(Some(s)) => Some(s),
        _ => None,
    }
}

/// The fields of one row of Yahoo's search response that the hit is made from.
pub struct SearchRow {
    pub symbol: JsonField,
    pub quote_type: JsonField,
    pub longname: JsonField,
    pub shortname: JsonField,
    pub exchange: JsonField,
}

pub struct SearchRowView {
    pub symbol: Option<Option<Seq<char>>>,
    pub quote_type: Option<Option<Seq<char>>>,
    pub longname: Option<Option<Seq<char>>>,
    pub shortname: Option<Option<Seq<char>>>,
    pub exchange: Option<Option<Seq<char>>>,
}

impl View for SearchRow {
    type V = SearchRowView;

    open spec fn view(&self) -> SearchRowView {
        SearchRowView {
            symbol: field_view(self.symbol),
            quote_type: field_view(self.quote_type),
            longname: field_view(self.longname),
            shortname: field_view(self.shortname),
            exchange: field_view(self.exchange),
        }
    }
}

/// One row from a ticker search, already narrowed to the configured scope.
pub struct SearchHit {
    pub symbol: String,
    pub name: String,
    pub exchange: String,
    /// Yahoo's search does not return a currency; it is filled in when the quote is first fetched.
    pub currency: String,
}

pub open spec fn hit_view(h: SearchHit) -> (Seq<char>, Seq<char>, Seq<char>, Seq<char>) {
    (h.symbol@, h.name@, h.exchange@, h.currency@)
}

/// Whether an instrument kind is one you can hold a share of. Currencies, indices, crypto and
/// futures are not: a portfolio of them would break every weight.
pub open spec fn holdable_kind(kind: Seq<char>) -> bool {
    kind == "EQUITY"@ || kind == "ETF"@ || kind == "MUTUALFUND"@
}

/// The name a hit shows: the long name before the short one, since Oslo's short name for
/// EQNR.OL is the bare exchange label "EQUINOR" while the long one is "Equinor ASA". A long name
/// that is present but not a string hides the short one.
pub open spec fn hit_name(row: SearchRowView) -> Seq<char> {
    let chosen = match row.longname {
        Some(l) => Some(l),
        None => row.shortname,
    };
    match field_text(chosen) {
        Some(s) => s,
        None => Seq::<char>::empty(),
    }
}

/// The hit a search row makes under a scope, if it makes one.
pub open spec fn hit_of(row: SearchRowView, scope: Scope) -> Option<
    (Seq<char>, Seq<char>, Seq<char>, Seq<char>),
> {
    match field_text(row.symbol) {
        None => None,
        Some(symbol) => if !scope.spec_accepts(symbol) {
            None
        } else {
            let kind = match field_text(row.quote_type) {
                Some(k) => k,
                None => Seq::<char>::empty(),
            };
            if !holdable_kind(kind) {
                None
            } else {
                Some(
                    (
                        symbol,
                        hit_name(row),
                        match field_text(row.exchange) {
                            Some(e) => e,
                            None => Seq::<char>::empty(),
                        },
                        Seq::<char>::empty(),
                    ),
                )
            }
        },
    }
}

/// The hits of a list of rows, in the rows' order.
pub open spec fn hits_of(rows: Seq<SearchRowView>, scope: Scope) -> Seq<
    (Seq<char>, Seq<char>, Seq<char>, Seq<char>),
>
    decreases rows.len(),
{
    if rows.len() == 0 {
        Seq::empty()
    } else {
        let rest = hits_of(rows.drop_last(), scope);
        match hit_of(rows.last(), scope) {
            Some(h) => rest.push(h),
            None => rest,
        }
    }
}

pub open spec fn row_views(rows: Seq<SearchRow>) -> Seq<SearchRowView> {
    rows.map_values(|r: SearchRow| r@)
}

pub open spec fn hit_views(hits: Seq<SearchHit>) -> Seq<(Seq<char>, Seq<char>, Seq<char>, Seq<char>)> {
    hits.map_values(|h: SearchHit| hit_view(h))
}

fn text_of(f: &JsonField) -> (r: Option<String>)
    ensures
        match r {
            Some(s) => field_text(field_view(*f)) == Some(s@),
            None => field_text(field_view(*f)) is None,
        },
{
    match f {
        JsonField::Text(s) => Some(s.clone()),
        _ => None,
    }
}

fn hit(row: &SearchRow, scope: Scope) -> (r: Option<SearchHit>)
    ensures
        match hit_of(row@, scope) {
            Some(h) => r matches Some(x) && hit_view(x) == h,
            None => r is None,
        },
{
    let symbol = match text_of(&row.symbol) {
        Some(s) => s,
        None => {
            return None;
        },
    };
    if !scope.accepts(symbol.as_str()) {
        return None;
    }
    let kind = match text_of(&row.quote_type) {
        Some(k) => chars_of(k.as_str()),
        None => Vec::new(),
    };
    if !(chars_eq(&kind, &chars_of("EQUITY")) || chars_eq(&kind, &chars_of("ETF")) || chars_eq(
        &kind,
        &chars_of("MUTUALFUND"),
    )) {
        return None;
    }
    let name = match &row.longname {
        JsonField::Text(s) => s.clone(),
        JsonField::Other => String::new(),
        JsonField::Absent => match text_of(&row.shortname) {
            Some(s) => s,
            None => String::new(),
        },
    };
    let exchange = match text_of(&row.exchange) {
        Some(e) => e,
        None => String::new(),
    };
    Some(SearchHit { symbol, name, exchange, currency: String::new() })
}

/// Search hits from the rows of a search response, keeping only the exchanges this scope admits
/// and only instruments you can hold a share of. Order is Yahoo's own relevance order, which for
/// a Nordic name puts the US listing first, so the scope filter is what makes this usable.
pub fn search_hits(rows: &[SearchRow], scope: Scope) -> (r: Vec<SearchHit>)
    ensures
        hit_views(r@) == hits_of(row_views(rows@), scope),
{
    let mut r: Vec<SearchHit> = Vec::new();
    let mut i: usize = 0;
    while i < rows.len()
        invariant
            i <= rows@.len(),
            hit_views(r@) == hits_of(row_views(rows@.take(i as int)), scope),
        decreases rows@.len() - i,
    {
        let ghost t = row_views(rows@.take(i as int + 1));
        proof {
            assert(t.drop_last() =~= row_views(rows@.take(i as int)));
            assert(t.last() == rows@[i as int]@);
        }
        let ghost before = r@;
        match hit(&rows[i], scope) {
            Some(h) => {
                r.push(h);
                assert(hit_views(r@) =~= hit_views(before).push(hit_view(r@.last())));
            },
            None => {},
        }
        i += 1;
    }
    assert(rows@.take(i as int) =~= rows@);
    r
}

// ---------------------------------------------------------------------------------------------
// Reading a search response.

/// The value of the first member of an object named `key`.
pub open spec fn lookup(members: Seq<(String, Json)>, key: Seq<char>) -> Option<Json>
    decreases members.len(),
{
    if members.len() == 0 {
        None
    } else if members[0].0@ == key {
        Some(members[0].1)
    } else {
        lookup(members.drop_first(), key)
    }
}

/// A field of a search row: missing when the row is not an object or has no such member, the
/// text when the member is a string, and present-but-not-text otherwise.
pub open spec fn field_in(row: Json, name: Seq<char>) -> Option<Option<Seq<char>>> {
    match row {
        Json::Object(members) => match lookup(members@, name) {
            None => None,
            Some(Json::Str(s)) => Some(Some(s@)),
            Some(_) => Some(None),
        },
        _ => None,
    }
}

/// The fields a hit is made from, as one row of the response has them.
pub open spec fn row_in(row: Json) -> SearchRowView {
    SearchRowView {
        symbol: field_in(row, "symbol"@),
        quote_type: field_in(row, "quoteType"@),
        longname: field_in(row, "longname"@),
        shortname: field_in(row, "shortname"@),
        exchange: field_in(row, "exchange"@),
    }
}

/// The rows of a search response: one for each element of the `quotes` array of the document,
/// in order, and none when the body is not JSON, is not an object, or has no `quotes` array.
pub open spec fn rows_in(doc: Option<Json>) -> Seq<SearchRowView> {
    match doc {
        Some(Json::Object(members)) => match lookup(members@, "quotes"@) {
            Some(Json::Array(items)) => items@.map_values(|r: Json| row_in(r)),
            _ => Seq::empty(),
        },
        _ => Seq::empty(),
    }
}

fn find_member(members: &Vec<(String, Json)>, key: &str) -> (r: Option<usize>)
    ensures
        match r {
            Some(i) => i < members@.len() && lookup(members@, key@) == Some(members@[i as int].1),
            None => lookup(members@, key@) is None,
        },
{
    let want = chars_of(key);
    let mut i: usize = 0;
    assert(members@.skip(0) =~= members@);
    while i < members.len()
        invariant
            i <= members@.len(),
            want@ == key@,
            lookup(members@, key@) == lookup(members@.skip(i as int), key@),
        decreases members@.len() - i,
    {
        let ghost rest = members@.skip(i as int);
        assert(rest[0] == members@[i as int]);
        if chars_eq(&chars_of(members[i].0.as_str()), &want) {
            return Some(i);
        }
        assert(rest.drop_first() =~= members@.skip(i as int + 1));
        i += 1;
    }
    None
}

fn field(row: &Json, name: &str) -> (r: JsonField)
    ensures
        field_view(r) == field_in(*row, name@),
{
    match row {
        Json::Object(members) => match find_member(members, name) {
            None => JsonField::Absent,
            Some(i) => match &members[i].1 {
                Json::Str(s) => JsonField::Text(s.clone()),
                _ => JsonField::Other,
            },
        },
        _ => JsonField::Absent,
    }
}

/// The rows of a search response body, as `search_hits` reads them: one for each element of its
/// `quotes` array, in order, and none at all when the body is not JSON or has no such array.
pub fn search_rows(body: &str) -> (r: Vec<SearchRow>)
    ensures
        row_views(r@) == rows_in(json_of(body@)),
{
    let doc = parse_json(body);
    let mut out: Vec<SearchRow> = Vec::new();
    match &doc {
        Some(Json::Object(members)) => match find_member(members, "quotes") {
            Some(q) => match &members[q].1 {
                Json::Array(items) => {
                    let mut i: usize = 0;
                    while i < items.len()
                        invariant
                            i <= items@.len(),
                            row_views(out@) == items@.take(i as int).map_values(
                                |r: Json| row_in(r),
                            ),
                        decreases items@.len() - i,
                    {
                        let row = &items[i];
                        let r = SearchRow {
                            symbol: field(row, "symbol"),
                            quote_type: field(row, "quoteType"),
                            longname: field(row, "longname"),
                            shortname: field(row, "shortname"),
                            exchange: field(row, "exchange"),
                        };
                        let ghost before = out@;
                        out.push(r);
                        assert(row_views(out@) =~= row_views(before).push(row_in(items@[i as int])));
                        assert(items@.take(i as int + 1).map_values(|r: Json| row_in(r))
                            =~= items@.take(i as int).map_values(|r: Json| row_in(r)).push(
                            row_in(items@[i as int]),
                        ));
                        i += 1;
                    }
                    assert(items@.take(i as int) =~= items@);
                },
                _ => {
                    assert(row_views(out@) =~= Seq::<SearchRowView>::empty());
                },
            },
            None => {
                assert(row_views(out@) =~= Seq::<SearchRowView>::empty());
            },
        },
        _ => {
            assert(row_views(out@) =~= Seq::<SearchRowView>::empty());
        },
    }
    out
}

/// Search hits in a search response body, keeping only the exchanges this scope admits and only
/// instruments you can hold a share of, in Yahoo's order. A body that is not JSON, or has no
/// `quotes` array, gives no hits.
pub fn parse_search(body: &str, scope: Scope) -> (r: Vec<SearchHit>)
    ensures
        hit_views(r@) == hits_of(rows_in(json_of(body@)), scope),
{
    let rows = search_rows(body);
    search_hits(&rows, scope)
}

} // verus!
