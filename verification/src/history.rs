//! Daily closes: where each symbol's series is kept, where it is fetched from, which calendar day
//! a bar belongs to, and whether a series is current.
//!
//! One JSON file per symbol under `<store>/history/`. Adjusted close, not close: a Norwegian
//! portfolio is full of dividend payers.

use vstd::prelude::*;

use crate::config::{join_path, path_join, Config};
use crate::text::{chars_of, push_char, text_before, text_less, url_encode, url_encoded};

verus! {

/// Whether a character survives into a file name unchanged.
pub open spec fn file_safe(c: char) -> bool {
    ('0' <= c && c <= '9') || ('a' <= c && c <= 'z') || ('A' <= c && c <= 'Z') || c == '.' || c
        == '-' || c == '='
}

/// A symbol as a file name stem: anything but ASCII letters, digits, `.`, `-` and `=` becomes `_`.
pub open spec fn safe_stem(symbol: Seq<char>) -> Seq<char> {
    symbol.map_values(|c: char| if file_safe(c) { c } else { '_' })
}

/// The directory the series live in.
pub open spec fn history_dir(store_dir: Seq<char>) -> Seq<char> {
    path_join(store_dir, "history"@)
}

/// The file one symbol's series lives in.
pub open spec fn history_file(store_dir: Seq<char>, symbol: Seq<char>) -> Seq<char> {
    path_join(history_dir(store_dir), safe_stem(symbol) + ".json"@)
}

/// Where one symbol's history lives. The symbol is not a file name: `BRK-B` is fine, but a symbol
/// with a slash would escape the directory, so anything unexpected becomes an underscore.
pub fn path(cfg: &Config, symbol: &str) -> (r: String)
    ensures
        r@ == history_file(cfg.store_dir@, symbol@),
{
    let dir = join_path(cfg.store_dir.as_str(), "history");
    let c = chars_of(symbol);
    let mut stem = String::new();
    let mut i: usize = 0;
    while i < c.len()
        invariant
            i <= c@.len(),
            c@ == symbol@,
            stem@ == safe_stem(symbol@).take(i as int),
        decreases c@.len() - i,
    {
        let ch = c[i];
        let keep = ('0' <= ch && ch <= '9') || ('a' <= ch && ch <= 'z') || ('A' <= ch && ch <= 'Z')
            || ch == '.' || ch == '-' || ch == '=';
        push_char(
            &mut stem,
            if keep {
                ch
            } else {
                '_'
            },
        );
        assert(safe_stem(symbol@).take(i as int + 1) =~= safe_stem(symbol@).take(i as int).push(
            safe_stem(symbol@)[i as int],
        ));
        i += 1;
    }
    assert(safe_stem(symbol@).take(i as int) =~= safe_stem(symbol@));
    stem.append(".json");
    join_path(dir.as_str(), stem.as_str())
}

/// Whatever the symbol, its file lands directly in the history directory: the file name has no
/// separator left in it to traverse with, and it keeps the `.json` extension.
pub proof fn law_a_symbol_stays_in_the_history_directory(store_dir: Seq<char>, symbol: Seq<char>)
    ensures
        exists|name: Seq<char>|
            {
                &&& history_file(store_dir, symbol) == path_join(history_dir(store_dir), name)
                &&& !name.contains('/')
                &&& name.len() >= 5
                &&& name.subrange(name.len() - 5, name.len() as int) == ".json"@
            },
{
    reveal_strlit(".json");
    let name = safe_stem(symbol) + ".json"@;
    let stem = safe_stem(symbol);
    assert forall|i: int| 0 <= i < name.len() implies name[i] != '/' by {
        if i < stem.len() {
            assert(name[i] == stem[i]);
            assert(stem[i] == (if file_safe(symbol[i]) {
                symbol[i]
            } else {
                '_'
            }));
        } else {
            assert(name[i] == ".json"@[i - stem.len()]);
        }
    }
    assert(!name.contains('/'));
    assert(name.subrange(name.len() - 5, name.len() as int) =~= ".json"@);
}

/// Where five years of daily closes for a symbol are fetched from.
pub open spec fn history_url_of(symbol: Seq<char>) -> Seq<char> {
    "https://query1.finance.yahoo.com/v8/finance/chart/"@ + url_encoded(symbol)
        + "?range=5y&interval=1d&events=div"@
}

pub fn history_url(symbol: &str) -> (r: String)
    ensures
        r@ == history_url_of(symbol@),
{
    let mut out = String::from_str("https://query1.finance.yahoo.com/v8/finance/chart/");
    let enc = url_encode(symbol);
    out.append(enc.as_str());
    out.append("?range=5y&interval=1d&events=div");
    out
}

/// How a day is written: `YYYY-MM-DD`, which sorts as text in the order of the calendar.
pub const DAY_FORMAT: &'static str = "%Y-%m-%d";

/// What chrono writes for the unix time `ts`, in UTC, with the strftime format `fmt`: `None`
/// where chrono has no date for that time or the format does not parse.
pub uninterp spec fn utc_formatted(ts: i64, fmt: Seq<char>) -> Option<Seq<char>>;

/// `chrono::DateTime::from_timestamp(ts, 0)`, then `format(fmt).write_to`: the UTC date and time
/// of a unix time in the given format, or `None` where chrono has no date for it or the format
/// fails to write. The calendar arithmetic and the format grammar are named, not restated.
#[verifier::external_body]
fn utc_format(ts: i64, fmt: &str) -> (r: Option<String>)
    ensures
        match r {
            Some(s) => utc_formatted(ts, fmt@) == Some(s@),
            None => utc_formatted(ts, fmt@) is None,
        },
{
    let d = chrono::DateTime::from_timestamp(ts, 0)?;
    let mut s = String::new();
    d.format(fmt).write_to(&mut s).ok()?;
    Some(s)
}

/// The day a unix time falls on in UTC; a time outside the calendar reads as the epoch's day.
pub open spec fn day_of(ts: i64) -> Seq<char> {
    match utc_formatted(ts, DAY_FORMAT@) {
        Some(d) => d,
        None => "1970-01-01"@,
    }
}

/// Unix seconds to a UTC calendar day: a chart axis, not an instant.
pub fn day(ts: i64) -> (r: String)
    ensures
        r@ == day_of(ts),
{
    match utc_format(ts, DAY_FORMAT) {
        Some(d) => d,
        None => String::from_str("1970-01-01"),
    }
}

/// A series is current when its last bar reaches yesterday. Yesterday, not today: today's bar
/// does not exist until the exchange has traded. Days are `YYYY-MM-DD`, which sort as text.
pub open spec fn current_at(last_day: Option<Seq<char>>, now: i64) -> bool {
    reaches(last_day, day_of((now - 86400) as i64))
}

/// Whether a series whose last bar is on `last_day` reaches the day `cutoff`: a series with no
/// bars reaches nothing.
pub open spec fn reaches(last_day: Option<Seq<char>>, cutoff: Seq<char>) -> bool {
    match last_day {
        Some(d) => !text_less(d, cutoff),
        None => false,
    }
}

/// Whether a series whose last bar is on `last_day` (`None` for no bars) reaches the day
/// `cutoff`, both `YYYY-MM-DD`: a series is current when it reaches yesterday.
pub fn reaches_day(last_day: Option<&str>, cutoff: &str) -> (r: bool)
    ensures
        r == reaches(
            match last_day {
                Some(d) => Some(d@),
                None => None,
            },
            cutoff@,
        ),
{
    match last_day {
        Some(d) => !text_before(&chars_of(d), &chars_of(cutoff)),
        None => false,
    }
}

/// Whether a series whose last bar is on `last_day` (`None` for no bars) is current at `now`.
pub fn is_current(last_day: Option<&str>, now: i64) -> (r: bool)
    requires
        now >= i64::MIN + 86400,
    ensures
        r == current_at(
            match last_day {
                Some(d) => Some(d@),
                None => None,
            },
            now,
        ),
{
    let cutoff = day(now - 86400);
    reaches_day(last_day, cutoff.as_str())
}

} // verus!
