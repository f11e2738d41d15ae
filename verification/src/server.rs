//! The API's decisions: who may ask, which route a request takes, what a refusal says, how big
//! a body may be, and how old the prices on the screen are.
//!
//! Auth is one shared secret in X-Meridian-Token. There is one store per server and one token
//! that opens it.

use vstd::prelude::*;

use crate::ids::{hex_lower, hex_of, lemma_hex_len, random_bytes};
use crate::quotes::{Cache, CacheView, STALE_AFTER};
use crate::text::{chars_eq, chars_of, find_char, lemma_find_char, slice_chars};

verus! {

/// The most a request body may be, in bytes.
pub const BODY_MAX: usize = 1048576;

/// An error the page should read: (status, message).
pub struct Fail(pub u16, pub String);

impl Fail {
    pub fn new(code: u16, msg: &str) -> (r: Fail)
        ensures
            r.0 == code,
            r.1@ == msg@,
    {
        Fail(code, String::from_str(msg))
    }
}

/// Equal without leaking where they differ: every byte is looked at whatever came before it.
pub fn same_token(a: &str, b: &str) -> (r: bool)
    ensures
        r == (a@ == b@),
{
    let x = a.as_bytes();
    let y = b.as_bytes();
    proof {
        vstd::utf8::encode_utf8_decode_utf8(a@);
        vstd::utf8::encode_utf8_decode_utf8(b@);
    }
    if x.len() != y.len() {
        return false;
    }
    let mut acc: u8 = 0;
    let mut i: usize = 0;
    while i < x.len()
        invariant
            x@.len() == y@.len(),
            i <= x@.len(),
            (acc == 0) == (forall|j: int| 0 <= j < i ==> x@[j] == y@[j]),
        decreases x@.len() - i,
    {
        let xi = x[i];
        let yi = y[i];
        let d = xi ^ yi;
        assert(d == 0 <==> xi == yi) by (bit_vector)
            requires
                d == xi ^ yi,
        ;
        assert((acc | d) == 0 <==> (acc == 0 && d == 0)) by (bit_vector);
        acc = acc | d;
        i += 1;
    }
    proof {
        if acc == 0 {
            assert(x@ =~= y@);
        }
    }
    acc == 0
}

/// A random session token: 24 random bytes as 48 lowercase hex digits. `None` only when the
/// random source fails.
pub fn new_token() -> (r: Option<String>)
    ensures
        r matches Some(t) ==> exists|raw: Seq<u8>| raw.len() == 24 && t@ == hex_of(raw),
        r matches Some(t) ==> t@.len() == 48,
{
    match random_bytes(24) {
        Some(raw) => {
            proof {
                lemma_hex_len(raw@);
            }
            Some(hex_lower(&raw))
        },
        None => None,
    }
}

/// Where a request goes.
#[derive(Clone, Copy, Debug, PartialEq, Eq)]
pub enum Route {
    /// A CORS preflight, answered with 204 and no body.
    Preflight,
    /// The health check, which reveals nothing and needs no token.
    Health,
    /// Anything else without the right token.
    Unauthorized,
    /// The whole computed view.
    State,
    /// A path the API does not have.
    NotFound,
}

/// The path of a request target: everything before the first `?`.
pub open spec fn path_of(url: Seq<char>) -> Seq<char> {
    url.take(find_char(url, '?') as int)
}

/// Which route a request takes. A preflight carries no token by definition, so it is answered
/// before the guard, and so is the health check.
pub open spec fn route_of(
    method: Seq<char>,
    url: Seq<char>,
    presented: Seq<char>,
    token: Seq<char>,
) -> Route {
    if method == "OPTIONS"@ {
        Route::Preflight
    } else if path_of(url) == "/api/health"@ {
        Route::Health
    } else if presented != token {
        Route::Unauthorized
    } else if method == "GET"@ && path_of(url) == "/api/state"@ {
        Route::State
    } else {
        Route::NotFound
    }
}

/// The route for a request with this method, target and X-Meridian-Token header, on a server
/// opened by `token`. A missing header is the empty string.
pub fn route(method: &str, url: &str, presented: &str, token: &str) -> (r: Route)
    ensures
        r == route_of(method@, url@, presented@, token@),
{
    let m = chars_of(method);
    let u = chars_of(url);
    let mut cut: usize = 0;
    while cut < u.len() && u[cut] != '?'
        invariant
            cut <= u@.len(),
            forall|j: int| 0 <= j < cut ==> u@[j] != '?',
        decreases u@.len() - cut,
    {
        cut += 1;
    }
    proof {
        lemma_find_char(u@, '?');
        if find_char(u@, '?') < cut {
            assert(u@[find_char(u@, '?') as int] == '?');
        }
        if cut < find_char(u@, '?') {
            assert(u@[cut as int] != '?');
        }
    }
    let path = slice_chars(&u, 0, cut);
    assert(path@ =~= path_of(url@));
    if chars_eq(&m, &chars_of("OPTIONS")) {
        return Route::Preflight;
    }
    if chars_eq(&path, &chars_of("/api/health")) {
        return Route::Health;
    }
    if !same_token(presented, token) {
        return Route::Unauthorized;
    }
    if chars_eq(&m, &chars_of("GET")) && chars_eq(&path, &chars_of("/api/state")) {
        Route::State
    } else {
        Route::NotFound
    }
}

/// Without the right token a request reaches nothing but the preflight and the health check.
pub proof fn law_no_token_no_data(
    method: Seq<char>,
    url: Seq<char>,
    presented: Seq<char>,
    token: Seq<char>,
)
    requires
        presented != token,
    ensures
        route_of(method, url, presented, token) == Route::Preflight || route_of(
            method,
            url,
            presented,
            token,
        ) == Route::Health || route_of(method, url, presented, token) == Route::Unauthorized,
{
}

/// With the right token a request is never refused for its token.
pub proof fn law_the_token_opens_everything(method: Seq<char>, url: Seq<char>, token: Seq<char>)
    ensures
        route_of(method, url, token, token) != Route::Unauthorized,
{
}

/// The refusal a route is answered with, if it is one.
pub open spec fn refusal_of(r: Route) -> Option<(u16, Seq<char>)> {
    match r {
        Route::Unauthorized => Some((401u16, "bad token"@)),
        Route::NotFound => Some((404u16, "not found"@)),
        _ => None,
    }
}

pub fn refusal(r: Route) -> (f: Option<Fail>)
    ensures
        match refusal_of(r) {
            Some((code, msg)) => f matches Some(x) && x.0 == code && x.1@ == msg,
            None => f is None,
        },
{
    match r {
        Route::Unauthorized => Some(Fail::new(401, "bad token")),
        Route::NotFound => Some(Fail::new(404, "not found")),
        _ => None,
    }
}

/// What a request body is, by its size: too large (413), empty (read as `{}`), or text to parse.
#[derive(Clone, Copy, Debug, PartialEq, Eq)]
pub enum BodySize {
    Empty,
    Parse,
}

/// The size check on a body read with a cap of one byte more than `BODY_MAX`.
pub fn body_size(len: usize) -> (r: Result<BodySize, Fail>)
    ensures
        len > BODY_MAX ==> (r matches Err(f) && f.0 == 413 && f.1@ == "body too large"@),
        len == 0 ==> r == Ok::<BodySize, Fail>(BodySize::Empty),
        0 < len <= BODY_MAX ==> r == Ok::<BodySize, Fail>(BodySize::Parse),
{
    if len > BODY_MAX {
        Err(Fail::new(413, "body too large"))
    } else if len == 0 {
        Ok(BodySize::Empty)
    } else {
        Ok(BodySize::Parse)
    }
}

/// The fetch time of the oldest cached quote among `tickers`; tickers with no quote are skipped.
pub open spec fn oldest_ts(cache: CacheView, tickers: Seq<Seq<char>>) -> Option<i64>
    decreases tickers.len(),
{
    if tickers.len() == 0 {
        None
    } else {
        let rest = oldest_ts(cache, tickers.drop_last());
        let t = tickers.last();
        if cache.dom().contains(t) {
            let ts = cache[t].1;
            match rest {
                None => Some(ts),
                Some(o) => Some(
                    if ts < o {
                        ts
                    } else {
                        o
                    },
                ),
            }
        } else {
            rest
        }
    }
}

pub open spec fn ticker_texts(v: Seq<String>) -> Seq<Seq<char>> {
    v.map_values(|s: String| s@)
}

/// The oldest quote among the holdings decides staleness: one fresh price does not make the
/// screen current.
pub fn oldest_quote(cache: &Cache, tickers: &[String]) -> (r: Option<i64>)
    requires
        cache.wf(),
    ensures
        r == oldest_ts(cache@, ticker_texts(tickers@)),
{
    let mut r: Option<i64> = None;
    let mut i: usize = 0;
    while i < tickers.len()
        invariant
            cache.wf(),
            i <= tickers@.len(),
            r == oldest_ts(cache@, ticker_texts(tickers@.take(i as int))),
        decreases tickers@.len() - i,
    {
        let ghost before = tickers@.take(i as int);
        let ghost after = tickers@.take(i as int + 1);
        proof {
            assert(ticker_texts(after).drop_last() =~= ticker_texts(before));
            assert(ticker_texts(after).last() == tickers@[i as int]@);
        }
        match cache.get(tickers[i].as_str()) {
            Some(q) => {
                let ts = q.ts;
                r = match r {
                    None => Some(ts),
                    Some(o) => Some(
                        if ts < o {
                            ts
                        } else {
                            o
                        },
                    ),
                };
            },
            None => {},
        }
        i += 1;
    }
    assert(tickers@.take(i as int) =~= tickers@);
    r
}

/// How old the prices are at `now` and whether that is stale, given the oldest fetch time.
pub fn quotes_age(oldest: Option<i64>, now: i64) -> (r: (Option<i64>, bool))
    requires
        oldest matches Some(t) ==> i64::MIN <= now - t <= i64::MAX,
    ensures
        match oldest {
            Some(t) => r.0 == Some((now - t) as i64) && r.1 == (now - t > STALE_AFTER),
            None => r.0 is None && !r.1,
        },
{
    match oldest {
        Some(t) => {
            let age = now - t;
            (Some(age), age > STALE_AFTER)
        },
        None => (None, false),
    }
}

/// The headers every reply carries. The token is the guard, not the origin, so the allowed
/// origin is a wildcard.
pub open spec fn reply_headers_of(content_type: Seq<char>) -> Seq<(Seq<char>, Seq<char>)> {
    seq![
        ("Content-Type"@, content_type),
        ("Access-Control-Allow-Origin"@, "*"@),
        ("Access-Control-Allow-Headers"@, "X-Meridian-Token, Content-Type"@),
        ("Access-Control-Allow-Methods"@, "GET, POST, PATCH, DELETE, OPTIONS"@),
        ("Cache-Control"@, "no-store"@),
    ]
}

pub open spec fn header_texts(v: Seq<(String, String)>) -> Seq<(Seq<char>, Seq<char>)> {
    v.map_values(|h: (String, String)| (h.0@, h.1@))
}

pub fn reply_headers(content_type: &str) -> (r: Vec<(String, String)>)
    ensures
        header_texts(r@) == reply_headers_of(content_type@),
{
    let r = vec![
        (String::from_str("Content-Type"), String::from_str(content_type)),
        (String::from_str("Access-Control-Allow-Origin"), String::from_str("*")),
        (
            String::from_str("Access-Control-Allow-Headers"),
            String::from_str("X-Meridian-Token, Content-Type"),
        ),
        (
            String::from_str("Access-Control-Allow-Methods"),
            String::from_str("GET, POST, PATCH, DELETE, OPTIONS"),
        ),
        (String::from_str("Cache-Control"), String::from_str("no-store")),
    ];
    assert(header_texts(r@) =~= reply_headers_of(content_type@));
    r
}

} // verus!
