//! What the desktop window is opened with: the API base and token it talks to, handed to the page
//! in its launch query rather than a config file, so local and remote modes differ by nothing
//! but these two values.

use vstd::prelude::*;

use crate::text::{
    chars_of, decimal, push_decimal, slice_chars, string_of, url_encode, url_encoded,
};

verus! {

/// The launch query: `api=<base>&token=<token>`, each value percent-encoded.
pub open spec fn launch_query_of(api_base: Seq<char>, token: Seq<char>) -> Seq<char> {
    "api="@ + url_encoded(api_base) + "&token="@ + url_encoded(token)
}

pub fn launch_query(api_base: &str, token: &str) -> (r: String)
    ensures
        r@ == launch_query_of(api_base@, token@),
{
    let mut q = String::from_str("api=");
    let a = url_encode(api_base);
    q.append(a.as_str());
    q.append("&token=");
    let t = url_encode(token);
    q.append(t.as_str());
    q
}

/// The page the window opens: the app's index with the launch query.
pub fn launch_page(api_base: &str, token: &str) -> (r: String)
    ensures
        r@ == "index.html?"@ + launch_query_of(api_base@, token@),
{
    let mut p = String::from_str("index.html?");
    let q = launch_query(api_base, token);
    p.append(q.as_str());
    p
}

/// `s` without its trailing slashes, as `trim_end_matches('/')` leaves it.
pub open spec fn without_trailing_slashes(s: Seq<char>) -> Seq<char>
    decreases s.len(),
{
    if s.len() > 0 && s.last() == '/' {
        without_trailing_slashes(s.drop_last())
    } else {
        s
    }
}

/// The base of a hosted API as given on the command line, without trailing slashes, so that
/// paths can be appended to it.
pub fn api_base(url: &str) -> (r: String)
    ensures
        r@ == without_trailing_slashes(url@),
{
    let c = chars_of(url);
    let mut n = c.len();
    assert(c@.take(n as int) =~= c@);
    while n > 0 && c[n - 1] == '/'
        invariant
            n <= c@.len(),
            c@ == url@,
            without_trailing_slashes(c@.take(n as int)) == without_trailing_slashes(url@),
        decreases n,
    {
        assert(c@.take(n as int).drop_last() =~= c@.take(n as int - 1));
        n -= 1;
    }
    proof {
        if n > 0 {
            assert(c@.take(n as int).last() == c@[n as int - 1]);
        }
    }
    string_of(&slice_chars(&c, 0, n))
}

/// The base of the in-process API on a loopback port.
pub fn local_base(port: u16) -> (r: String)
    ensures
        r@ == "http://127.0.0.1:"@ + decimal(port as nat),
{
    let mut r = String::from_str("http://127.0.0.1:");
    push_decimal(&mut r, port as u64);
    r
}

/// The token a hosted API is opened with: the one given as a flag, else the one in the
/// environment, and none when that one is empty.
pub open spec fn token_given(flag: Option<Seq<char>>, env: Option<Seq<char>>) -> Option<Seq<char>> {
    let t = match flag {
        Some(f) => Some(f),
        None => env,
    };
    match t {
        Some(s) => if s.len() > 0 {
            Some(s)
        } else {
            None
        },
        None => None,
    }
}

pub open spec fn opt_text(o: Option<String>) -> Option<Seq<char>> {
    match o {
        Some(s) => Some(s@),
        None => None,
    }
}

pub fn given_token(flag: Option<String>, env: Option<String>) -> (r: Option<String>)
    ensures
        opt_text(r) == token_given(opt_text(flag), opt_text(env)),
{
    let t = match flag {
        Some(f) => Some(f),
        None => env,
    };
    match t {
        Some(s) => if s.unicode_len() > 0 {
            Some(s)
        } else {
            None
        },
        None => None,
    }
}

} // verus!
