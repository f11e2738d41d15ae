//! Release checks for the app binary: version keys, the newest release tag, whether to offer it,
//! which asset this machine downloads, and the checksum gate a download has to pass.
//!
//! Plain numeric tags only: "v1.2.3" or "1.2.3", no pre-release parsing.

use vstd::prelude::*;

use crate::ids::{hex_lower, hex_of, lemma_hex_len};
use crate::import::{is_digit, texts};
use crate::text::{
    ascii_lower, ascii_lower_chars, chars_eq, chars_of, find_char, slice_chars, split_chars, split_on,
    split_whitespace_chars, string_of, words,
};

verus! {

/// The GitHub repository releases are published in.
pub const REPO: &'static str = "MartinRovang/meridian";

// ---------------------------------------------------------------------------------------------
// Version keys.

/// The value of a run of ASCII digits, read in base ten.
pub open spec fn digits_value(s: Seq<char>) -> nat
    decreases s.len(),
{
    if s.len() == 0 {
        0
    } else {
        digits_value(s.drop_last()) * 10 + ((s.last() as nat) - 48) as nat
    }
}

pub open spec fn all_digits(s: Seq<char>) -> bool {
    forall|i: int| 0 <= i < s.len() ==> is_digit(#[trigger] s[i])
}

/// What `str::parse::<u64>` makes of a text: an optional `+`, then one or more ASCII digits
/// whose value fits in 64 bits.
pub open spec fn u64_of(s: Seq<char>) -> Option<u64> {
    let d = if s.len() > 0 && s[0] == '+' {
        s.drop_first()
    } else {
        s
    };
    if d.len() > 0 && all_digits(d) && digits_value(d) <= u64::MAX {
        Some(digits_value(d) as u64)
    } else {
        None
    }
}

proof fn lemma_digits_value_grows(s: Seq<char>, k: int)
    requires
        0 <= k <= s.len(),
        all_digits(s),
    ensures
        digits_value(s.take(k)) <= digits_value(s),
    decreases s.len(),
{
    if k < s.len() {
        let t = s.drop_last();
        assert(t.take(k) =~= s.take(k));
        assert(all_digits(t)) by {
            assert forall|i: int| 0 <= i < t.len() implies is_digit(#[trigger] t[i]) by {
                assert(t[i] == s[i]);
            }
        }
        lemma_digits_value_grows(t, k);
        assert(is_digit(s[s.len() - 1]));
    } else {
        assert(s.take(k) =~= s);
    }
}

/// `str::parse::<u64>` on a character vector.
pub fn parse_u64(s: &[char]) -> (r: Option<u64>)
    ensures
        r == u64_of(s@),
{
    let n = s.len();
    let start: usize = if n > 0 && s[0] == '+' {
        1
    } else {
        0
    };
    let ghost d = if s@.len() > 0 && s@[0] == '+' {
        s@.drop_first()
    } else {
        s@
    };
    assert(d =~= s@.skip(start as int));
    if start >= n {
        return None;
    }
    let mut i: usize = start;
    while i < n
        invariant
            start <= i <= n,
            n == s@.len(),
            d == s@.skip(start as int),
            d == (if s@.len() > 0 && s@[0] == '+' {
                s@.drop_first()
            } else {
                s@
            }),
            forall|j: int| start <= j < i ==> is_digit(#[trigger] s@[j]),
        decreases n - i,
    {
        if !('0' <= s[i] && s[i] <= '9') {
            assert(d[i - start] == s@[i as int]);
            assert(!is_digit(d[i - start]));
            assert(!all_digits(d));
            return None;
        }
        i += 1;
    }
    assert(all_digits(d)) by {
        assert forall|j: int| 0 <= j < d.len() implies is_digit(#[trigger] d[j]) by {
            assert(d[j] == s@[j + start]);
        }
    }
    let mut acc: u64 = 0;
    let mut k: usize = start;
    while k < n
        invariant
            start <= k <= n,
            n == s@.len(),
            d == s@.skip(start as int),
            d == (if s@.len() > 0 && s@[0] == '+' {
                s@.drop_first()
            } else {
                s@
            }),
            all_digits(d),
            acc as nat == digits_value(d.take(k - start)),
        decreases n - k,
    {
        let ghost pre = d.take(k - start);
        let ghost next = d.take(k - start + 1);
        proof {
            assert(next.drop_last() =~= pre);
            assert(next.last() == s@[k as int]);
            assert(is_digit(d[k - start]));
        }
        let digit = (s[k] as u32 - 48) as u64;
        assert(digits_value(next) == acc * 10 + digit);
        match acc.checked_mul(10) {
            Some(t) => match t.checked_add(digit) {
                Some(v) => {
                    acc = v;
                },
                None => {
                    proof {
                        lemma_digits_value_grows(d, k - start + 1);
                    }
                    return None;
                },
            },
            None => {
                proof {
                    lemma_digits_value_grows(d, k - start + 1);
                }
                return None;
            },
        }
        k += 1;
    }
    assert(d.take(n - start) =~= d);
    Some(acc)
}

/// `s` without its leading `v`s, as `trim_start_matches('v')` leaves it.
pub open spec fn strip_v(s: Seq<char>) -> Seq<char>
    decreases s.len(),
{
    if s.len() > 0 && s[0] == 'v' {
        strip_v(s.drop_first())
    } else {
        s
    }
}

/// The numeric value of the `i`th dotted piece, 0 when it is missing or not a number.
pub open spec fn piece_value(pieces: Seq<Seq<char>>, i: int) -> u64 {
    if 0 <= i < pieces.len() {
        match u64_of(pieces[i]) {
            Some(v) => v,
            None => 0,
        }
    } else {
        0
    }
}

/// (major, minor, patch) of a version text such as "v1.2.3" or "1.2.3".
#[verifier::opaque]
pub open spec fn version_key(v: Seq<char>) -> (u64, u64, u64) {
    let p = split_on(strip_v(v), '.');
    (piece_value(p, 0), piece_value(p, 1), piece_value(p, 2))
}

/// Tuple order on version keys: major first, then minor, then patch.
pub open spec fn key_less(a: (u64, u64, u64), b: (u64, u64, u64)) -> bool {
    a.0 < b.0 || (a.0 == b.0 && (a.1 < b.1 || (a.1 == b.1 && a.2 < b.2)))
}

proof fn lemma_find_past(x: Seq<char>, rest: Seq<char>, c: char)
    requires
        forall|i: int| 0 <= i < x.len() ==> x[i] != c,
    ensures
        find_char(x + rest, c) == x.len() + find_char(rest, c),
    decreases x.len(),
{
    if x.len() == 0 {
        assert(x + rest =~= rest);
    } else {
        assert((x + rest)[0] == x[0]);
        assert((x + rest).drop_first() =~= x.drop_first() + rest);
        lemma_find_past(x.drop_first(), rest, c);
    }
}

proof fn lemma_split_digits(x: Seq<char>, rest: Seq<char>)
    requires
        all_digits(x),
    ensures
        split_on(x + seq!['.'] + rest, '.') == seq![x] + split_on(rest, '.'),
        split_on(x, '.') == seq![x],
{
    let s = x + seq!['.'] + rest;
    assert(s =~= x + (seq!['.'] + rest));
    assert forall|i: int| 0 <= i < x.len() implies x[i] != '.' by {
        assert(is_digit(x[i]));
    }
    lemma_find_past(x, seq!['.'] + rest, '.');
    assert((seq!['.'] + rest)[0] == '.');
    assert(s.take(x.len() as int) =~= x);
    assert(s.skip(x.len() + 1 as int) =~= rest);
    lemma_find_past(x, Seq::<char>::empty(), '.');
    assert(x + Seq::<char>::empty() =~= x);
}

proof fn lemma_number_piece(x: Seq<char>)
    requires
        x.len() > 0,
        all_digits(x),
        digits_value(x) <= u64::MAX,
    ensures
        u64_of(x) == Some(digits_value(x) as u64),
{
    assert(is_digit(x[0]));
}

/// A version text `x.y.z` of three runs of digits, with or without a leading `v`, is keyed by
/// the values of its three numbers in that order: major, minor, patch.
pub proof fn law_a_version_key_reads_major_minor_patch(x: Seq<char>, y: Seq<char>, z: Seq<char>)
    requires
        x.len() > 0 && y.len() > 0 && z.len() > 0,
        all_digits(x) && all_digits(y) && all_digits(z),
        digits_value(x) <= u64::MAX && digits_value(y) <= u64::MAX && digits_value(z) <= u64::MAX,
    ensures
        version_key(x + seq!['.'] + y + seq!['.'] + z) == (
            digits_value(x) as u64,
            digits_value(y) as u64,
            digits_value(z) as u64,
        ),
        version_key(seq!['v'] + x + seq!['.'] + y + seq!['.'] + z) == (
            digits_value(x) as u64,
            digits_value(y) as u64,
            digits_value(z) as u64,
        ),
{
    reveal(version_key);
    let s = x + seq!['.'] + y + seq!['.'] + z;
    let tail = y + seq!['.'] + z;
    assert(s =~= x + seq!['.'] + tail);
    lemma_split_digits(x, tail);
    lemma_split_digits(y, z);
    lemma_split_digits(z, Seq::<char>::empty());
    let p = split_on(s, '.');
    assert(p =~= seq![x, y, z]);
    assert(is_digit(x[0]));
    assert(strip_v(s) == s);
    let vs = seq!['v'] + s;
    assert(vs =~= seq!['v'] + x + seq!['.'] + y + seq!['.'] + z);
    assert(vs.drop_first() =~= s);
    assert(strip_v(vs) == strip_v(s));
    lemma_number_piece(x);
    lemma_number_piece(y);
    lemma_number_piece(z);
}

/// Versions are ordered major first, then minor, then patch: a larger major is newer whatever
/// follows, a larger minor is newer under the same major, and a larger patch is newer under the
/// same major and minor. The order is strict and total: of two different keys exactly one is
/// before the other, and no key is before itself.
pub proof fn law_versions_order_by_major_then_minor_then_patch(
    a: (u64, u64, u64),
    b: (u64, u64, u64),
)
    ensures
        a.0 < b.0 ==> key_less(a, b),
        a.0 == b.0 && a.1 < b.1 ==> key_less(a, b),
        a.0 == b.0 && a.1 == b.1 && a.2 < b.2 ==> key_less(a, b),
        !key_less(a, a),
        key_less(a, b) ==> !key_less(b, a),
        a != b ==> key_less(a, b) || key_less(b, a),
{
}

fn piece_at(pieces: &Vec<Vec<char>>, i: usize) -> (r: u64)
    ensures
        r == piece_value(pieces@.map_values(|w: Vec<char>| w@), i as int),
{
    if i < pieces.len() {
        let ghost ps = pieces@.map_values(|w: Vec<char>| w@);
        assert(ps[i as int] == pieces@[i as int]@);
        match parse_u64(pieces[i].as_slice()) {
            Some(v) => v,
            None => 0,
        }
    } else {
        0
    }
}

/// (major, minor, patch) from "v1.2.3" or "1.2.3"; a missing or non-numeric part counts as 0.
pub fn vkey(v: &str) -> (r: (u64, u64, u64))
    ensures
        r == version_key(v@),
{
    let c = chars_of(v);
    let mut a: usize = 0;
    assert(c@.skip(0) =~= c@);
    while a < c.len() && c[a] == 'v'
        invariant
            a <= c@.len(),
            strip_v(c@.skip(a as int)) == strip_v(v@),
            c@ == v@,
        decreases c@.len() - a,
    {
        assert(c@.skip(a as int).drop_first() =~= c@.skip(a as int + 1));
        a += 1;
    }
    let rest = slice_chars(&c, a, c.len());
    proof {
        assert(rest@ =~= c@.skip(a as int));
        if rest@.len() > 0 {
            assert(rest@[0] == c@[a as int]);
        }
        assert(strip_v(rest@) == rest@);
    }
    let pieces = split_chars(&rest, '.');
    proof {
        reveal(version_key);
    }
    (piece_at(&pieces, 0), piece_at(&pieces, 1), piece_at(&pieces, 2))
}

/// Whether key `a` orders strictly before key `b`.
pub fn key_before(a: (u64, u64, u64), b: (u64, u64, u64)) -> (r: bool)
    ensures
        r == key_less(a, b),
{
    a.0 < b.0 || (a.0 == b.0 && (a.1 < b.1 || (a.1 == b.1 && a.2 < b.2)))
}

// ---------------------------------------------------------------------------------------------
// The newest tag.

/// What counts as a release tag in `git ls-remote --tags` output: a line ending in
/// `refs/tags/v` and dot-separated numbers. Release candidates (`-rc`) and peeled refs (`^{}`)
/// do not match. The first group is the version without its `v`.
pub const TAG_PATTERN: &'static str = r"(?m)refs/tags/v(\d+(?:\.\d+)*)$";

/// For each match of the regular expression `pattern` over `text`, in order, what its first
/// group captured (`None` where that group took no part in the match); `None` as a whole when
/// `pattern` is not a valid expression.
pub uninterp spec fn regex_captures(pattern: Seq<char>, text: Seq<char>) -> Option<
    Seq<Option<Seq<char>>>,
>;

pub open spec fn group_texts(v: Seq<Option<String>>) -> Seq<Option<Seq<char>>> {
    v.map_values(|g: Option<String>| match g {
        Some(t) => Some(t@),
        None => None,
    })
}

/// `regex::Regex::new(pattern)`, then `captures_iter(text)`, keeping group 1 of each match.
/// What the regex engine matches is named, not restated.
#[verifier::external_body]
fn group_captures(pattern: &str, text: &str) -> (r: Option<Vec<Option<String>>>)
    ensures
        match r {
            Some(v) => regex_captures(pattern@, text@) == Some(group_texts(v@)),
            None => regex_captures(pattern@, text@) is None,
        },
{
    let re = regex::Regex::new(pattern).ok()?;
    Some(re.captures_iter(text).map(|c| c.get(1).map(|m| m.as_str().to_string())).collect())
}

/// The captured texts, in order, leaving out the matches where the group took no part.
pub open spec fn captured(gs: Seq<Option<Seq<char>>>) -> Seq<Seq<char>>
    decreases gs.len(),
{
    if gs.len() == 0 {
        Seq::empty()
    } else {
        match gs.last() {
            Some(t) => captured(gs.drop_last()).push(t),
            None => captured(gs.drop_last()),
        }
    }
}

/// Every release tag in `git ls-remote --tags` output, in the order listed, without its `v`.
pub open spec fn release_tags_of(ls_remote: Seq<char>) -> Seq<Seq<char>> {
    match regex_captures(TAG_PATTERN@, ls_remote) {
        Some(gs) => captured(gs),
        None => Seq::empty(),
    }
}

/// Every release tag in `git ls-remote --tags` output, by `TAG_PATTERN`, in the order listed.
fn release_tags(ls_remote: &str) -> (r: Vec<String>)
    ensures
        texts(r@) == release_tags_of(ls_remote@),
{
    let mut out: Vec<String> = Vec::new();
    match group_captures(TAG_PATTERN, ls_remote) {
        None => {
            assert(texts(out@) =~= Seq::<Seq<char>>::empty());
        },
        Some(gs) => {
            let ghost all = group_texts(gs@);
            let mut i: usize = 0;
            assert(texts(out@) =~= captured(all.take(0)));
            while i < gs.len()
                invariant
                    i <= gs@.len(),
                    all == group_texts(gs@),
                    texts(out@) == captured(all.take(i as int)),
                decreases gs@.len() - i,
            {
                proof {
                    assert(all.take(i as int + 1).drop_last() =~= all.take(i as int));
                    assert(all.take(i as int + 1).last() == all[i as int]);
                }
                match &gs[i] {
                    Some(t) => {
                        let ghost before = out@;
                        out.push(t.clone());
                        assert(texts(out@) =~= texts(before).push(t@));
                    },
                    None => {},
                }
                i += 1;
            }
            assert(all.take(i as int) =~= all);
        },
    }
    out
}

/// The tag with the highest key; among equal keys the last one listed, as `max_by_key` picks.
pub open spec fn newest_among(tags: Seq<Seq<char>>) -> Option<Seq<char>>
    decreases tags.len(),
{
    if tags.len() == 0 {
        None
    } else {
        let t = tags.last();
        match newest_among(tags.drop_last()) {
            None => Some(t),
            Some(best) => if key_less(version_key(t), version_key(best)) {
                Some(best)
            } else {
                Some(t)
            },
        }
    }
}

/// The newest tag is one of the tags, and no tag has a higher key.
proof fn lemma_key_order(a: (u64, u64, u64), b: (u64, u64, u64), c: (u64, u64, u64))
    ensures
        key_less(a, b) ==> !key_less(b, a),
        !key_less(a, b) && !key_less(b, c) ==> !key_less(a, c),
        !key_less(a, a),
{
}

pub proof fn lemma_newest_is_greatest(tags: Seq<Seq<char>>)
    ensures
        tags.len() == 0 <==> newest_among(tags) is None,
        newest_among(tags) matches Some(best) ==> {
            &&& tags.contains(best)
            &&& forall|i: int|
                0 <= i < tags.len() ==> !key_less(version_key(best), version_key(#[trigger] tags[i]))
        },
    decreases tags.len(),
{
    if tags.len() > 0 {
        let init = tags.drop_last();
        let t = tags.last();
        lemma_newest_is_greatest(init);
        let best = newest_among(tags).unwrap();
        let kt = version_key(t);
        let kb = version_key(best);
        lemma_key_order(kt, kb, kt);
        match newest_among(init) {
            None => {
                assert(best == t);
                assert(tags[0] == t);
            },
            Some(b) => {
                let k0 = version_key(b);
                assert forall|i: int| 0 <= i < tags.len() implies !key_less(
                    kb,
                    version_key(#[trigger] tags[i]),
                ) by {
                    if i < tags.len() - 1 {
                        assert(tags[i] == init[i]);
                        lemma_key_order(kb, k0, version_key(init[i]));
                    } else {
                        assert(tags[i] == t);
                        lemma_key_order(k0, kt, k0);
                    }
                }
                if best == t {
                    assert(tags[tags.len() - 1] == best);
                } else {
                    let j = choose|j: int| 0 <= j < init.len() && init[j] == best;
                    assert(tags[j] == best);
                }
            },
        }
    }
}

/// The text of the newest tag, or "" when there is none.
pub open spec fn newest_text(tags: Seq<Seq<char>>) -> Seq<char> {
    match newest_among(tags) {
        Some(t) => t,
        None => Seq::<char>::empty(),
    }
}

/// The tag with the highest version key, the last of equals, or "" for no tags.
pub fn newest_of(tags: &[String]) -> (r: String)
    ensures
        r@ == newest_text(texts(tags@)),
        tags@.len() > 0 ==> texts(tags@).contains(r@),
        forall|i: int|
            0 <= i < tags@.len() ==> !key_less(version_key(r@), version_key(#[trigger] tags@[i]@)),
{
    let mut best: Option<usize> = None;
    let mut best_key: (u64, u64, u64) = (0, 0, 0);
    let mut i: usize = 0;
    while i < tags.len()
        invariant
            i <= tags@.len(),
            match best {
                Some(b) => b < i && newest_among(texts(tags@.take(i as int))) == Some(tags@[b as int]@)
                    && best_key == version_key(tags@[b as int]@),
                None => i == 0,
            },
        decreases tags@.len() - i,
    {
        let ghost pre = texts(tags@.take(i as int));
        let ghost next = texts(tags@.take(i as int + 1));
        proof {
            assert(next.drop_last() =~= pre);
            assert(next.last() == tags@[i as int]@);
        }
        let k = vkey(tags[i].as_str());
        match best {
            None => {
                best = Some(i);
                best_key = k;
            },
            Some(b) => {
                if !key_before(k, best_key) {
                    best = Some(i);
                    best_key = k;
                }
            },
        }
        i += 1;
    }
    assert(tags@.take(i as int) =~= tags@);
    proof {
        lemma_newest_is_greatest(texts(tags@));
        assert forall|j: int| 0 <= j < tags@.len() implies !key_less(
            version_key(newest_text(texts(tags@))),
            version_key(#[trigger] tags@[j]@),
        ) by {
            assert(texts(tags@)[j] == tags@[j]@);
        }
    }
    match best {
        Some(b) => tags[b].clone(),
        None => String::new(),
    }
}

/// The newest numeric tag in `git ls-remote --tags` output, or "".
pub fn newest_tag(ls_remote: &str) -> (r: String)
    ensures
        r@ == newest_text(release_tags_of(ls_remote@)),
{
    let tags = release_tags(ls_remote);
    newest_of(&tags)
}

// ---------------------------------------------------------------------------------------------
// Whether to offer it.

/// `tag` when it is a newer version than `current`, else "".
pub open spec fn newer_text(tag: Seq<char>, current: Seq<char>) -> Seq<char> {
    if tag.len() > 0 && key_less(version_key(current), version_key(tag)) {
        tag
    } else {
        Seq::<char>::empty()
    }
}

pub fn newer(tag: &str, current: &str) -> (r: String)
    ensures
        r@ == newer_text(tag@, current@),
{
    if tag.unicode_len() > 0 && key_before(vkey(current), vkey(tag)) {
        String::from_str(tag)
    } else {
        String::new()
    }
}

/// A tag is offered exactly when it is a later version than the running one: a larger major, or
/// the same major and a larger minor, or the same major and minor and a larger patch. Otherwise
/// nothing is offered.
pub proof fn law_a_later_version_is_offered(tag: Seq<char>, current: Seq<char>)
    ensures
        ({
            let (t, c) = (version_key(tag), version_key(current));
            let later = t.0 > c.0 || (t.0 == c.0 && t.1 > c.1) || (t.0 == c.0 && t.1 == c.1 && t.2
                > c.2);
            &&& (tag.len() > 0 && later) ==> newer_text(tag, current) == tag
            &&& !(tag.len() > 0 && later) ==> newer_text(tag, current).len() == 0
        }),
{
    law_versions_order_by_major_then_minor_then_patch(version_key(current), version_key(tag));
}

/// The newest of a list of tags is one of them, and no tag in the list is a later version by
/// major, minor and patch.
pub proof fn law_the_newest_tag_is_the_latest_version(tags: Seq<Seq<char>>)
    ensures
        tags.len() > 0 ==> tags.contains(newest_text(tags)),
        forall|i: int|
            0 <= i < tags.len() ==> {
                let (t, n) = (version_key(#[trigger] tags[i]), version_key(newest_text(tags)));
                !(t.0 > n.0 || (t.0 == n.0 && t.1 > n.1) || (t.0 == n.0 && t.1 == n.1 && t.2 > n.2))
            },
{
    lemma_newest_is_greatest(tags);
    assert forall|i: int| 0 <= i < tags.len() implies {
        let (t, n) = (version_key(#[trigger] tags[i]), version_key(newest_text(tags)));
        !(t.0 > n.0 || (t.0 == n.0 && t.1 > n.1) || (t.0 == n.0 && t.1 == n.1 && t.2 > n.2))
    } by {
        law_versions_order_by_major_then_minor_then_patch(
            version_key(newest_text(tags)),
            version_key(tags[i]),
        );
    }
}

/// `tag`, once `ready` says its asset is there. "" for no tag, and then `ready` is never asked,
/// so a normal check makes no request.
pub fn offer<F: FnOnce(&str) -> bool>(tag: &str, ready: F) -> (r: String)
    requires
        tag@.len() > 0 ==> call_requires(ready, (tag,)),
    ensures
        tag@.len() == 0 ==> r@.len() == 0,
        tag@.len() > 0 ==> (r@ == tag@ && call_ensures(ready, (tag,), true)) || (r@.len() == 0
            && call_ensures(ready, (tag,), false)),
{
    if tag.unicode_len() == 0 {
        return String::new();
    }
    if !ready(tag) {
        return String::new();
    }
    String::from_str(tag)
}

/// The released version newer than `current` that this machine can actually download, or "".
/// `latest` is the newest tag on the release remote ("" when there is none or it could not be
/// read); `ready` says whether the asset for a version can be fetched. A tag is not a release:
/// for the minutes the binaries take to upload, and for good if a build fails, there is a tag
/// with nothing to download behind it. `ready` is asked about the newer tag and nothing else, so
/// a check that finds nothing new makes no request: its `requires` admits no other call.
pub fn update_available<F: FnOnce(&str) -> bool>(latest: &str, current: &str, ready: F) -> (r:
    String)
    requires
        forall|t: &str|
            t@ == newer_text(latest@, current@) && t@.len() > 0 ==> call_requires(ready, (t,)),
    ensures
        newer_text(latest@, current@).len() == 0 ==> r@.len() == 0,
        newer_text(latest@, current@).len() > 0 ==> (r@ == latest@ && exists|t: &str|
            t@ == latest@ && call_ensures(ready, (t,), true)) || (r@.len() == 0 && exists|t: &str|
            t@ == latest@ && call_ensures(ready, (t,), false)),
{
    let n = newer(latest, current);
    let t = n.as_str();
    let r = offer(t, ready);
    assert(t@ == n@);
    r
}

// ---------------------------------------------------------------------------------------------
// Which asset, from where.

/// The release asset name for an operating system and architecture, as Rust's `std::env::consts`
/// name them.
pub open spec fn asset_name_of(os: Seq<char>, arch: Seq<char>) -> Seq<char> {
    let a = if arch == "aarch64"@ {
        "arm64"@
    } else {
        arch
    };
    if os == "macos"@ {
        "meridian-macos-"@ + a
    } else if os == "windows"@ {
        "meridian-windows-"@ + a + ".exe"@
    } else {
        "meridian-"@ + os + "-"@ + a
    }
}

pub fn asset_for(os: &str, arch: &str) -> (r: String)
    ensures
        r@ == asset_name_of(os@, arch@),
{
    let arch_c = chars_of(arch);
    let os_c = chars_of(os);
    let a: &str = if chars_eq(&arch_c, &chars_of("aarch64")) {
        "arm64"
    } else {
        arch
    };
    if chars_eq(&os_c, &chars_of("macos")) {
        let mut r = String::from_str("meridian-macos-");
        r.append(a);
        r
    } else if chars_eq(&os_c, &chars_of("windows")) {
        let mut r = String::from_str("meridian-windows-");
        r.append(a);
        r.append(".exe");
        r
    } else {
        let mut r = String::from_str("meridian-");
        r.append(os);
        r.append("-");
        r.append(a);
        r
    }
}

/// Where a release asset is downloaded from.
pub open spec fn asset_url_of(version: Seq<char>, asset: Seq<char>) -> Seq<char> {
    "https://github.com/"@ + REPO@ + "/releases/download/v"@ + version + "/"@ + asset
}

pub fn asset_url(version: &str, asset: &str) -> (r: String)
    ensures
        r@ == asset_url_of(version@, asset@),
{
    let mut r = String::from_str("https://github.com/");
    r.append(REPO);
    r.append("/releases/download/v");
    r.append(version);
    r.append("/");
    r.append(asset);
    r
}

/// Where the published checksum of a release asset is.
pub fn checksum_url(version: &str, asset: &str) -> (r: String)
    ensures
        r@ == asset_url_of(version@, asset@) + ".sha256"@,
{
    let mut r = asset_url(version, asset);
    r.append(".sha256");
    r
}

/// The remote whose tags are the releases; `git ls-remote` needs no auth and has no rate limit.
pub fn release_remote() -> (r: String)
    ensures
        r@ == "https://github.com/"@ + REPO@ + ".git"@,
{
    let mut r = String::from_str("https://github.com/");
    r.append(REPO);
    r.append(".git");
    r
}

// ---------------------------------------------------------------------------------------------
// The checksum gate.

/// The SHA-256 digest of a byte sequence.
pub uninterp spec fn sha256_of(bytes: Seq<u8>) -> Seq<u8>;

/// The SHA-256 digest of `bytes` (`sha2::Sha256::digest`): 32 bytes, named rather than restated.
#[verifier::external_body]
fn sha256(bytes: &[u8]) -> (r: Vec<u8>)
    ensures
        r@ == sha256_of(bytes@),
        r@.len() == 32,
{
    <sha2::Sha256 as sha2::Digest>::digest(bytes).to_vec()
}

pub open spec fn is_hex_char(c: char) -> bool {
    ('0' <= c && c <= '9') || ('a' <= c && c <= 'f') || ('A' <= c && c <= 'F')
}

/// The digest a `sha256sum` line names: its first word, in ASCII lowercase ("" for none).
pub open spec fn published_digest(sums: Seq<char>) -> Seq<char> {
    let w = words(sums);
    ascii_lower(
        if w.len() > 0 {
            w[0]
        } else {
            Seq::<char>::empty()
        },
    )
}

/// Whether a published digest is one: 64 hexadecimal digits.
pub open spec fn digest_ok(d: Seq<char>) -> bool {
    d.len() == 64 && forall|i: int| 0 <= i < d.len() ==> is_hex_char(#[trigger] d[i])
}

/// The verdict on a download: `Ok` when its digest is the published one.
pub open spec fn verdict(bytes: Seq<u8>, sums: Seq<char>) -> Result<(), Seq<char>> {
    digest_verdict(sha256_of(bytes), sums)
}

/// The verdict on a download whose SHA-256 digest is `digest`.
pub open spec fn digest_verdict(digest: Seq<u8>, sums: Seq<char>) -> Result<(), Seq<char>> {
    let want = published_digest(sums);
    let got = hex_of(digest);
    if !digest_ok(want) {
        Err("no checksum published"@)
    } else if got != want {
        Err("checksum mismatch: "@ + got.take(12))
    } else {
        Ok(())
    }
}

/// Ok when `bytes` hash to the digest `sums` names. `sums` is one `sha256sum` line:
/// "<hex>  <name>". This is a tamper check on the download, not a signature.
pub fn verify(bytes: &[u8], sums: &str) -> (r: Result<(), String>)
    ensures
        match verdict(bytes@, sums@) {
            Ok(()) => r is Ok,
            Err(m) => r matches Err(e) && e@ == m,
        },
{
    let digest = sha256(bytes);
    check_digest(&digest, sums)
}

/// Ok when a download's SHA-256 `digest` is the one `sums` names: the published digest must be
/// 64 hexadecimal digits, read without regard to case, and equal to the digest written in
/// lowercase hexadecimal.
pub fn check_digest(digest: &[u8], sums: &str) -> (r: Result<(), String>)
    requires
        digest@.len() == 32,
    ensures
        match digest_verdict(digest@, sums@) {
            Ok(()) => r is Ok,
            Err(m) => r matches Err(e) && e@ == m,
        },
{
    let ws = split_whitespace_chars(&chars_of(sums));
    let first: Vec<char> = if ws.len() > 0 {
        proof {
            assert(ws@.map_values(|w: Vec<char>| w@)[0] == ws@[0]@);
        }
        ws[0].clone()
    } else {
        Vec::new()
    };
    let want = ascii_lower_chars(&first);
    assert(want@ == published_digest(sums@));
    let mut ok = want.len() == 64;
    let mut i: usize = 0;
    while ok && i < want.len()
        invariant
            i <= want@.len(),
            ok ==> want@.len() == 64,
            ok ==> forall|j: int| 0 <= j < i ==> is_hex_char(#[trigger] want@[j]),
            !ok ==> !digest_ok(want@),
        decreases want@.len() - i,
    {
        let c = want[i];
        if !(('0' <= c && c <= '9') || ('a' <= c && c <= 'f') || ('A' <= c && c <= 'F')) {
            assert(!is_hex_char(want@[i as int]));
            ok = false;
        }
        i += 1;
    }
    if !ok {
        return Err(String::from_str("no checksum published"));
    }
    assert(digest_ok(want@));
    let got = hex_lower(digest);
    let got_c = chars_of(got.as_str());
    proof {
        lemma_hex_len(digest@);
    }
    if !chars_eq(&got_c, &want) {
        let mut e = String::from_str("checksum mismatch: ");
        let head = string_of(&slice_chars(&got_c, 0, 12));
        e.append(head.as_str());
        return Err(e);
    }
    Ok(())
}

// ---------------------------------------------------------------------------------------------
// After an install.

/// The first `n` characters of `s`, or all of it when it is shorter.
pub open spec fn first_chars(s: Seq<char>, n: nat) -> Seq<char> {
    if s.len() <= n {
        s
    } else {
        s.take(n as int)
    }
}

/// What an update attempt reports: installing and re-executing only comes back on failure, and
/// then with the error cut to sixty characters for the status line.
pub fn apply_update(outcome: Result<String, String>) -> (r: String)
    ensures
        match outcome {
            Ok(s) => r@ == s@,
            Err(e) => r@ == first_chars(e@, 60),
        },
{
    match outcome {
        Ok(s) => s,
        Err(e) => {
            let c = chars_of(e.as_str());
            if c.len() <= 60 {
                e
            } else {
                string_of(&slice_chars(&c, 0, 60))
            }
        },
    }
}

/// What installing a downloaded release does next: refuse with this reason, fetch the published
/// checksum, or write the download over the executable.
#[derive(Debug)]
pub enum InstallStep {
    Refuse(String),
    FetchChecksum,
    Write,
}

pub open spec fn opt_view(s: Option<&str>) -> Option<Seq<char>> {
    match s {
        Some(t) => Some(t@),
        None => None,
    }
}

/// Whether a download may be written over the executable: it is not empty, its checksum file
/// has been fetched, and the checksum matches.
pub open spec fn may_write(bytes: Seq<u8>, sums: Option<Seq<char>>) -> bool {
    &&& bytes.len() > 0
    &&& match sums {
        Some(s) => verdict(bytes, s) is Ok,
        None => false,
    }
}

/// The next step of an install, given the downloaded `bytes` and the published checksum file
/// once it has been fetched. An empty download is refused before anything else is asked for;
/// nothing is written until the checksum matches, and a mismatch is refused with its reason.
pub fn install_step(bytes: &[u8], sums: Option<&str>) -> (r: InstallStep)
    ensures
        r is Write <==> may_write(bytes@, opt_view(sums)),
        bytes@.len() == 0 ==> (r matches InstallStep::Refuse(m) && m@ == "empty download"@),
        bytes@.len() > 0 && sums is None ==> r is FetchChecksum,
        bytes@.len() > 0 ==> (sums matches Some(s) ==> match verdict(bytes@, s@) {
            Ok(()) => r is Write,
            Err(m) => r matches InstallStep::Refuse(e) && e@ == m,
        }),
{
    if bytes.len() == 0 {
        return InstallStep::Refuse(String::from_str("empty download"));
    }
    match sums {
        None => InstallStep::FetchChecksum,
        Some(s) => match verify(bytes, s) {
            Ok(()) => InstallStep::Write,
            Err(e) => InstallStep::Refuse(e),
        },
    }
}

} // verus!
