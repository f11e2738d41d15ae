//! Reading a broker's positions export.
//!
//! A positions export is a header and one line per holding. What makes real files hard is not
//! the grammar but the encoding, the separator and the decimal comma: a Nordnet export is
//! UTF-16LE with a BOM, TAB separated despite its `.csv` name, with Norwegian decimal commas,
//! spaces as thousands separators, and a non-breaking space inside one header name.
//!
//! Numbers are handed back as the decimal literal they normalise to, not as binary floating
//! point: `"307 300,50"` becomes `"307300.50"`, which any float parser reads exactly as written.

use vstd::prelude::*;

use crate::quotes::Quote;
use crate::text::{
    ascii_lower, ascii_lower_chars, char_from_u32, chars_eq, chars_of, count_char, count_chars,
    is_char_value, is_whitespace, is_word, is_ws, join, join_chars, last_index_of,
    lemma_last_index_bound, lemma_trail_ws_unique, lemma_words_are_words, lemma_words_of_join,
    lines, lines_chars, lossy_utf8, lowercase_of, push_char, rfind_char, slice_chars, split_chars,
    split_on, split_whitespace_chars, string_of, strs, to_lowercase, to_uppercase, trim,
    trim_chars, trim_end, uppercase_of, utf8_lossy, utf8_text, words,
};

verus! {

/// Why a file was refused.
#[derive(Debug, PartialEq, Eq, Clone, Copy)]
pub enum ImportError {
    /// This file has no such column, so it is not a positions export. Carries the column name
    /// as the broker prints it.
    MissingColumn(&'static str),
    /// This file has a header but no positions in it.
    Empty,
}

impl ImportError {
    /// The sentence the page shows for this refusal.
    pub open spec fn message_of(&self) -> Seq<char> {
        match self {
            ImportError::MissingColumn(c) => "this file has no "@ + c@
                + " column, so it is not a positions export"@,
            ImportError::Empty => "this file has a header but no positions in it"@,
        }
    }

    pub fn message(&self) -> (r: String)
        ensures
            r@ == self.message_of(),
    {
        match self {
            ImportError::MissingColumn(c) => {
                let mut m = String::from_str("this file has no ");
                m.append(c);
                m.append(" column, so it is not a positions export");
                m
            },
            ImportError::Empty => String::from_str("this file has a header but no positions in it"),
        }
    }
}

/// One position as the broker states it. No ticker: exports name the fund, not the symbol.
#[derive(Debug, Clone, PartialEq)]
pub struct Row {
    pub name: String,
    pub currency: String,
    /// The share count, as a decimal literal.
    pub shares: String,
    /// Average cost per share in `currency` (Norwegian brokers call this GAV), as a decimal
    /// literal; `None` when the cell is blank or not a number, which counts as zero.
    pub gav: Option<String>,
}

/// A row's texts: name, currency, shares, and average cost.
pub type RowText = (Seq<char>, Seq<char>, Seq<char>, Option<Seq<char>>);

impl View for Row {
    type V = RowText;

    open spec fn view(&self) -> RowText {
        (
            self.name@,
            self.currency@,
            self.shares@,
            match self.gav {
                Some(g) => Some(g@),
                None => None,
            },
        )
    }
}

pub open spec fn row_views(v: Seq<Row>) -> Seq<RowText> {
    v.map_values(|x: Row| x@)
}

// ---------------------------------------------------------------------------------------------
// Column aliases. The first name of each list is the one an error message prints.

pub open spec fn name_aliases() -> Seq<Seq<char>> {
    seq!["navn"@, "verdipapir"@, "instrument"@, "name"@, "security"@, "ticker"@]
}

pub open spec fn currency_aliases() -> Seq<Seq<char>> {
    seq!["valuta"@, "currency"@, "ccy"@]
}

pub open spec fn share_aliases() -> Seq<Seq<char>> {
    seq!["antall"@, "beholdning"@, "quantity"@, "shares"@]
}

pub open spec fn gav_aliases() -> Seq<Seq<char>> {
    seq!["gav"@, "snittkurs"@, "gjennomsnittskurs"@, "snittpris"@, "kostpris"@]
}

fn name_list() -> (r: Vec<&'static str>)
    ensures
        strs(r@) == name_aliases(),
{
    let r = vec!["navn", "verdipapir", "instrument", "name", "security", "ticker"];
    assert(strs(r@) =~= name_aliases());
    r
}

fn currency_list() -> (r: Vec<&'static str>)
    ensures
        strs(r@) == currency_aliases(),
{
    let r = vec!["valuta", "currency", "ccy"];
    assert(strs(r@) =~= currency_aliases());
    r
}

fn share_list() -> (r: Vec<&'static str>)
    ensures
        strs(r@) == share_aliases(),
{
    let r = vec!["antall", "beholdning", "quantity", "shares"];
    assert(strs(r@) =~= share_aliases());
    r
}

fn gav_list() -> (r: Vec<&'static str>)
    ensures
        strs(r@) == gav_aliases(),
{
    let r = vec!["gav", "snittkurs", "gjennomsnittskurs", "snittpris", "kostpris"];
    assert(strs(r@) =~= gav_aliases());
    r
}

// ---------------------------------------------------------------------------------------------
// Decoding.

/// Byte pairs as UTF-16 code units, little- or big-endian; an odd last byte is ignored.
pub open spec fn utf16_units(b: Seq<u8>, le: bool) -> Seq<u16> {
    Seq::new(
        b.len() / 2,
        |i: int|
            if le {
                (b[2 * i] as int + 256 * b[2 * i + 1] as int) as u16
            } else {
                (256 * b[2 * i] as int + b[2 * i + 1] as int) as u16
            },
    )
}

/// UTF-16 decoding with every unpaired surrogate replaced by `U+FFFD`, as
/// `char::decode_utf16(..).map(|c| c.unwrap_or('\u{fffd}'))` yields it.
pub open spec fn utf16_decode(u: Seq<u16>) -> Seq<char>
    decreases u.len(),
{
    if u.len() == 0 {
        Seq::<char>::empty()
    } else if u[0] < 0xD800 || u[0] > 0xDFFF {
        seq![u[0] as u32 as char] + utf16_decode(u.drop_first())
    } else if u[0] <= 0xDBFF && u.len() >= 2 && 0xDC00 <= u[1] && u[1] <= 0xDFFF {
        seq![(0x10000 + (u[0] - 0xD800) * 0x400 + (u[1] - 0xDC00)) as u32 as char]
            + utf16_decode(u.skip(2))
    } else {
        seq!['\u{fffd}'] + utf16_decode(u.drop_first())
    }
}

/// The text of an export: UTF-16 when a byte-order mark says so, UTF-8 after a UTF-8 mark or
/// when the bytes are well-formed UTF-8, and Latin-1 otherwise.
pub open spec fn decoded(b: Seq<u8>) -> Seq<char> {
    if b.len() >= 2 && b[0] == 0xff && b[1] == 0xfe {
        utf16_decode(utf16_units(b.skip(2), true))
    } else if b.len() >= 2 && b[0] == 0xfe && b[1] == 0xff {
        utf16_decode(utf16_units(b.skip(2), false))
    } else if b.len() >= 3 && b[0] == 0xef && b[1] == 0xbb && b[2] == 0xbf {
        lossy_utf8(b.skip(3))
    } else if vstd::utf8::valid_utf8(b) {
        vstd::utf8::decode_utf8(b)
    } else {
        b.map_values(|x: u8| x as char)
    }
}

fn units_of(b: &[u8], from: usize, le: bool) -> (r: Vec<u16>)
    requires
        from <= b@.len(),
    ensures
        r@ == utf16_units(b@.skip(from as int), le),
{
    let ghost s = b@.skip(from as int);
    let count = (b.len() - from) / 2;
    let mut r: Vec<u16> = Vec::new();
    let mut i: usize = 0;
    assert(2 * count <= b@.len() - from);
    while i < count
        invariant
            count == s.len() / 2,
            2 * count <= b@.len() - from,
            from as int + 2 * count as int <= b.len() as int,
            s == b@.skip(from as int),
            from <= b@.len(),
            i <= count,
            r@ =~= utf16_units(s, le).take(i as int),
        decreases count - i,
    {
        assert(2 * i + 2 <= 2 * count);
        let p: usize = from + 2 * i;
        let x = b[p];
        let y = b[p + 1];
        assert(x == s[2 * i] && y == s[2 * i + 1]);
        let u: u16 = if le {
            x as u16 + 256 * (y as u16)
        } else {
            256 * (x as u16) + y as u16
        };
        r.push(u);
        i += 1;
    }
    r
}

fn decode_units(u: &[u16]) -> (r: Vec<char>)
    ensures
        r@ == utf16_decode(u@),
{
    let mut r: Vec<char> = Vec::new();
    let mut i: usize = 0;
    assert(u@.skip(0) =~= u@);
    while i < u.len()
        invariant
            i <= u@.len(),
            r@ + utf16_decode(u@.skip(i as int)) == utf16_decode(u@),
        decreases u@.len() - i,
    {
        let ghost rest = u@.skip(i as int);
        let a = u[i];
        let ghost before = r@;
        if a < 0xD800 || a > 0xDFFF {
            let x = a as u32;
            assert(is_char_value(x));
            match char_from_u32(x) {
                Some(c) => r.push(c),
                None => {},
            }
            assert(rest.drop_first() =~= u@.skip(i as int + 1));
            i += 1;
        } else if a <= 0xDBFF && i + 1 < u.len() && 0xDC00 <= u[i + 1] && u[i + 1] <= 0xDFFF {
            let b = u[i + 1];
            let x: u32 = 0x10000 + ((a - 0xD800) as u32) * 0x400 + ((b - 0xDC00) as u32);
            assert(is_char_value(x));
            match char_from_u32(x) {
                Some(c) => r.push(c),
                None => {},
            }
            assert(rest[1] == b);
            assert(rest.skip(2) =~= u@.skip(i as int + 2));
            i += 2;
        } else {
            r.push('\u{fffd}');
            assert(rest.drop_first() =~= u@.skip(i as int + 1));
            i += 1;
        }
        assert(r@ + utf16_decode(u@.skip(i as int)) =~= before + utf16_decode(rest));
    }
    assert(u@.skip(i as int) =~= Seq::<u16>::empty());
    assert(r@ + Seq::<char>::empty() =~= r@);
    r
}

fn latin1(b: &[u8]) -> (r: Vec<char>)
    ensures
        r@ == b@.map_values(|x: u8| x as char),
{
    let mut r: Vec<char> = Vec::new();
    let mut i: usize = 0;
    while i < b.len()
        invariant
            i <= b@.len(),
            r@ =~= b@.take(i as int).map_values(|x: u8| x as char),
        decreases b@.len() - i,
    {
        r.push(b[i] as char);
        i += 1;
    }
    assert(b@.take(i as int) =~= b@);
    r
}

fn skip_bytes(b: &[u8], from: usize) -> (r: Vec<u8>)
    requires
        from <= b@.len(),
    ensures
        r@ == b@.skip(from as int),
{
    let mut r: Vec<u8> = Vec::new();
    let mut i: usize = from;
    while i < b.len()
        invariant
            from <= i <= b@.len(),
            r@ =~= b@.subrange(from as int, i as int),
        decreases b@.len() - i,
    {
        r.push(b[i]);
        i += 1;
    }
    r
}

/// Bytes to text, whatever the broker felt like emitting: BOM sniffing and a Latin-1 fallback,
/// which is every encoding these exports actually use.
pub fn decode(bytes: &[u8]) -> (r: String)
    ensures
        r@ == decoded(bytes@),
{
    let n = bytes.len();
    if n >= 2 && bytes[0] == 0xff && bytes[1] == 0xfe {
        string_of(&decode_units(&units_of(bytes, 2, true)))
    } else if n >= 2 && bytes[0] == 0xfe && bytes[1] == 0xff {
        string_of(&decode_units(&units_of(bytes, 2, false)))
    } else if n >= 3 && bytes[0] == 0xef && bytes[1] == 0xbb && bytes[2] == 0xbf {
        let rest = skip_bytes(bytes, 3);
        utf8_lossy(&rest)
    } else {
        match utf8_text(bytes) {
            Some(s) => s,
            None => string_of(&latin1(bytes)),
        }
    }
}

// ---------------------------------------------------------------------------------------------
// Headers.

pub open spec fn nbsp_to_space(c: char) -> char {
    if c == '\u{a0}' {
        ' '
    } else {
        c
    }
}

/// A header cell reduced to what an alias is compared against: non-breaking spaces made plain,
/// trimmed, lowercased, and inner runs of whitespace collapsed to one space.
pub open spec fn normalized(cell: Seq<char>) -> Seq<char> {
    join(words(lowercase_of(trim(cell.map_values(|c: char| nbsp_to_space(c))))), " "@)
}

/// Every cell of a header, normalised.
pub open spec fn normalized_all(cells: Seq<Seq<char>>) -> Seq<Seq<char>> {
    cells.map_values(|c: Seq<char>| normalized(c))
}

/// Inner runs of whitespace collapsed to one space, and none at either end: the last step of
/// normalising a header cell, once it has been lowercased.
pub fn collapse_whitespace(text: &str) -> (r: String)
    ensures
        r@ == join(words(text@), " "@),
{
    let ws = split_whitespace_chars(&chars_of(text));
    let space = vec![' '];
    assert(space@ =~= " "@) by {
        reveal_strlit(" ");
    }
    string_of(&join_chars(&ws, &space))
}

fn norm_chars(cell: &[char]) -> (r: String)
    ensures
        r@ == normalized(cell@),
{
    let mut v: Vec<char> = Vec::new();
    let mut i: usize = 0;
    while i < cell.len()
        invariant
            i <= cell@.len(),
            v@ =~= cell@.take(i as int).map_values(|c: char| nbsp_to_space(c)),
        decreases cell@.len() - i,
    {
        let c = cell[i];
        v.push(if c == '\u{a0}' { ' ' } else { c });
        i += 1;
    }
    assert(cell@.take(i as int) =~= cell@);
    let t = string_of(&trim_chars(&v));
    let lower = to_lowercase(t.as_str());
    collapse_whitespace(lower.as_str())
}

/// A header cell reduced to something an alias can be compared against. A header that differs
/// from its alias only by an invisible character is the same header.
pub fn norm(cell: &str) -> (r: String)
    ensures
        r@ == normalized(cell@),
{
    norm_chars(&chars_of(cell))
}

/// The separator a header uses: whichever of tab, semicolon and comma it holds most of, the
/// later of those in that order winning a tie.
pub open spec fn separator_of(header: Seq<char>) -> char {
    let t = count_char(header, '\t');
    let s = count_char(header, ';');
    let c = count_char(header, ',');
    if c >= t && c >= s {
        ','
    } else if s >= t {
        ';'
    } else {
        '\t'
    }
}

fn separator_chars(header: &[char]) -> (r: char)
    ensures
        r == separator_of(header@),
{
    let t = count_chars(header, '\t');
    let s = count_chars(header, ';');
    let c = count_chars(header, ',');
    if c >= t && c >= s {
        ','
    } else if s >= t {
        ';'
    } else {
        '\t'
    }
}

/// The separator this file uses, decided by counting candidates in the header. Nordnet ships
/// tabs in a file called .csv, so the extension proves nothing.
pub fn separator(header: &str) -> (r: char)
    ensures
        r == separator_of(header@),
{
    separator_chars(&chars_of(header))
}

/// The first header that is one of the aliases.
pub open spec fn column_of(headers: Seq<Seq<char>>, aliases: Seq<Seq<char>>) -> Option<nat>
    decreases headers.len(),
{
    if headers.len() == 0 {
        None
    } else if aliases.contains(headers[0]) {
        Some(0)
    } else {
        match column_of(headers.drop_first(), aliases) {
            Some(i) => Some(i + 1),
            None => None,
        }
    }
}

proof fn lemma_column_of_prefix(headers: Seq<Seq<char>>, aliases: Seq<Seq<char>>, i: int)
    requires
        0 <= i < headers.len(),
        forall|j: int| 0 <= j < i ==> !aliases.contains(#[trigger] headers[j]),
    ensures
        match column_of(headers.skip(i), aliases) {
            Some(x) => column_of(headers, aliases) == Some((x + i) as nat),
            None => column_of(headers, aliases) is None,
        },
    decreases i,
{
    if i > 0 {
        let t = headers.drop_first();
        assert forall|j: int| 0 <= j < i - 1 implies !aliases.contains(#[trigger] t[j]) by {
            assert(t[j] == headers[j + 1]);
        }
        lemma_column_of_prefix(t, aliases, i - 1);
        assert(t.skip(i - 1) =~= headers.skip(i));
        assert(!aliases.contains(headers[0]));
    } else {
        assert(headers.skip(0) =~= headers);
    }
}

proof fn lemma_column_of_bound(headers: Seq<Seq<char>>, aliases: Seq<Seq<char>>)
    ensures
        column_of(headers, aliases) matches Some(i) ==> i < headers.len(),
    decreases headers.len(),
{
    if headers.len() > 0 {
        lemma_column_of_bound(headers.drop_first(), aliases);
    }
}

proof fn lemma_column_of_none(headers: Seq<Seq<char>>, aliases: Seq<Seq<char>>)
    requires
        forall|j: int| 0 <= j < headers.len() ==> !aliases.contains(#[trigger] headers[j]),
    ensures
        column_of(headers, aliases) is None,
    decreases headers.len(),
{
    if headers.len() > 0 {
        let t = headers.drop_first();
        assert forall|j: int| 0 <= j < t.len() implies !aliases.contains(#[trigger] t[j]) by {
            assert(t[j] == headers[j + 1]);
        }
        lemma_column_of_none(t, aliases);
        assert(!aliases.contains(headers[0]));
    }
}

fn contains_text(list: &[&str], s: &str) -> (r: bool)
    ensures
        r == strs(list@).contains(s@),
{
    let sv = chars_of(s);
    let mut i: usize = 0;
    while i < list.len()
        invariant
            i <= list@.len(),
            sv@ == s@,
            forall|j: int| 0 <= j < i ==> #[trigger] list@[j]@ != s@,
        decreases list@.len() - i,
    {
        if chars_eq(&chars_of(list[i]), &sv) {
            assert(strs(list@)[i as int] == s@);
            return true;
        }
        i += 1;
    }
    proof {
        if strs(list@).contains(s@) {
            let j = choose|j: int| 0 <= j < strs(list@).len() && strs(list@)[j] == s@;
            assert(list@[j]@ == s@);
        }
    }
    false
}

pub open spec fn texts(v: Seq<String>) -> Seq<Seq<char>> {
    v.map_values(|s: String| s@)
}

/// The position of the first header that is one of the aliases.
pub fn column(headers: &[String], aliases: &[&str]) -> (r: Option<usize>)
    ensures
        match column_of(texts(headers@), strs(aliases@)) {
            Some(i) => i < headers@.len() && r == Some(i as usize),
            None => r is None,
        },
{
    proof {
        lemma_column_of_bound(texts(headers@), strs(aliases@));
    }
    let ghost hs = texts(headers@);
    let ghost al = strs(aliases@);
    let mut i: usize = 0;
    while i < headers.len()
        invariant
            i <= headers@.len(),
            hs == texts(headers@),
            al == strs(aliases@),
            forall|j: int| 0 <= j < i ==> !al.contains(#[trigger] hs[j]),
        decreases headers@.len() - i,
    {
        if contains_text(aliases, headers[i].as_str()) {
            proof {
                lemma_column_of_prefix(hs, al, i as int);
                assert(hs.skip(i as int)[0] == hs[i as int]);
            }
            return Some(i);
        }
        i += 1;
    }
    proof {
        lemma_column_of_none(hs, al);
    }
    None
}

// ---------------------------------------------------------------------------------------------
// Numbers.

pub open spec fn is_digit(c: char) -> bool {
    '0' <= c && c <= '9'
}

/// Digits with at most one decimal point and at least one digit.
pub open spec fn mantissa_ok(m: Seq<char>) -> bool {
    if count_char(m, '.') == 0 {
        m.len() >= 1 && forall|i: int| 0 <= i < m.len() ==> is_digit(#[trigger] m[i])
    } else {
        count_char(m, '.') == 1 && m.len() >= 2 && forall|i: int|
            0 <= i < m.len() ==> is_digit(#[trigger] m[i]) || m[i] == '.'
    }
}

/// An exponent without its sign.
pub open spec fn exponent_digits(e: Seq<char>) -> Seq<char> {
    if e.len() > 0 && (e[0] == '+' || e[0] == '-') {
        e.drop_first()
    } else {
        e
    }
}

/// An optional sign and at least one digit.
pub open spec fn exponent_ok(e: Seq<char>) -> bool {
    exponent_digits(e).len() >= 1 && forall|i: int|
        0 <= i < exponent_digits(e).len() ==> is_digit(#[trigger] exponent_digits(e)[i])
}

/// The index of the first `e` or `E`, or the length.
pub open spec fn find_exp(s: Seq<char>) -> nat
    decreases s.len(),
{
    if s.len() == 0 {
        0
    } else if s[0] == 'e' || s[0] == 'E' {
        0
    } else {
        1 + find_exp(s.drop_first())
    }
}

pub open spec fn number_ok(t: Seq<char>) -> bool {
    let k = find_exp(t);
    if k >= t.len() {
        mantissa_ok(t)
    } else {
        mantissa_ok(t.take(k as int)) && exponent_ok(t.skip(k + 1 as int))
    }
}

/// Whether a text is a decimal literal that `f64`'s `FromStr` accepts: an optional sign, then
/// `inf`, `infinity` or `nan` in any case, or digits with at most one point and an optional
/// exponent, as its documented grammar states.
pub open spec fn float_literal(s: Seq<char>) -> bool {
    let t = if s.len() > 0 && (s[0] == '+' || s[0] == '-') {
        s.drop_first()
    } else {
        s
    };
    let l = ascii_lower(t);
    l == "inf"@ || l == "infinity"@ || l == "nan"@ || number_ok(t)
}

fn all_digits_from(v: &[char], from: usize, to: usize, allow_point: bool) -> (r: bool)
    requires
        from <= to <= v@.len(),
    ensures
        r == forall|i: int|
            from <= i < to ==> is_digit(#[trigger] v@[i]) || (allow_point && v@[i] == '.'),
        !allow_point ==> (r == forall|i: int| from <= i < to ==> is_digit(#[trigger] v@[i])),
{
    let mut i = from;
    while i < to
        invariant
            from <= i <= to,
            to <= v@.len(),
            forall|j: int|
                from <= j < i ==> is_digit(#[trigger] v@[j]) || (allow_point && v@[j] == '.'),
        decreases to - i,
    {
        let c = v[i];
        if !(('0' <= c && c <= '9') || (allow_point && c == '.')) {
            return false;
        }
        i += 1;
    }
    true
}

fn mantissa_check(m: &[char]) -> (r: bool)
    ensures
        r == mantissa_ok(m@),
{
    let dots = count_chars(m, '.');
    if dots == 0 {
        let ok = all_digits_from(m, 0, m.len(), false);
        m.len() >= 1 && ok
    } else {
        let ok = all_digits_from(m, 0, m.len(), true);
        dots == 1 && m.len() >= 2 && ok
    }
}

fn exponent_check(e: &[char]) -> (r: bool)
    ensures
        r == exponent_ok(e@),
{
    let start: usize = if e.len() > 0 && (e[0] == '+' || e[0] == '-') {
        1
    } else {
        0
    };
    let d = slice_chars(e, start, e.len());
    proof {
        if start == 1 {
            assert(d@ =~= e@.drop_first());
        } else {
            assert(d@ =~= e@);
        }
    }
    let ok = all_digits_from(&d, 0, d.len(), false);
    assert(d@ == exponent_digits(e@));
    d.len() >= 1 && ok
}

fn find_exp_index(v: &[char]) -> (r: usize)
    ensures
        r == find_exp(v@),
        r <= v@.len(),
{
    let mut i: usize = 0;
    assert(v@.skip(0) =~= v@);
    while i < v.len() && v[i] != 'e' && v[i] != 'E'
        invariant
            i <= v@.len(),
            find_exp(v@) == i + find_exp(v@.skip(i as int)),
        decreases v@.len() - i,
    {
        assert(v@.skip(i as int).drop_first() =~= v@.skip(i as int + 1));
        i += 1;
    }
    i
}

/// Whether `f64`'s parser accepts the text, by its documented grammar.
pub fn is_float_literal(s: &[char]) -> (r: bool)
    ensures
        r == float_literal(s@),
{
    let start: usize = if s.len() > 0 && (s[0] == '+' || s[0] == '-') {
        1
    } else {
        0
    };
    let t = slice_chars(s, start, s.len());
    proof {
        if start == 1 {
            assert(t@ =~= s@.drop_first());
        } else {
            assert(t@ =~= s@);
        }
    }
    let l = ascii_lower_chars(&t);
    if chars_eq(&l, &chars_of("inf")) || chars_eq(&l, &chars_of("infinity")) || chars_eq(
        &l,
        &chars_of("nan"),
    ) {
        return true;
    }
    let k = find_exp_index(&t);
    if k >= t.len() {
        mantissa_check(&t)
    } else {
        let m = slice_chars(&t, 0, k);
        let e = slice_chars(&t, k + 1, t.len());
        assert(m@ =~= t@.take(k as int));
        assert(e@ =~= t@.skip(k as int + 1));
        mantissa_check(&m) && exponent_check(&e)
    }
}

/// `s` without any whitespace.
pub open spec fn without_spaces(s: Seq<char>) -> Seq<char>
    decreases s.len(),
{
    if s.len() == 0 {
        s
    } else if is_ws(s.last()) {
        without_spaces(s.drop_last())
    } else {
        without_spaces(s.drop_last()).push(s.last())
    }
}

/// `s` without any `c`.
pub open spec fn without_char(s: Seq<char>, c: char) -> Seq<char>
    decreases s.len(),
{
    if s.len() == 0 {
        s
    } else if s.last() == c {
        without_char(s.drop_last(), c)
    } else {
        without_char(s.drop_last(), c).push(s.last())
    }
}

pub open spec fn comma_to_point(c: char) -> char {
    if c == ',' {
        '.'
    } else {
        c
    }
}

/// A cleaned number with its decimal separator made a point and its thousands separators
/// dropped. With both separators present the later one is the decimal: `1.234,56` and
/// `1,234.56` are the same number written by different countries.
/// `s` with every comma made a point.
pub open spec fn commas_as_points(s: Seq<char>) -> Seq<char> {
    s.map_values(|x: char| comma_to_point(x))
}

pub open spec fn decimal_form(c: Seq<char>) -> Seq<char> {
    let comma_decimal = commas_as_points(without_char(c, '.'));
    let point_decimal = without_char(c, ',');
    match (last_index_of(c, ','), last_index_of(c, '.')) {
        (Some(a), Some(b)) => if a > b {
            comma_decimal
        } else {
            point_decimal
        },
        (Some(_), None) => comma_decimal,
        (None, Some(_)) => point_decimal,
        (None, None) => c,
    }
}

/// Whether a text holds neither a comma nor a point.
pub open spec fn no_separator(s: Seq<char>) -> bool {
    forall|i: int| 0 <= i < s.len() ==> s[i] != ',' && s[i] != '.'
}

proof fn lemma_without_char_add(a: Seq<char>, b: Seq<char>, c: char)
    ensures
        without_char(a + b, c) == without_char(a, c) + without_char(b, c),
    decreases b.len(),
{
    if b.len() == 0 {
        assert(a + b =~= a);
        assert(without_char(a, c) + without_char(b, c) =~= without_char(a, c));
    } else {
        lemma_without_char_add(a, b.drop_last(), c);
        assert((a + b).drop_last() =~= a + b.drop_last());
        assert((a + b).last() == b.last());
        if b.last() != c {
            assert(without_char(a, c) + without_char(b, c) =~= (without_char(a, c)
                + without_char(b.drop_last(), c)).push(b.last()));
        }
    }
}

proof fn lemma_without_char_absent(a: Seq<char>, c: char)
    requires
        forall|i: int| 0 <= i < a.len() ==> a[i] != c,
    ensures
        without_char(a, c) == a,
    decreases a.len(),
{
    if a.len() > 0 {
        assert(a.last() == a[a.len() - 1]);
        lemma_without_char_absent(a.drop_last(), c);
        assert(a.drop_last().push(a.last()) =~= a);
    }
}

proof fn lemma_last_index_past(a: Seq<char>, b: Seq<char>, c: char)
    requires
        forall|i: int| 0 <= i < b.len() ==> b[i] != c,
    ensures
        last_index_of(a + b, c) == last_index_of(a, c),
    decreases b.len(),
{
    if b.len() == 0 {
        assert(a + b =~= a);
    } else {
        assert((a + b).last() == b.last());
        assert(b.last() == b[b.len() - 1]);
        assert((a + b).drop_last() =~= a + b.drop_last());
        lemma_last_index_past(a, b.drop_last(), c);
    }
}

/// A number written with both separators reads the later one as the decimal point and drops the
/// earlier one as a thousands separator, whichever country wrote it: `x.y,z` and `x,y.z` are
/// both the number `xy.z`, for any runs `x`, `y`, `z` without separators.
pub proof fn law_the_later_separator_is_the_decimal(x: Seq<char>, y: Seq<char>, z: Seq<char>)
    requires
        no_separator(x),
        no_separator(y),
        no_separator(z),
    ensures
        decimal_form(x + seq!['.'] + y + seq![','] + z) == x + y + seq!['.'] + z,
        decimal_form(x + seq![','] + y + seq!['.'] + z) == x + y + seq!['.'] + z,
{
    let dot = seq!['.'];
    let comma = seq![','];
    // `x.y,z`: the comma is later.
    let c1 = x + dot + y + comma + z;
    lemma_last_index_past(x + dot + y + comma, z, ',');
    lemma_last_index_past(x + dot + y + comma, z, '.');
    lemma_last_index_past(x + dot, y + comma, '.');
    assert(x + dot + y + comma + z =~= (x + dot + y + comma) + z);
    assert(x + dot + y + comma =~= (x + dot) + (y + comma));
    assert(last_index_of(x + dot + y + comma, ',') == Some((x.len() + y.len() + 1) as nat));
    assert(last_index_of(x + dot, '.') == Some(x.len()));
    lemma_without_char_add(x + dot + y, comma + z, '.');
    lemma_without_char_add(x + dot, y, '.');
    lemma_without_char_add(x, dot, '.');
    lemma_without_char_absent(x, '.');
    lemma_without_char_absent(y, '.');
    lemma_without_char_absent(comma + z, '.');
    assert(without_char(dot, '.') =~= Seq::<char>::empty()) by {
        assert(dot.drop_last() =~= Seq::<char>::empty());
        assert(dot.last() == '.');
        assert(without_char(Seq::<char>::empty(), '.') == Seq::<char>::empty());
    }
    assert(c1 =~= (x + dot + y) + (comma + z));
    assert(without_char(c1, '.') =~= x + y + comma + z);
    assert(commas_as_points(x + y + comma + z) =~= x + y + dot + z);
    // `x,y.z`: the point is later.
    let c2 = x + comma + y + dot + z;
    lemma_last_index_past(x + comma + y + dot, z, ',');
    lemma_last_index_past(x + comma + y + dot, z, '.');
    lemma_last_index_past(x + comma, y + dot, ',');
    assert(c2 =~= (x + comma + y + dot) + z);
    assert(x + comma + y + dot =~= (x + comma) + (y + dot));
    assert(last_index_of(x + comma + y + dot, '.') == Some((x.len() + y.len() + 1) as nat));
    assert(last_index_of(x + comma, ',') == Some(x.len()));
    lemma_without_char_add(x + comma + y, dot + z, ',');
    lemma_without_char_add(x + comma, y, ',');
    lemma_without_char_add(x, comma, ',');
    lemma_without_char_absent(x, ',');
    lemma_without_char_absent(y, ',');
    lemma_without_char_absent(dot + z, ',');
    assert(without_char(comma, ',') =~= Seq::<char>::empty()) by {
        assert(comma.drop_last() =~= Seq::<char>::empty());
        assert(comma.last() == ',');
        assert(without_char(Seq::<char>::empty(), ',') == Seq::<char>::empty());
    }
    assert(c2 =~= (x + comma + y) + (dot + z));
    assert(without_char(c2, ',') =~= x + y + dot + z);
}

proof fn lemma_digits_have_no_space(s: Seq<char>)
    requires
        forall|i: int| 0 <= i < s.len() ==> is_digit(s[i]) || s[i] == '.' || s[i] == ',',
    ensures
        without_spaces(s) == s,
    decreases s.len(),
{
    if s.len() > 0 {
        assert(s.last() == s[s.len() - 1]);
        lemma_digits_have_no_space(s.drop_last());
        assert(s.drop_last().push(s.last()) =~= s);
    }
}

proof fn lemma_no_exponent(s: Seq<char>)
    requires
        forall|i: int| 0 <= i < s.len() ==> is_digit(s[i]) || s[i] == '.',
    ensures
        find_exp(s) == s.len(),
    decreases s.len(),
{
    if s.len() > 0 {
        assert(is_digit(s[0]) || s[0] == '.');
        assert forall|i: int| 0 <= i < s.drop_first().len() implies is_digit(s.drop_first()[i])
            || s.drop_first()[i] == '.' by {
            assert(s.drop_first()[i] == s[i + 1]);
        }
        lemma_no_exponent(s.drop_first());
    }
}

proof fn lemma_count_points(s: Seq<char>, k: int)
    requires
        0 <= k < s.len(),
        s[k] == '.',
        forall|i: int| 0 <= i < s.len() && i != k ==> s[i] != '.',
    ensures
        count_char(s, '.') == 1,
    decreases s.len(),
{
    if k == s.len() - 1 {
        assert forall|i: int| 0 <= i < s.drop_last().len() implies s.drop_last()[i] != '.' by {
            assert(s.drop_last()[i] == s[i]);
        }
        lemma_count_none(s.drop_last());
    } else {
        assert(s.last() == s[s.len() - 1]);
        assert forall|i: int| 0 <= i < s.drop_last().len() && i != k implies s.drop_last()[i]
            != '.' by {
            assert(s.drop_last()[i] == s[i]);
        }
        lemma_count_points(s.drop_last(), k);
    }
}

proof fn lemma_count_none(s: Seq<char>)
    requires
        forall|i: int| 0 <= i < s.len() ==> s[i] != '.',
    ensures
        count_char(s, '.') == 0,
    decreases s.len(),
{
    if s.len() > 0 {
        assert(s.last() == s[s.len() - 1]);
        assert forall|i: int| 0 <= i < s.drop_last().len() implies s.drop_last()[i] != '.' by {
            assert(s.drop_last()[i] == s[i]);
        }
        lemma_count_none(s.drop_last());
    }
}

/// A broker's number cell written with a thousands separator and a decimal one, in either
/// country's style, reads as the same decimal number: `x.y,z` and `x,y.z` are both `xy.z`, for
/// any runs of digits `x`, `y` and `z` with at least one digit before the decimal and one after.
pub proof fn law_both_number_styles_read_as_one_number(x: Seq<char>, y: Seq<char>, z: Seq<char>)
    requires
        x.len() + y.len() > 0,
        z.len() > 0,
        forall|i: int| 0 <= i < x.len() ==> is_digit(#[trigger] x[i]),
        forall|i: int| 0 <= i < y.len() ==> is_digit(#[trigger] y[i]),
        forall|i: int| 0 <= i < z.len() ==> is_digit(#[trigger] z[i]),
    ensures
        number_of(x + seq!['.'] + y + seq![','] + z) == Some(x + y + seq!['.'] + z),
        number_of(x + seq![','] + y + seq!['.'] + z) == Some(x + y + seq!['.'] + z),
{
    assert(no_separator(x)) by {
        assert forall|i: int| 0 <= i < x.len() implies x[i] != ',' && x[i] != '.' by {
            assert(is_digit(x[i]));
        }
    }
    assert(no_separator(y)) by {
        assert forall|i: int| 0 <= i < y.len() implies y[i] != ',' && y[i] != '.' by {
            assert(is_digit(y[i]));
        }
    }
    assert(no_separator(z)) by {
        assert forall|i: int| 0 <= i < z.len() implies z[i] != ',' && z[i] != '.' by {
            assert(is_digit(z[i]));
        }
    }
    law_the_later_separator_is_the_decimal(x, y, z);
    let t = x + y + seq!['.'] + z;
    let k = (x.len() + y.len()) as int;
    assert forall|i: int| 0 <= i < t.len() implies is_digit(t[i]) || t[i] == '.' by {
        if i < x.len() {
            assert(t[i] == x[i]);
        } else if i < k {
            assert(t[i] == y[i - x.len()]);
        } else if i > k {
            assert(t[i] == z[i - k - 1]);
        }
    }
    assert forall|i: int| 0 <= i < t.len() && i != k implies t[i] != '.' by {
        if i < x.len() {
            assert(t[i] == x[i]);
        } else if i < k {
            assert(t[i] == y[i - x.len()]);
        } else {
            assert(t[i] == z[i - k - 1]);
        }
    }
    assert(t[k] == '.');
    lemma_count_points(t, k);
    lemma_no_exponent(t);
    assert(mantissa_ok(t));
    assert(number_ok(t));
    assert(is_digit(t[0]) || t[0] == '.');
    assert(float_literal(t));
    let c1 = x + seq!['.'] + y + seq![','] + z;
    let c2 = x + seq![','] + y + seq!['.'] + z;
    assert forall|i: int| 0 <= i < c1.len() implies is_digit(c1[i]) || c1[i] == '.' || c1[i]
        == ',' by {
        if i < x.len() {
            assert(c1[i] == x[i]);
        } else if i == x.len() {
        } else if i < k + 1 {
            assert(c1[i] == y[i - x.len() - 1]);
        } else if i > k + 1 {
            assert(c1[i] == z[i - k - 2]);
        }
    }
    assert forall|i: int| 0 <= i < c2.len() implies is_digit(c2[i]) || c2[i] == '.' || c2[i]
        == ',' by {
        if i < x.len() {
            assert(c2[i] == x[i]);
        } else if i == x.len() {
        } else if i < k + 1 {
            assert(c2[i] == y[i - x.len() - 1]);
        } else if i > k + 1 {
            assert(c2[i] == z[i - k - 2]);
        }
    }
    lemma_digits_have_no_space(c1);
    lemma_digits_have_no_space(c2);
}

/// A number cell as a decimal literal, or `None` for a blank, a dash, or anything else that
/// does not read as a number.
pub open spec fn number_of(cell: Seq<char>) -> Option<Seq<char>> {
    let c = without_spaces(cell);
    if c.len() == 0 {
        None
    } else if float_literal(decimal_form(c)) {
        Some(decimal_form(c))
    } else {
        None
    }
}

fn drop_spaces(v: &[char]) -> (r: Vec<char>)
    ensures
        r@ == without_spaces(v@),
{
    let mut r: Vec<char> = Vec::new();
    let mut i: usize = 0;
    while i < v.len()
        invariant
            i <= v@.len(),
            r@ == without_spaces(v@.take(i as int)),
        decreases v@.len() - i,
    {
        assert(v@.take(i as int + 1).drop_last() =~= v@.take(i as int));
        if !is_whitespace(v[i]) {
            r.push(v[i]);
        }
        i += 1;
    }
    assert(v@.take(i as int) =~= v@);
    r
}

fn drop_char(v: &[char], c: char) -> (r: Vec<char>)
    ensures
        r@ == without_char(v@, c),
{
    let mut r: Vec<char> = Vec::new();
    let mut i: usize = 0;
    while i < v.len()
        invariant
            i <= v@.len(),
            r@ == without_char(v@.take(i as int), c),
        decreases v@.len() - i,
    {
        assert(v@.take(i as int + 1).drop_last() =~= v@.take(i as int));
        if v[i] != c {
            r.push(v[i]);
        }
        i += 1;
    }
    assert(v@.take(i as int) =~= v@);
    r
}

fn commas_to_points(v: &[char]) -> (r: Vec<char>)
    ensures
        r@ == commas_as_points(v@),
{
    let mut r: Vec<char> = Vec::new();
    let mut i: usize = 0;
    while i < v.len()
        invariant
            i <= v@.len(),
            r@ =~= v@.take(i as int).map_values(|x: char| comma_to_point(x)),
        decreases v@.len() - i,
    {
        r.push(if v[i] == ',' { '.' } else { v[i] });
        i += 1;
    }
    assert(v@.take(i as int) =~= v@);
    r
}

fn number_chars(cell: &[char]) -> (r: Option<Vec<char>>)
    ensures
        match number_of(cell@) {
            Some(t) => r matches Some(v) && v@ == t,
            None => r is None,
        },
{
    let c = drop_spaces(cell);
    if c.len() == 0 {
        return None;
    }
    let ghost cv = c@;
    assert(cv == without_spaces(cell@));
    let comma = rfind_char(&c, ',');
    let point = rfind_char(&c, '.');
    let comma_wins = match comma {
        Some(a) => match point {
            Some(b) => a > b,
            None => true,
        },
        None => false,
    };
    let d = if comma_wins {
        commas_to_points(&drop_char(&c, '.'))
    } else if point.is_some() {
        drop_char(&c, ',')
    } else {
        c
    };
    proof {
        let lc = last_index_of(cv, ',');
        let lp = last_index_of(cv, '.');
        assert(comma_wins == (lc is Some && (lp is None || lc->0 > lp->0)));
        assert(point is Some == lp is Some);
        assert(d@ == decimal_form(cv));
    }
    if is_float_literal(&d) {
        Some(d)
    } else {
        None
    }
}

/// A number as a Norwegian broker writes it (decimal comma, spaces or non-breaking spaces
/// between thousands), as the decimal literal it stands for. `None` for a blank or a dash,
/// which is how these files write "not applicable".
pub fn number_text(cell: &str) -> (r: Option<String>)
    ensures
        match number_of(cell@) {
            Some(t) => r matches Some(s) && s@ == t,
            None => r is None,
        },
{
    match number_chars(&chars_of(cell)) {
        Some(v) => Some(string_of(&v)),
        None => None,
    }
}

// ---------------------------------------------------------------------------------------------
// The whole file.

/// The lines that hold anything but whitespace.
pub open spec fn nonblank(ls: Seq<Seq<char>>) -> Seq<Seq<char>>
    decreases ls.len(),
{
    if ls.len() == 0 {
        ls
    } else if trim(ls.last()).len() == 0 {
        nonblank(ls.drop_last())
    } else {
        nonblank(ls.drop_last()).push(ls.last())
    }
}

/// The trimmed cell at `i`, or empty past the end of the line.
pub open spec fn cell_at(cells: Seq<Seq<char>>, i: nat) -> Seq<char> {
    if i < cells.len() {
        trim(cells[i as int])
    } else {
        Seq::<char>::empty()
    }
}

/// Where each column is: name, currency (optional), shares, average cost.
pub type Columns = (nat, Option<nat>, nat, nat);

/// A line read as a position, or `None` for a line with no share count (a total or a blank)
/// or no name.
pub open spec fn row_of(line: Seq<char>, sep: char, cols: Columns) -> Option<RowText> {
    let cells = split_on(line, sep);
    let name = cell_at(cells, cols.0);
    match number_of(cell_at(cells, cols.2)) {
        None => None,
        Some(shares) => if name.len() == 0 {
            None
        } else {
            Some(
                (
                    name,
                    uppercase_of(
                        match cols.1 {
                            Some(c) => cell_at(cells, c),
                            None => Seq::<char>::empty(),
                        },
                    ),
                    shares,
                    number_of(cell_at(cells, cols.3)),
                ),
            )
        },
    }
}

pub open spec fn rows_of(ls: Seq<Seq<char>>, sep: char, cols: Columns) -> Seq<RowText>
    decreases ls.len(),
{
    if ls.len() == 0 {
        Seq::<RowText>::empty()
    } else {
        match row_of(ls.last(), sep, cols) {
            Some(r) => rows_of(ls.drop_last(), sep, cols).push(r),
            None => rows_of(ls.drop_last(), sep, cols),
        }
    }
}

/// What `parse` makes of an export.
pub open spec fn parsed(bytes: Seq<u8>) -> Result<Seq<RowText>, ImportError> {
    let ls = nonblank(lines(decoded(bytes)));
    if ls.len() == 0 {
        Err(ImportError::Empty)
    } else {
        let sep = separator_of(ls[0]);
        let headers = normalized_all(split_on(ls[0], sep));
        match (
            column_of(headers, name_aliases()),
            column_of(headers, share_aliases()),
            column_of(headers, gav_aliases()),
        ) {
            (None, _, _) => Err(ImportError::MissingColumn("Navn")),
            (Some(_), None, _) => Err(ImportError::MissingColumn("Antall")),
            (Some(_), Some(_), None) => Err(ImportError::MissingColumn("GAV")),
            (Some(n), Some(s), Some(g)) => {
                let rows = rows_of(
                    ls.skip(1),
                    sep,
                    (n, column_of(headers, currency_aliases()), s, g),
                );
                if rows.len() == 0 {
                    Err(ImportError::Empty)
                } else {
                    Ok(rows)
                }
            },
        }
    }
}

fn nonblank_lines(all: &[Vec<char>]) -> (r: Vec<Vec<char>>)
    ensures
        r@.map_values(|w: Vec<char>| w@) == nonblank(all@.map_values(|w: Vec<char>| w@)),
{
    let ghost av = all@.map_values(|w: Vec<char>| w@);
    let mut r: Vec<Vec<char>> = Vec::new();
    let mut i: usize = 0;
    while i < all.len()
        invariant
            i <= all@.len(),
            av == all@.map_values(|w: Vec<char>| w@),
            r@.map_values(|w: Vec<char>| w@) == nonblank(av.take(i as int)),
        decreases all@.len() - i,
    {
        assert(av.take(i as int + 1).drop_last() =~= av.take(i as int));
        assert(av.take(i as int + 1).last() == all@[i as int]@);
        let t = trim_chars(&all[i]);
        if t.len() > 0 {
            let ghost before = r@;
            r.push(slice_chars(&all[i], 0, all[i].len()));
            assert(all@[i as int]@.subrange(0, all@[i as int]@.len() as int) =~= all@[i as int]@);
            assert(r@.map_values(|w: Vec<char>| w@) =~= before.map_values(|w: Vec<char>| w@).push(
                all@[i as int]@,
            ));
        }
        i += 1;
    }
    assert(av.take(i as int) =~= av);
    r
}

fn cell_chars(cells: &[Vec<char>], i: usize) -> (r: Vec<char>)
    ensures
        r@ == cell_at(cells@.map_values(|w: Vec<char>| w@), i as nat),
{
    if i < cells.len() {
        trim_chars(&cells[i])
    } else {
        Vec::new()
    }
}

fn row_chars(line: &[char], sep: char, name: usize, cur: Option<usize>, shares: usize, gav: usize)
    -> (r: Option<Row>)
    ensures
        match row_of(line@, sep, columns(name, cur, shares, gav)) {
            Some(t) => r matches Some(row) && row@ == t,
            None => r is None,
        },
{
    let cells = split_chars(line, sep);
    let nm = cell_chars(&cells, name);
    let sh = match number_chars(&cell_chars(&cells, shares)) {
        Some(v) => v,
        None => return None,
    };
    if nm.len() == 0 {
        return None;
    }
    let cur_text = match cur {
        Some(c) => string_of(&cell_chars(&cells, c)),
        None => String::new(),
    };
    let currency = to_uppercase(cur_text.as_str());
    let gav_text = match number_chars(&cell_chars(&cells, gav)) {
        Some(v) => Some(string_of(&v)),
        None => None,
    };
    Some(Row { name: string_of(&nm), currency, shares: string_of(&sh), gav: gav_text })
}

pub open spec fn columns(name: usize, cur: Option<usize>, shares: usize, gav: usize) -> Columns {
    (
        name as nat,
        match cur {
            Some(c) => Some(c as nat),
            None => None,
        },
        shares as nat,
        gav as nat,
    )
}

fn rows_from(ls: &Vec<Vec<char>>, sep: char, name: usize, cur: Option<usize>, shares: usize, gav: usize)
    -> (r: Vec<Row>)
    requires
        ls@.len() >= 1,
    ensures
        row_views(r@) == rows_of(
            ls@.map_values(|w: Vec<char>| w@).skip(1),
            sep,
            columns(name, cur, shares, gav),
        ),
{
    let ghost lv = ls@.map_values(|w: Vec<char>| w@);
    let ghost body = lv.skip(1);
    let ghost cols = columns(name, cur, shares, gav);
    let mut rows: Vec<Row> = Vec::new();
    let mut j: usize = 1;
    while j < ls.len()
        invariant
            1 <= j <= ls@.len(),
            lv == ls@.map_values(|w: Vec<char>| w@),
            body == lv.skip(1),
            cols == columns(name, cur, shares, gav),
            row_views(rows@) == rows_of(body.take(j - 1), sep, cols),
        decreases ls@.len() - j,
    {
        assert(body.take(j as int).drop_last() =~= body.take(j - 1));
        let ghost line = ls@[j as int]@;
        assert(body.take(j as int).last() == line);
        let ghost before = rows@;
        let next = row_chars(&ls[j], sep, name, cur, shares, gav);
        match next {
            Some(row) => {
                rows.push(row);
                assert(row_views(rows@) =~= row_views(before).push(row@));
            },
            None => {},
        }
        j += 1;
    }
    assert(body.take(j - 1) =~= body);
    rows
}

/// A positions export read into rows, or refused: a file with no name, share count or average
/// cost column is not a positions export, and one with no positions under its header is empty.
pub fn parse(bytes: &[u8]) -> (r: Result<Vec<Row>, ImportError>)
    ensures
        match parsed(bytes@) {
            Ok(rows) => r matches Ok(v) && row_views(v@) == rows,
            Err(e) => r == Err::<Vec<Row>, ImportError>(e),
        },
{
    let text = decode(bytes);
    let all = lines_chars(&chars_of(text.as_str()));
    let ls = nonblank_lines(&all);
    let ghost lv = ls@.map_values(|w: Vec<char>| w@);
    if ls.len() == 0 {
        return Err(ImportError::Empty);
    }
    assert(lv[0] == ls@[0]@);
    let sep = separator_chars(&ls[0]);
    let pieces = split_chars(&ls[0], sep);
    let mut headers: Vec<String> = Vec::new();
    let mut i: usize = 0;
    let ghost pv = pieces@.map_values(|w: Vec<char>| w@);
    while i < pieces.len()
        invariant
            i <= pieces@.len(),
            pv == pieces@.map_values(|w: Vec<char>| w@),
            texts(headers@) =~= normalized_all(pv.take(i as int)),
        decreases pieces@.len() - i,
    {
        let h = norm_chars(&pieces[i]);
        let ghost before = headers@;
        headers.push(h);
        assert(texts(headers@) =~= texts(before).push(h@));
        assert(pv.take(i as int + 1) =~= pv.take(i as int).push(pieces@[i as int]@));
        i += 1;
    }
    let ghost hv = normalized_all(pv);
    assert(pv.take(i as int) =~= pv);
    assert(texts(headers@) == hv);
    let name = match column(&headers, &name_list()) {
        Some(c) => c,
        None => return Err(ImportError::MissingColumn("Navn")),
    };
    let shares = match column(&headers, &share_list()) {
        Some(c) => c,
        None => return Err(ImportError::MissingColumn("Antall")),
    };
    let gav = match column(&headers, &gav_list()) {
        Some(c) => c,
        None => return Err(ImportError::MissingColumn("GAV")),
    };
    let cur = column(&headers, &currency_list());
    let rows = rows_from(&ls, sep, name, cur, shares, gav);
    if rows.len() == 0 {
        return Err(ImportError::Empty);
    }
    Ok(rows)
}

// ---------------------------------------------------------------------------------------------
// Search terms.

/// The name with a trailing parenthetical dropped, when it has one and something is left.
pub open spec fn without_parenthetical(name: Seq<char>) -> Option<Seq<char>> {
    match last_index_of(name, '(') {
        Some(open) => {
            let te = trim_end(name);
            if te.len() > 0 && te.last() == ')' && trim(name.take(open as int)).len() > 0 {
                Some(trim(name.take(open as int)))
            } else {
                None
            }
        },
        None => None,
    }
}

/// `ws` with trailing words dropped one at a time, joined with spaces, down to two words.
pub open spec fn shortenings(ws: Seq<Seq<char>>) -> Seq<Seq<char>> {
    let n = if ws.len() > 2 {
        (ws.len() - 2) as nat
    } else {
        0
    };
    Seq::new(n, |i: int| join(ws.take(ws.len() - 1 - i), " "@))
}

/// `s` with each run of equal neighbours reduced to its first, as `Vec::dedup` leaves it.
pub open spec fn dedup(s: Seq<Seq<char>>) -> Seq<Seq<char>>
    decreases s.len(),
{
    if s.len() <= 1 {
        s
    } else if s.last() == s[s.len() - 2] {
        dedup(s.drop_last())
    } else {
        dedup(s.drop_last()).push(s.last())
    }
}

/// The terms before neighbouring repeats are dropped: the trimmed name, the name without its
/// parenthetical, then the shorter name with its trailing words coming off one at a time.
pub open spec fn raw_search_terms(name: Seq<char>) -> Seq<Seq<char>> {
    let base = seq![trim(name)] + match without_parenthetical(name) {
        Some(s) => seq![s],
        None => Seq::<Seq<char>>::empty(),
    };
    base + shortenings(words(base.last()))
}

/// Trailing words come off one at a time and stop at two: each shortening splits back into the
/// first words it was made from, one fewer each time, and never fewer than two of them.
pub proof fn law_shortenings_keep_two_words(s: Seq<char>)
    ensures
        forall|k: int|
            0 <= k < shortenings(words(s)).len() ==> {
                &&& words(#[trigger] shortenings(words(s))[k]) == words(s).take(
                    words(s).len() - 1 - k,
                )
                &&& words(shortenings(words(s))[k]).len() >= 2
            },
{
    let ws = words(s);
    lemma_words_are_words(s);
    assert forall|k: int| 0 <= k < shortenings(ws).len() implies {
        &&& words(#[trigger] shortenings(ws)[k]) == ws.take(ws.len() - 1 - k)
        &&& words(shortenings(ws)[k]).len() >= 2
    } by {
        let part = ws.take(ws.len() - 1 - k);
        assert forall|i: int| 0 <= i < part.len() implies is_word(#[trigger] part[i]) by {
            assert(part[i] == ws[i]);
        }
        lemma_words_of_join(part);
        assert(shortenings(ws)[k] == join(part, " "@));
    }
}

proof fn lemma_dedup_keeps_members(s: Seq<Seq<char>>)
    ensures
        forall|t: Seq<char>| dedup(s).contains(t) ==> s.contains(t),
    decreases s.len(),
{
    if s.len() > 1 {
        let init = s.drop_last();
        lemma_dedup_keeps_members(init);
        assert forall|t: Seq<char>| dedup(s).contains(t) implies s.contains(t) by {
            let d = dedup(s);
            let k = choose|k: int| 0 <= k < d.len() && d[k] == t;
            if d == dedup(init) {
                assert(dedup(init).contains(t));
                assert(init.contains(t));
                let m = choose|m: int| 0 <= m < init.len() && init[m] == t;
                assert(s[m] == t);
            } else {
                assert(d == dedup(init).push(s.last()));
                if k < dedup(init).len() {
                    assert(d[k] == dedup(init)[k]);
                    assert(dedup(init).contains(t));
                    assert(init.contains(t));
                    let m = choose|m: int| 0 <= m < init.len() && init[m] == t;
                    assert(s[m] == t);
                } else {
                    assert(s[s.len() - 1] == t);
                }
            }
        }
    }
}

/// A search never wanders below two words: every term is the name itself, the name without its
/// parenthetical, or a shortening of at least two words.
pub proof fn law_search_terms_keep_two_words(name: Seq<char>)
    ensures
        forall|t: Seq<char>|
            #[trigger] dedup(raw_search_terms(name)).contains(t) ==> t == trim(name)
                || without_parenthetical(name) == Some(t) || words(t).len() >= 2,
{
    let raw = raw_search_terms(name);
    lemma_dedup_keeps_members(raw);
    let base = seq![trim(name)] + match without_parenthetical(name) {
        Some(p) => seq![p],
        None => Seq::<Seq<char>>::empty(),
    };
    let short = shortenings(words(base.last()));
    law_shortenings_keep_two_words(base.last());
    assert forall|t: Seq<char>| #[trigger] dedup(raw).contains(t) implies t == trim(name)
        || without_parenthetical(name) == Some(t) || words(t).len() >= 2 by {
        assert(raw.contains(t));
        let i = choose|i: int| 0 <= i < raw.len() && raw[i] == t;
        assert(raw == base + short);
        if i >= base.len() {
            assert(raw[i] == short[i - base.len()]);
        } else if i == 1 {
            assert(base[1] == raw[i]);
        } else {
            assert(base[0] == trim(name));
        }
    }
}

pub proof fn lemma_dedup(s: Seq<Seq<char>>)
    requires
        s.len() >= 1,
    ensures
        dedup(s).len() >= 1,
        dedup(s)[0] == s[0],
        dedup(s).last() == s.last(),
        forall|i: int| 0 <= i < dedup(s).len() - 1 ==> #[trigger] dedup(s)[i] != dedup(s)[i + 1],
    decreases s.len(),
{
    if s.len() > 1 {
        let t = s.drop_last();
        lemma_dedup(t);
        if s.last() != s[s.len() - 2] {
            let d = dedup(t);
            assert(d.last() == t.last());
            assert forall|i: int| 0 <= i < d.push(s.last()).len() - 1 implies #[trigger] d.push(
                s.last(),
            )[i] != d.push(s.last())[i + 1] by {
                if i == d.len() - 1 {
                    assert(d.push(s.last())[i] == d.last());
                }
            }
        }
    }
}

fn strings_eq(a: &String, b: &String) -> (r: bool)
    ensures
        r == (a@ == b@),
{
    chars_eq(&chars_of(a.as_str()), &chars_of(b.as_str()))
}

fn dedup_strings(v: Vec<String>) -> (r: Vec<String>)
    ensures
        texts(r@) == dedup(texts(v@)),
{
    let ghost tv = texts(v@);
    let mut r: Vec<String> = Vec::new();
    let mut i: usize = 0;
    while i < v.len()
        invariant
            i <= v@.len(),
            tv == texts(v@),
            texts(r@) == dedup(tv.take(i as int)),
        decreases v@.len() - i,
    {
        let ghost t = tv.take(i as int + 1);
        assert(t.drop_last() =~= tv.take(i as int));
        assert(t.last() == v@[i as int]@);
        if i > 0 {
            assert(t[t.len() - 2] == v@[i - 1]@);
        }
        if i > 0 && strings_eq(&v[i], &v[i - 1]) {
        } else {
            let ghost before = r@;
            r.push(v[i].clone());
            assert(texts(r@) =~= texts(before).push(v@[i as int]@));
        }
        i += 1;
    }
    assert(tv.take(i as int) =~= tv);
    r
}

fn trimmed_end_ends_with(v: &[char], c: char) -> (r: bool)
    ensures
        r == (trim_end(v@).len() > 0 && trim_end(v@).last() == c),
{
    let n = v.len();
    let mut b: usize = n;
    while b > 0 && is_whitespace(v[b - 1])
        invariant
            b <= n,
            n == v@.len(),
            forall|i: int| b <= i < n ==> is_ws(#[trigger] v@[i]),
        decreases b,
    {
        b -= 1;
    }
    proof {
        lemma_trail_ws_unique(v@, (n - b) as nat);
        assert(trim_end(v@) =~= v@.take(b as int));
    }
    b > 0 && v[b - 1] == c
}

fn push_shortenings(out: &mut Vec<String>, ws: Vec<Vec<char>>)
    ensures
        texts(final(out)@) == texts(old(out)@) + shortenings(ws@.map_values(|w: Vec<char>| w@)),
{
    let ghost all = ws@.map_values(|w: Vec<char>| w@);
    let ghost total = ws@.len();
    let ghost base = texts(out@);
    let mut ws = ws;
    let n0 = ws.len();
    let space = vec![' '];
    assert(space@ =~= " "@) by {
        reveal_strlit(" ");
    }
    let mut k: usize = 0;
    assert(all.take(ws@.len() as int) =~= all);
    while ws.len() > 2
        invariant
            ws@.len() + k == total,
            total == all.len(),
            total == n0,
            total > 2 ==> ws@.len() >= 2,
            total <= 2 ==> k == 0,
            ws@.map_values(|w: Vec<char>| w@) == all.take(ws@.len() as int),
            space@ == " "@,
            texts(out@) =~= base + shortenings(all).take(k as int),
        decreases ws@.len(),
    {
        let ghost before = out@;
        ws.pop();
        assert(ws@.map_values(|w: Vec<char>| w@) =~= all.take(ws@.len() as int));
        let joined = string_of(&join_chars(&ws, &space));
        out.push(joined);
        assert(shortenings(all).take(k as int + 1) =~= shortenings(all).take(k as int).push(
            join(all.take(total - 1 - k), " "@),
        ));
        assert(texts(out@) =~= texts(before).push(joined@));
        k += 1;
    }
    assert(shortenings(all).take(k as int) =~= shortenings(all));
}

/// Progressively shorter forms of a fund name, longest first, for a symbol search.
///
/// A full prospectus name finds nothing, and the hits appear as soon as the trailing
/// share-class words come off. The floor of two words is what stops "State Street SPDR MSCI..."
/// trimming down to "State Street SPDR", which finds a different fund in a different currency.
pub fn search_terms(name: &str) -> (r: Vec<String>)
    ensures
        texts(r@) == dedup(raw_search_terms(name@)),
        r@.len() >= 1,
        r@[0]@ == trim(name@),
        forall|i: int| 0 <= i < r@.len() - 1 ==> #[trigger] r@[i]@ != r@[i + 1]@,
{
    let nv = chars_of(name);
    let mut out: Vec<String> = Vec::new();
    let first = string_of(&trim_chars(&nv));
    out.push(first);
    assert(texts(out@) =~= seq![trim(name@)]);
    let ghost wp = without_parenthetical(name@);
    match rfind_char(&nv, '(') {
        Some(open) => {
            proof {
                assert(nv@ == name@);
                lemma_last_index_bound(nv@, '(');
                match last_index_of(nv@, '(') {
                    Some(i) => {
                        assert(open == i as usize);
                    },
                    None => {},
                }
            }
            assert(last_index_of(name@, '(') == Some(open as nat));
            if trimmed_end_ends_with(&nv, ')') {
                let stripped = trim_chars(&slice_chars(&nv, 0, open));
                assert(nv@.subrange(0, open as int) =~= name@.take(open as int));
                if stripped.len() > 0 {
                    let ghost before = out@;
                    out.push(string_of(&stripped));
                    assert(texts(out@) =~= texts(before).push(stripped@));
                    assert(wp == Some(stripped@));
                } else {
                    assert(wp is None);
                }
            } else {
                assert(wp is None);
            }
        },
        None => {
            assert(wp is None);
        },
    }
    let ghost base = texts(out@);
    assert(base =~= seq![trim(name@)] + match without_parenthetical(name@) {
        Some(s) => seq![s],
        None => Seq::<Seq<char>>::empty(),
    });
    let last = &out[out.len() - 1];
    let ws = split_whitespace_chars(&chars_of(last.as_str()));
    push_shortenings(&mut out, ws);
    let r = dedup_strings(out);
    proof {
        lemma_dedup(raw_search_terms(name@));
        let d = dedup(raw_search_terms(name@));
        assert(texts(r@) == d);
        assert forall|i: int| 0 <= i < r@.len() - 1 implies #[trigger] r@[i]@ != r@[i + 1]@ by {
            assert(texts(r@)[i] == r@[i]@);
            assert(texts(r@)[i + 1] == r@[i + 1]@);
            assert(d[i] != d[i + 1]);
        }
        assert(texts(r@)[0] == r@[0]@);
    }
    r
}

/// The texts and fetch time of a list of candidate listings.
pub open spec fn candidate_views(v: Seq<(String, Quote)>) -> Seq<(Seq<char>, Seq<char>, i64)> {
    v.map_values(|c: (String, Quote)| (c.0@, c.1.currency@, c.1.ts))
}

/// The candidates quoted in `currency`, compared without regard to ASCII case.
pub open spec fn in_currency_spec(v: Seq<(Seq<char>, Seq<char>, i64)>, currency: Seq<char>) -> Seq<
    (Seq<char>, Seq<char>, i64),
>
    decreases v.len(),
{
    if v.len() == 0 {
        v
    } else if ascii_lower(v.last().1) == ascii_lower(currency) {
        in_currency_spec(v.drop_last(), currency).push(v.last())
    } else {
        in_currency_spec(v.drop_last(), currency)
    }
}

/// The candidates whose quote is in the currency the broker stated.
///
/// An export states the currency it paid in; the same fund lists in London in GBP and in
/// Frankfurt in EUR. Without this filter an import can attach a holding to the wrong listing,
/// which does not fail, it just values the position wrongly and for ever.
pub fn in_currency(candidates: &[(String, Quote)], currency: &str) -> (r: Vec<(String, Quote)>)
    ensures
        candidate_views(r@) == in_currency_spec(candidate_views(candidates@), currency@),
{
    let want = ascii_lower_chars(&chars_of(currency));
    let ghost cv = candidate_views(candidates@);
    let mut r: Vec<(String, Quote)> = Vec::new();
    let mut i: usize = 0;
    while i < candidates.len()
        invariant
            i <= candidates@.len(),
            cv == candidate_views(candidates@),
            want@ == ascii_lower(currency@),
            candidate_views(r@) == in_currency_spec(cv.take(i as int), currency@),
        decreases candidates@.len() - i,
    {
        let c = &candidates[i];
        assert(cv.take(i as int + 1).drop_last() =~= cv.take(i as int));
        assert(cv.take(i as int + 1).last() == (c.0@, c.1.currency@, c.1.ts));
        let have = ascii_lower_chars(&chars_of(c.1.currency.as_str()));
        if chars_eq(&have, &want) {
            let ghost before = r@;
            let copy = (c.0.clone(), Quote { currency: c.1.currency.clone(), ts: c.1.ts });
            r.push(copy);
            assert(candidate_views(r@) =~= candidate_views(before).push(
                (c.0@, c.1.currency@, c.1.ts),
            ));
        }
        i += 1;
    }
    assert(cv.take(i as int) =~= cv);
    r
}

} // verus!
