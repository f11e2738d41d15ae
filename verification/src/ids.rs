//! Random identifiers and tokens, and the lowercase hexadecimal they are written in.

use vstd::prelude::*;

use crate::text::push_char;

verus! {

/// The lowercase hexadecimal digit for a value below sixteen.
pub open spec fn hex_digit(d: u8) -> char {
    if d < 10 {
        (48 + d) as char
    } else {
        (87 + d) as char
    }
}

/// Bytes as lowercase hexadecimal, two digits per byte, high nibble first: what `{:02x}` writes
/// for each byte in turn.
pub open spec fn hex_of(bytes: Seq<u8>) -> Seq<char>
    decreases bytes.len(),
{
    if bytes.len() == 0 {
        Seq::<char>::empty()
    } else {
        let b = bytes.last();
        hex_of(bytes.drop_last()) + seq![hex_digit(b / 16), hex_digit(b % 16)]
    }
}

pub proof fn lemma_hex_len(bytes: Seq<u8>)
    ensures
        hex_of(bytes).len() == 2 * bytes.len(),
    decreases bytes.len(),
{
    if bytes.len() > 0 {
        lemma_hex_len(bytes.drop_last());
    }
}

fn digit(d: u8) -> (r: char)
    requires
        d < 16,
    ensures
        r == hex_digit(d),
{
    if d < 10 {
        (48u8 + d) as char
    } else {
        (87u8 + d) as char
    }
}

/// `bytes` written as lowercase hexadecimal.
pub fn hex_lower(bytes: &[u8]) -> (r: String)
    ensures
        r@ == hex_of(bytes@),
{
    let mut r = String::new();
    let mut i: usize = 0;
    while i < bytes.len()
        invariant
            i <= bytes@.len(),
            r@ == hex_of(bytes@.take(i as int)),
        decreases bytes@.len() - i,
    {
        let b = bytes[i];
        push_char(&mut r, digit(b / 16));
        push_char(&mut r, digit(b % 16));
        proof {
            let t = bytes@.take(i as int + 1);
            assert(t.drop_last() =~= bytes@.take(i as int));
            assert(t.last() == b);
        }
        i += 1;
    }
    assert(bytes@.take(i as int) =~= bytes@);
    r
}

/// `n` bytes from the operating system's random source (`getrandom::fill`), or `None` when the
/// source reports an error. Nothing is claimed of the bytes but how many there are.
#[verifier::external_body]
pub(crate) fn random_bytes(n: usize) -> (r: Option<Vec<u8>>)
    ensures
        r matches Some(v) ==> v@.len() == n,
{
    let mut raw = vec![0u8; n];
    match getrandom::fill(&mut raw) {
        Ok(()) => Some(raw),
        Err(_) => None,
    }
}

/// The identifier text for a kind prefix and its random bytes: `p_9f3c1a`-shaped.
pub open spec fn id_text(prefix: char, raw: Seq<u8>) -> Seq<char> {
    seq![prefix, '_'] + hex_of(raw)
}

/// An identifier from a one-letter kind prefix and the bytes that make it unique.
pub fn id_from(prefix: char, raw: &[u8]) -> (r: String)
    ensures
        r@ == id_text(prefix, raw@),
{
    let mut r = String::new();
    push_char(&mut r, prefix);
    push_char(&mut r, '_');
    let hex = hex_lower(raw);
    r.append(hex.as_str());
    assert(r@ =~= id_text(prefix, raw@));
    r
}

/// A hex id with a one-letter kind prefix and four random bytes, e.g. "p_9f3c1a07". `None` only
/// when the random source fails.
pub fn new_id(prefix: char) -> (r: Option<String>)
    ensures
        r matches Some(s) ==> exists|raw: Seq<u8>| raw.len() == 4 && s@ == id_text(prefix, raw),
        r matches Some(s) ==> s@.len() == 10,
{
    match random_bytes(4) {
        Some(raw) => {
            let s = id_from(prefix, &raw);
            proof {
                lemma_hex_len(raw@);
            }
            Some(s)
        },
        None => None,
    }
}

} // verus!
