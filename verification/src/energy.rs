//! Energy and shipping: the drivers a Nordic portfolio is a bet on, and the listings that carry
//! that bet.
//!
//! Everything here is keyless. The freight indices proper are licensed; the two Breakwave funds
//! hold freight futures directly and are ordinary Yahoo tickers, which makes them the closest
//! thing to a freight rate that can be had without a contract.

use vstd::prelude::*;

use crate::alerts::{contains_key, key_texts};
use crate::import::texts;
use crate::optimize::{position, position_of};
use crate::text::{chars_eq, chars_of};

verus! {

/// Something a Nordic portfolio is, whether or not anyone chose it to be, a bet on.
#[derive(Clone, Copy, Debug, PartialEq, Eq)]
pub struct Driver {
    pub symbol: &'static str,
    pub name: &'static str,
    /// What it actually is, since half of these are futures and two are funds.
    pub kind: &'static str,
}

/// The drivers as (symbol, name, kind).
pub open spec fn driver_rows() -> Seq<(&'static str, &'static str, &'static str)> {
    seq![
        ("BZ=F", "Brent crude", "Front-month future"),
        ("CL=F", "WTI crude", "Front-month future"),
        ("TTF=F", "Dutch TTF gas", "Front-month future"),
        ("NG=F", "Henry Hub gas", "Front-month future"),
        ("BDRY", "Dry bulk freight", "Fund holding freight futures"),
        ("BWET", "Tanker freight", "Fund holding freight futures"),
    ]
}

/// The Nordic energy and shipping listings as (ticker, name, kind), by what they carry.
pub open spec fn listing_rows() -> Seq<(&'static str, &'static str, &'static str)> {
    seq![
        ("EQNR.OL", "Equinor", "Oil & gas"),
        ("AKRBP.OL", "Aker BP", "Oil & gas"),
        ("VAR.OL", "Vår Energi", "Oil & gas"),
        ("DNO.OL", "DNO", "Oil & gas"),
        ("OKEA.OL", "OKEA", "Oil & gas"),
        ("BWO.OL", "BW Offshore", "Oil & gas"),
        ("SUBC.OL", "Subsea 7", "Oil services"),
        ("AKSO.OL", "Aker Solutions", "Oil services"),
        ("TGS.OL", "TGS", "Oil services"),
        ("ODL.OL", "Odfjell Drilling", "Drilling"),
        ("BORR.OL", "Borr Drilling", "Drilling"),
        ("SDRL", "Seadrill", "Drilling"),
        ("FRO.OL", "Frontline", "Tankers"),
        ("HAFNI.OL", "Hafnia", "Tankers"),
        ("OET.OL", "Okeanis Eco Tankers", "Tankers"),
        ("ODF.OL", "Odfjell A", "Tankers"),
        ("ODFB.OL", "Odfjell B", "Tankers"),
        ("TRMD-A.CO", "Torm", "Tankers"),
        ("DHT", "DHT Holdings", "Tankers"),
        ("INSW", "International Seaways", "Tankers"),
        ("SNI.OL", "Stolt-Nielsen", "Tankers"),
        ("2020.OL", "2020 Bulkers", "Dry bulk"),
        ("HSHP.OL", "Himalaya Shipping", "Dry bulk"),
        ("JIN.OL", "Jinhui Shipping", "Dry bulk"),
        ("KCC.OL", "Klaveness Combination Carriers", "Dry bulk"),
        ("CMBT", "CMB.TECH", "Dry bulk"),
        ("BWLPG.OL", "BW LPG", "Gas carriers"),
        ("ALNG.OL", "Awilco LNG", "Gas carriers"),
        ("FLNG", "Flex LNG", "Gas carriers"),
        ("MPCC.OL", "MPC Container Ships", "Container"),
        ("HAUTO.OL", "Höegh Autoliners", "Car carriers"),
        ("WAWI.OL", "Wallenius Wilhelmsen", "Car carriers"),
        ("MAERSK-B.CO", "A.P. Møller Mærsk B", "Container"),
        ("SFL", "SFL Corporation", "Ship owners"),
        ("SOFF.OL", "Solstad Offshore", "Offshore support"),
        ("DOFG.OL", "DOF Group", "Offshore support"),
    ]
}

fn driver_table() -> (r: Vec<(&'static str, &'static str, &'static str)>)
    ensures
        r@ == driver_rows(),
{
    let r = vec![
        ("BZ=F", "Brent crude", "Front-month future"),
        ("CL=F", "WTI crude", "Front-month future"),
        ("TTF=F", "Dutch TTF gas", "Front-month future"),
        ("NG=F", "Henry Hub gas", "Front-month future"),
        ("BDRY", "Dry bulk freight", "Fund holding freight futures"),
        ("BWET", "Tanker freight", "Fund holding freight futures"),
    ];
    assert(r@ =~= driver_rows());
    r
}

fn listing_table() -> (r: Vec<(&'static str, &'static str, &'static str)>)
    ensures
        r@ == listing_rows(),
{
    let r = vec![
        ("EQNR.OL", "Equinor", "Oil & gas"),
        ("AKRBP.OL", "Aker BP", "Oil & gas"),
        ("VAR.OL", "Vår Energi", "Oil & gas"),
        ("DNO.OL", "DNO", "Oil & gas"),
        ("OKEA.OL", "OKEA", "Oil & gas"),
        ("BWO.OL", "BW Offshore", "Oil & gas"),
        ("SUBC.OL", "Subsea 7", "Oil services"),
        ("AKSO.OL", "Aker Solutions", "Oil services"),
        ("TGS.OL", "TGS", "Oil services"),
        ("ODL.OL", "Odfjell Drilling", "Drilling"),
        ("BORR.OL", "Borr Drilling", "Drilling"),
        ("SDRL", "Seadrill", "Drilling"),
        ("FRO.OL", "Frontline", "Tankers"),
        ("HAFNI.OL", "Hafnia", "Tankers"),
        ("OET.OL", "Okeanis Eco Tankers", "Tankers"),
        ("ODF.OL", "Odfjell A", "Tankers"),
        ("ODFB.OL", "Odfjell B", "Tankers"),
        ("TRMD-A.CO", "Torm", "Tankers"),
        ("DHT", "DHT Holdings", "Tankers"),
        ("INSW", "International Seaways", "Tankers"),
        ("SNI.OL", "Stolt-Nielsen", "Tankers"),
        ("2020.OL", "2020 Bulkers", "Dry bulk"),
        ("HSHP.OL", "Himalaya Shipping", "Dry bulk"),
        ("JIN.OL", "Jinhui Shipping", "Dry bulk"),
        ("KCC.OL", "Klaveness Combination Carriers", "Dry bulk"),
        ("CMBT", "CMB.TECH", "Dry bulk"),
        ("BWLPG.OL", "BW LPG", "Gas carriers"),
        ("ALNG.OL", "Awilco LNG", "Gas carriers"),
        ("FLNG", "Flex LNG", "Gas carriers"),
        ("MPCC.OL", "MPC Container Ships", "Container"),
        ("HAUTO.OL", "Höegh Autoliners", "Car carriers"),
        ("WAWI.OL", "Wallenius Wilhelmsen", "Car carriers"),
        ("MAERSK-B.CO", "A.P. Møller Mærsk B", "Container"),
        ("SFL", "SFL Corporation", "Ship owners"),
        ("SOFF.OL", "Solstad Offshore", "Offshore support"),
        ("DOFG.OL", "DOF Group", "Offshore support"),
    ];
    assert(r@ =~= listing_rows());
    r
}

/// The index of the first row whose first column is `key`, if any.
pub open spec fn first_row(
    rows: Seq<(&'static str, &'static str, &'static str)>,
    key: Seq<char>,
) -> Option<int>
    decreases rows.len(),
{
    if rows.len() == 0 {
        None
    } else if rows[0].0@ == key {
        Some(0)
    } else {
        match first_row(rows.drop_first(), key) {
            Some(i) => Some(i + 1),
            None => None,
        }
    }
}

proof fn lemma_first_row(rows: Seq<(&'static str, &'static str, &'static str)>, key: Seq<char>)
    ensures
        first_row(rows, key) matches Some(i) ==> 0 <= i < rows.len() && rows[i].0@ == key,
    decreases rows.len(),
{
    if rows.len() > 0 && rows[0].0@ != key {
        lemma_first_row(rows.drop_first(), key);
    }
}

fn find_row(rows: &Vec<(&'static str, &'static str, &'static str)>, key: &str) -> (r: Option<
    usize,
>)
    ensures
        match first_row(rows@, key@) {
            Some(i) => r == Some(i as usize),
            None => r is None,
        },
{
    let want = chars_of(key);
    let mut i: usize = 0;
    assert(rows@.skip(0) =~= rows@);
    while i < rows.len()
        invariant
            i <= rows@.len(),
            want@ == key@,
            first_row(rows@, key@) == (match first_row(rows@.skip(i as int), key@) {
                Some(j) => Some(j + i),
                None => None::<int>,
            }),
        decreases rows@.len() - i,
    {
        proof {
            assert(rows@.skip(i as int)[0] == rows@[i as int]);
            assert(rows@.skip(i as int).drop_first() =~= rows@.skip(i as int + 1));
        }
        if chars_eq(&chars_of(rows[i].0), &want) {
            return Some(i);
        }
        i += 1;
    }
    None
}

/// The driver with this symbol.
pub open spec fn driver_spec(symbol: Seq<char>) -> Option<Driver> {
    match first_row(driver_rows(), symbol) {
        Some(i) => Some(
            Driver { symbol: driver_rows()[i].0, name: driver_rows()[i].1, kind: driver_rows()[i].2 },
        ),
        None => None,
    }
}

pub fn driver_of(symbol: &str) -> (r: Option<Driver>)
    ensures
        r == driver_spec(symbol@),
{
    let rows = driver_table();
    proof {
        lemma_first_row(rows@, symbol@);
    }
    match find_row(&rows, symbol) {
        Some(i) => {
            let (s, n, k) = rows[i];
            Some(Driver { symbol: s, name: n, kind: k })
        },
        None => None,
    }
}

/// The listed name of an energy or shipping ticker.
pub open spec fn name_spec(ticker: Seq<char>) -> Option<&'static str> {
    match first_row(listing_rows(), ticker) {
        Some(i) => Some(listing_rows()[i].1),
        None => None,
    }
}

pub fn name_of(ticker: &str) -> (r: Option<&'static str>)
    ensures
        r == name_spec(ticker@),
{
    let rows = listing_table();
    proof {
        lemma_first_row(rows@, ticker@);
    }
    match find_row(&rows, ticker) {
        Some(i) => Some(rows[i].1),
        None => None,
    }
}

/// What an energy or shipping ticker carries: "Tankers", "Drilling" and the like.
pub open spec fn kind_spec(ticker: Seq<char>) -> Option<&'static str> {
    match first_row(listing_rows(), ticker) {
        Some(i) => Some(listing_rows()[i].2),
        None => None,
    }
}

pub fn kind_of(ticker: &str) -> (r: Option<&'static str>)
    ensures
        r == kind_spec(ticker@),
{
    let rows = listing_table();
    proof {
        lemma_first_row(rows@, ticker@);
    }
    match find_row(&rows, ticker) {
        Some(i) => Some(rows[i].2),
        None => None,
    }
}

/// The name a listing is shown under: its listed name, or the ticker where it has none.
pub open spec fn named(ticker: Seq<char>) -> Seq<char> {
    match name_spec(ticker) {
        Some(n) => n@,
        None => ticker,
    }
}

/// The kind a listing is shown as: its energy or shipping kind, or "Held" for one the
/// portfolio brought that is outside that set.
pub open spec fn kinded(ticker: Seq<char>) -> Seq<char> {
    match kind_spec(ticker) {
        Some(k) => k@,
        None => "Held"@,
    }
}

/// A listing as the driver screen labels it: its column in the matrix, its ticker, name and
/// kind, and whether the portfolio holds it. The figures beside it are the caller's.
pub struct Label {
    pub column: usize,
    pub ticker: String,
    pub name: String,
    pub kind: String,
    pub owned: bool,
}

pub open spec fn label_views(ls: Seq<Label>) -> Seq<(int, Seq<char>, Seq<char>, Seq<char>, bool)> {
    ls.map_values(|l: Label| (l.column as int, l.ticker@, l.name@, l.kind@, l.owned))
}

/// The labels of the first `n` columns, every one but the driver's `d`, in column order.
pub open spec fn labels_upto(
    symbols: Seq<Seq<char>>,
    d: int,
    owned: Seq<Seq<char>>,
    n: nat,
) -> Seq<(int, Seq<char>, Seq<char>, Seq<char>, bool)>
    decreases n,
{
    if n == 0 {
        Seq::empty()
    } else {
        let rest = labels_upto(symbols, d, owned, (n - 1) as nat);
        let i = n - 1;
        if i == d {
            rest
        } else {
            let t = symbols[i];
            rest.push((i, t, named(t), kinded(t), owned.contains(t)))
        }
    }
}

/// Where the driver stands among the measured columns, and a label for every other column in
/// order. `None` when the driver itself could not be measured, so that nothing can be measured
/// against it and the caller names it among the unusable.
pub fn labels(symbols: &[String], driver: &str, owned: &[String]) -> (r: Option<
    (usize, Vec<Label>),
>)
    ensures
        match position_of(texts(symbols@), driver@) {
            None => r is None,
            Some(d) => r matches Some((at, ls)) && at == d && label_views(ls@) == labels_upto(
                texts(symbols@),
                d,
                texts(owned@),
                symbols@.len(),
            ),
        },
{
    let d = match position(symbols, &String::from_str(driver)) {
        Some(d) => d,
        None => return None,
    };
    let ghost sy = texts(symbols@);
    let ghost ow = texts(owned@);
    proof {
        assert(key_texts(owned@) =~= ow);
    }
    let mut out: Vec<Label> = Vec::new();
    let mut i: usize = 0;
    assert(label_views(out@) =~= labels_upto(sy, d as int, ow, 0));
    while i < symbols.len()
        invariant
            i <= symbols@.len(),
            sy == texts(symbols@),
            ow == texts(owned@),
            key_texts(owned@) == ow,
            label_views(out@) == labels_upto(sy, d as int, ow, i as nat),
        decreases symbols@.len() - i,
    {
        if i != d {
            let t = &symbols[i];
            assert(sy[i as int] == t@);
            let name = match name_of(t.as_str()) {
                Some(n) => String::from_str(n),
                None => t.clone(),
            };
            let kind = match kind_of(t.as_str()) {
                Some(k) => String::from_str(k),
                None => String::from_str("Held"),
            };
            let owned_now = contains_key(owned, t);
            let ghost before = label_views(out@);
            out.push(Label { column: i, ticker: t.clone(), name, kind, owned: owned_now });
            assert(label_views(out@) =~= before.push(
                (i as int, sy[i as int], named(sy[i as int]), kinded(sy[i as int]), ow.contains(
                    sy[i as int],
                )),
            ));
        }
        i += 1;
    }
    Some((d, out))
}

} // verus!
