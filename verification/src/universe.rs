//! The shipped market list the discovery search draws candidates from: the Oslo main list by
//! turnover, plus the Stockholm and Copenhagen large caps.
//!
//! A fixed list, not a downloaded index: a hundred and some symbols cannot fail at runtime. It goes
//! stale instead, which is visible: a delisted symbol has no history, so it is reported as
//! unusable rather than quietly skipped.

use vstd::prelude::*;

use crate::import::texts;
use crate::text::{chars_eq, chars_of};

verus! {

pub const OSLO: &'static str = "Oslo Børs";

pub const STOCKHOLM: &'static str = "Stockholm";

pub const COPENHAGEN: &'static str = "Copenhagen";

/// One listed equity: its Yahoo symbol, its name, and the market it trades on.
#[derive(Clone, Copy, Debug, PartialEq, Eq)]
pub struct Listing {
    pub symbol: &'static str,
    pub name: &'static str,
    pub market: &'static str,
}

pub fn l(symbol: &'static str, name: &'static str, market: &'static str) -> (r: Listing)
    ensures
        r == (Listing { symbol, name, market }),
{
    Listing { symbol, name, market }
}

/// A market's (symbol, name) pairs as listings on that market.
pub open spec fn at_market(pairs: Seq<(&'static str, &'static str)>, market: &'static str) -> Seq<
    Listing,
>
    decreases pairs.len(),
{
    if pairs.len() == 0 {
        Seq::<Listing>::empty()
    } else {
        let p = pairs.last();
        at_market(pairs.drop_last(), market).push(Listing { symbol: p.0, name: p.1, market })
    }
}

/// Oslo Børs main-list equities, ranked by the turnover of the day the list was taken.
pub open spec fn oslo_names() -> Seq<(&'static str, &'static str)> {
    seq![
        ("KOG.OL", "Kongsberg Gruppen"),
        ("EQNR.OL", "Equinor"),
        ("DNB.OL", "Dnb Bank"),
        ("FRO.OL", "Frontline"),
        ("AKRBP.OL", "Aker Bp"),
        ("NHY.OL", "Norsk Hydro"),
        ("TOM.OL", "Tomra Systems"),
        ("TEL.OL", "Telenor"),
        ("MOWI.OL", "Mowi"),
        ("YAR.OL", "Yara International"),
        ("VAR.OL", "Vår Energi"),
        ("VENDB.OL", "Vend Ser. B"),
        ("ORK.OL", "Orkla"),
        ("SALM.OL", "Salmar"),
        ("NOD.OL", "Nordic Semiconduc"),
        ("BWLPG.OL", "Bw Lpg"),
        ("VENDA.OL", "Vend Ser. A"),
        ("STB.OL", "Storebrand"),
        ("HAFNI.OL", "Hafnia Limited"),
        ("GJF.OL", "Gjensidige Forsikr"),
        ("BAKKA.OL", "Bakkafrost"),
        ("SUBC.OL", "Subsea 7"),
        ("NAS.OL", "Norwegian Air Shut"),
        ("HAUTO.OL", "Höegh Autoliners"),
        ("HEX.OL", "Hexagon Composites"),
        ("DOFG.OL", "Dof Group"),
        ("ELK.OL", "Elkem"),
        ("MPCC.OL", "Mpc Container Ship"),
        ("SNI.OL", "Stolt-Nielsen"),
        ("DNO.OL", "Dno"),
        ("CMBTO.OL", "Cmb.Tech"),
        ("LINK.OL", "Link Mobility Grp"),
        ("WAWI.OL", "Wallenius Wilhelms"),
        ("SB1NO.OL", "Sparebank 1 Sør-N"),
        ("AKSO.OL", "Aker Solutions"),
        ("PROT.OL", "Protector Forsikrg"),
        ("AUTO.OL", "Autostore Holdings"),
        ("KIT.OL", "Kitron"),
        ("REACH.OL", "Reach Subsea"),
        ("AKER.OL", "Aker"),
        ("GSF.OL", "Grieg Seafood"),
        ("NEL.OL", "Nel"),
        ("2020.OL", "2020 Bulkers"),
        ("EPR.OL", "Europris"),
        ("LSG.OL", "Lerøy Seafood Gp"),
        ("ODL.OL", "Odfjell Drilling"),
        ("MING.OL", "Sparebank 1 Smn"),
        ("SATS.OL", "Sats"),
        ("NORBT.OL", "Norbit"),
        ("CADLR.OL", "Cadeler"),
        ("OTEC.OL", "Otello Corporation"),
        ("SCATC.OL", "Scatec"),
        ("SBNOR.OL", "Sparebanken Norge"),
        ("OET.OL", "Okeanis Eco Tanker"),
        ("TGS.OL", "Tgs"),
        ("HSHP.OL", "Himalaya Shipping"),
        ("TRMED.OL", "Thor Medical"),
        ("AUSS.OL", "Austevoll Seafood"),
        ("ZAP.OL", "Zaptec"),
        ("NRC.OL", "Nrc Group"),
        ("VEI.OL", "Veidekke"),
        ("ZAL.OL", "Zalaris"),
        ("NONG.OL", "Spbk1 Nord-Norge"),
        ("PUBLI.OL", "Public Property In"),
        ("ENDUR.OL", "Endúr"),
        ("PEXIP.OL", "Pexip Holding"),
        ("BRG.OL", "Borregaard"),
        ("ENVIP.OL", "Envipco Holding"),
        ("NORCO.OL", "Norconsult"),
        ("ELMRA.OL", "Elmera Group"),
    ]
}

/// Stockholm large caps.
pub open spec fn stockholm_names() -> Seq<(&'static str, &'static str)> {
    seq![
        ("ABB.ST", "ABB"),
        ("ALFA.ST", "Alfa Laval"),
        ("ASSA-B.ST", "Assa Abloy B"),
        ("ATCO-A.ST", "Atlas Copco A"),
        ("ATCO-B.ST", "Atlas Copco B"),
        ("AZN.ST", "AstraZeneca"),
        ("BOL.ST", "Boliden"),
        ("ELUX-B.ST", "Electrolux B"),
        ("EPI-A.ST", "Epiroc A"),
        ("ERIC-B.ST", "Ericsson B"),
        ("ESSITY-B.ST", "Essity B"),
        ("EVO.ST", "Evolution"),
        ("GETI-B.ST", "Getinge B"),
        ("HEXA-B.ST", "Hexagon B"),
        ("HM-B.ST", "Hennes & Mauritz B"),
        ("INVE-B.ST", "Investor B"),
        ("KINV-B.ST", "Kinnevik B"),
        ("NDA-SE.ST", "Nordea Bank"),
        ("NIBE-B.ST", "Nibe Industrier B"),
        ("SAAB-B.ST", "Saab B"),
        ("SAND.ST", "Sandvik"),
        ("SCA-B.ST", "Svenska Cellulosa B"),
        ("SEB-A.ST", "SEB A"),
        ("SHB-A.ST", "Handelsbanken A"),
        ("SINCH.ST", "Sinch"),
        ("SKF-B.ST", "SKF B"),
        ("SWED-A.ST", "Swedbank A"),
        ("TEL2-B.ST", "Tele2 B"),
        ("TELIA.ST", "Telia"),
        ("VOLV-B.ST", "Volvo B"),
    ]
}

/// Copenhagen large caps. Yahoo carries the Copenhagen Sydbank line as ALSYDB.CO, not SYDB.CO.
pub open spec fn copenhagen_names() -> Seq<(&'static str, &'static str)> {
    seq![
        ("AMBU-B.CO", "Ambu B"),
        ("BAVA.CO", "Bavarian Nordic"),
        ("CARL-B.CO", "Carlsberg B"),
        ("COLO-B.CO", "Coloplast B"),
        ("DANSKE.CO", "Danske Bank"),
        ("DEMANT.CO", "Demant"),
        ("DSV.CO", "DSV"),
        ("FLS.CO", "FLSmidth"),
        ("GMAB.CO", "Genmab"),
        ("GN.CO", "GN Store Nord"),
        ("ISS.CO", "ISS"),
        ("MAERSK-B.CO", "A.P. Moller Maersk B"),
        ("NKT.CO", "NKT"),
        ("NOVO-B.CO", "Novo Nordisk B"),
        ("NSIS-B.CO", "Novonesis B"),
        ("ORSTED.CO", "Orsted"),
        ("PNDORA.CO", "Pandora"),
        ("RBREW.CO", "Royal Unibrew"),
        ("ROCK-B.CO", "Rockwool B"),
        ("ALSYDB.CO", "Sydbank"),
        ("TRYG.CO", "Tryg"),
        ("VWS.CO", "Vestas Wind Systems"),
        ("ZEAL.CO", "Zealand Pharma"),
    ]
}

/// Every listing, Oslo first, then Stockholm, then Copenhagen.
pub open spec fn listing_table() -> Seq<Listing> {
    at_market(oslo_names(), OSLO) + at_market(stockholm_names(), STOCKHOLM) + at_market(
        copenhagen_names(),
        COPENHAGEN,
    )
}

fn oslo_pairs() -> (r: Vec<(&'static str, &'static str)>)
    ensures
        r@ == oslo_names(),
{
    let r = vec![
        ("KOG.OL", "Kongsberg Gruppen"),
        ("EQNR.OL", "Equinor"),
        ("DNB.OL", "Dnb Bank"),
        ("FRO.OL", "Frontline"),
        ("AKRBP.OL", "Aker Bp"),
        ("NHY.OL", "Norsk Hydro"),
        ("TOM.OL", "Tomra Systems"),
        ("TEL.OL", "Telenor"),
        ("MOWI.OL", "Mowi"),
        ("YAR.OL", "Yara International"),
        ("VAR.OL", "Vår Energi"),
        ("VENDB.OL", "Vend Ser. B"),
        ("ORK.OL", "Orkla"),
        ("SALM.OL", "Salmar"),
        ("NOD.OL", "Nordic Semiconduc"),
        ("BWLPG.OL", "Bw Lpg"),
        ("VENDA.OL", "Vend Ser. A"),
        ("STB.OL", "Storebrand"),
        ("HAFNI.OL", "Hafnia Limited"),
        ("GJF.OL", "Gjensidige Forsikr"),
        ("BAKKA.OL", "Bakkafrost"),
        ("SUBC.OL", "Subsea 7"),
        ("NAS.OL", "Norwegian Air Shut"),
        ("HAUTO.OL", "Höegh Autoliners"),
        ("HEX.OL", "Hexagon Composites"),
        ("DOFG.OL", "Dof Group"),
        ("ELK.OL", "Elkem"),
        ("MPCC.OL", "Mpc Container Ship"),
        ("SNI.OL", "Stolt-Nielsen"),
        ("DNO.OL", "Dno"),
        ("CMBTO.OL", "Cmb.Tech"),
        ("LINK.OL", "Link Mobility Grp"),
        ("WAWI.OL", "Wallenius Wilhelms"),
        ("SB1NO.OL", "Sparebank 1 Sør-N"),
        ("AKSO.OL", "Aker Solutions"),
        ("PROT.OL", "Protector Forsikrg"),
        ("AUTO.OL", "Autostore Holdings"),
        ("KIT.OL", "Kitron"),
        ("REACH.OL", "Reach Subsea"),
        ("AKER.OL", "Aker"),
        ("GSF.OL", "Grieg Seafood"),
        ("NEL.OL", "Nel"),
        ("2020.OL", "2020 Bulkers"),
        ("EPR.OL", "Europris"),
        ("LSG.OL", "Lerøy Seafood Gp"),
        ("ODL.OL", "Odfjell Drilling"),
        ("MING.OL", "Sparebank 1 Smn"),
        ("SATS.OL", "Sats"),
        ("NORBT.OL", "Norbit"),
        ("CADLR.OL", "Cadeler"),
        ("OTEC.OL", "Otello Corporation"),
        ("SCATC.OL", "Scatec"),
        ("SBNOR.OL", "Sparebanken Norge"),
        ("OET.OL", "Okeanis Eco Tanker"),
        ("TGS.OL", "Tgs"),
        ("HSHP.OL", "Himalaya Shipping"),
        ("TRMED.OL", "Thor Medical"),
        ("AUSS.OL", "Austevoll Seafood"),
        ("ZAP.OL", "Zaptec"),
        ("NRC.OL", "Nrc Group"),
        ("VEI.OL", "Veidekke"),
        ("ZAL.OL", "Zalaris"),
        ("NONG.OL", "Spbk1 Nord-Norge"),
        ("PUBLI.OL", "Public Property In"),
        ("ENDUR.OL", "Endúr"),
        ("PEXIP.OL", "Pexip Holding"),
        ("BRG.OL", "Borregaard"),
        ("ENVIP.OL", "Envipco Holding"),
        ("NORCO.OL", "Norconsult"),
        ("ELMRA.OL", "Elmera Group"),
    ];
    assert(r@ =~= oslo_names());
    r
}

fn stockholm_pairs() -> (r: Vec<(&'static str, &'static str)>)
    ensures
        r@ == stockholm_names(),
{
    let r = vec![
        ("ABB.ST", "ABB"),
        ("ALFA.ST", "Alfa Laval"),
        ("ASSA-B.ST", "Assa Abloy B"),
        ("ATCO-A.ST", "Atlas Copco A"),
        ("ATCO-B.ST", "Atlas Copco B"),
        ("AZN.ST", "AstraZeneca"),
        ("BOL.ST", "Boliden"),
        ("ELUX-B.ST", "Electrolux B"),
        ("EPI-A.ST", "Epiroc A"),
        ("ERIC-B.ST", "Ericsson B"),
        ("ESSITY-B.ST", "Essity B"),
        ("EVO.ST", "Evolution"),
        ("GETI-B.ST", "Getinge B"),
        ("HEXA-B.ST", "Hexagon B"),
        ("HM-B.ST", "Hennes & Mauritz B"),
        ("INVE-B.ST", "Investor B"),
        ("KINV-B.ST", "Kinnevik B"),
        ("NDA-SE.ST", "Nordea Bank"),
        ("NIBE-B.ST", "Nibe Industrier B"),
        ("SAAB-B.ST", "Saab B"),
        ("SAND.ST", "Sandvik"),
        ("SCA-B.ST", "Svenska Cellulosa B"),
        ("SEB-A.ST", "SEB A"),
        ("SHB-A.ST", "Handelsbanken A"),
        ("SINCH.ST", "Sinch"),
        ("SKF-B.ST", "SKF B"),
        ("SWED-A.ST", "Swedbank A"),
        ("TEL2-B.ST", "Tele2 B"),
        ("TELIA.ST", "Telia"),
        ("VOLV-B.ST", "Volvo B"),
    ];
    assert(r@ =~= stockholm_names());
    r
}

fn copenhagen_pairs() -> (r: Vec<(&'static str, &'static str)>)
    ensures
        r@ == copenhagen_names(),
{
    let r = vec![
        ("AMBU-B.CO", "Ambu B"),
        ("BAVA.CO", "Bavarian Nordic"),
        ("CARL-B.CO", "Carlsberg B"),
        ("COLO-B.CO", "Coloplast B"),
        ("DANSKE.CO", "Danske Bank"),
        ("DEMANT.CO", "Demant"),
        ("DSV.CO", "DSV"),
        ("FLS.CO", "FLSmidth"),
        ("GMAB.CO", "Genmab"),
        ("GN.CO", "GN Store Nord"),
        ("ISS.CO", "ISS"),
        ("MAERSK-B.CO", "A.P. Moller Maersk B"),
        ("NKT.CO", "NKT"),
        ("NOVO-B.CO", "Novo Nordisk B"),
        ("NSIS-B.CO", "Novonesis B"),
        ("ORSTED.CO", "Orsted"),
        ("PNDORA.CO", "Pandora"),
        ("RBREW.CO", "Royal Unibrew"),
        ("ROCK-B.CO", "Rockwool B"),
        ("ALSYDB.CO", "Sydbank"),
        ("TRYG.CO", "Tryg"),
        ("VWS.CO", "Vestas Wind Systems"),
        ("ZEAL.CO", "Zealand Pharma"),
    ];
    assert(r@ =~= copenhagen_names());
    r
}

fn push_market(out: &mut Vec<Listing>, pairs: &Vec<(&'static str, &'static str)>, market: &'static str)
    ensures
        final(out)@ == old(out)@ + at_market(pairs@, market),
{
    let ghost start = out@;
    let mut i: usize = 0;
    while i < pairs.len()
        invariant
            i <= pairs@.len(),
            out@ == start + at_market(pairs@.take(i as int), market),
        decreases pairs@.len() - i,
    {
        let (symbol, name) = pairs[i];
        out.push(l(symbol, name, market));
        proof {
            let t = pairs@.take(i as int + 1);
            assert(t.drop_last() =~= pairs@.take(i as int));
            assert(t.last() == pairs@[i as int]);
            assert(out@ =~= start + at_market(t, market));
        }
        i += 1;
    }
    assert(pairs@.take(i as int) =~= pairs@);
}

/// Every listing, in the order of `listing_table`.
pub fn listings() -> (r: Vec<Listing>)
    ensures
        r@ == listing_table(),
{
    let mut r: Vec<Listing> = Vec::new();
    push_market(&mut r, &oslo_pairs(), OSLO);
    push_market(&mut r, &stockholm_pairs(), STOCKHOLM);
    push_market(&mut r, &copenhagen_pairs(), COPENHAGEN);
    assert(r@ =~= listing_table());
    r
}

/// The markets a search can be scoped to, in the order the screen offers them.
pub open spec fn market_names() -> Seq<&'static str> {
    seq![OSLO, STOCKHOLM, COPENHAGEN]
}

pub fn markets() -> (r: Vec<&'static str>)
    ensures
        r@ == market_names(),
{
    let r = vec![OSLO, STOCKHOLM, COPENHAGEN];
    assert(r@ =~= market_names());
    r
}

/// The symbols of the listings on `market`, or of all of them when `market` is empty, in order.
pub open spec fn symbols_in(ls: Seq<Listing>, market: Seq<char>) -> Seq<Seq<char>>
    decreases ls.len(),
{
    if ls.len() == 0 {
        Seq::<Seq<char>>::empty()
    } else {
        let rest = symbols_in(ls.drop_last(), market);
        let x = ls.last();
        if market.len() == 0 || x.market@ == market {
            rest.push(x.symbol@)
        } else {
            rest
        }
    }
}

/// Every symbol in a market, or in all of them when `market` names none.
pub fn in_market(market: &str) -> (r: Vec<String>)
    ensures
        texts(r@) == symbols_in(listing_table(), market@),
{
    let ls = listings();
    let want = chars_of(market);
    let mut r: Vec<String> = Vec::new();
    let mut i: usize = 0;
    while i < ls.len()
        invariant
            i <= ls@.len(),
            ls@ == listing_table(),
            want@ == market@,
            texts(r@) == symbols_in(ls@.take(i as int), market@),
        decreases ls@.len() - i,
    {
        let x = ls[i];
        let ghost t = ls@.take(i as int + 1);
        proof {
            assert(t.drop_last() =~= ls@.take(i as int));
            assert(t.last() == x);
        }
        if want.len() == 0 || chars_eq(&chars_of(x.market), &want) {
            let ghost before = r@;
            r.push(String::from_str(x.symbol));
            assert(texts(r@) =~= texts(before).push(x.symbol@));
        }
        i += 1;
    }
    assert(ls@.take(i as int) =~= ls@);
    r
}

/// The name of the first listing with this symbol, if one has it.
pub open spec fn name_in(ls: Seq<Listing>, symbol: Seq<char>) -> Option<&'static str>
    decreases ls.len(),
{
    if ls.len() == 0 {
        None
    } else if ls[0].symbol@ == symbol {
        Some(ls[0].name)
    } else {
        name_in(ls.drop_first(), symbol)
    }
}

/// The listed name for a symbol, for a screen that would otherwise show only a ticker.
pub fn name_of(symbol: &str) -> (r: Option<&'static str>)
    ensures
        r == name_in(listing_table(), symbol@),
{
    let ls = listings();
    let want = chars_of(symbol);
    let mut i: usize = 0;
    assert(ls@.skip(0) =~= ls@);
    while i < ls.len()
        invariant
            i <= ls@.len(),
            ls@ == listing_table(),
            want@ == symbol@,
            name_in(ls@.skip(i as int), symbol@) == name_in(listing_table(), symbol@),
        decreases ls@.len() - i,
    {
        let x = ls[i];
        proof {
            assert(ls@.skip(i as int)[0] == x);
            assert(ls@.skip(i as int).drop_first() =~= ls@.skip(i as int + 1));
        }
        if chars_eq(&chars_of(x.symbol), &want) {
            return Some(x.name);
        }
        i += 1;
    }
    None
}

proof fn lemma_symbols_in_concat(a: Seq<Listing>, b: Seq<Listing>, q: Seq<char>)
    ensures
        symbols_in(a + b, q) == symbols_in(a, q) + symbols_in(b, q),
    decreases b.len(),
{
    if b.len() == 0 {
        assert(a + b =~= a);
        assert(symbols_in(a, q) + symbols_in(b, q) =~= symbols_in(a, q));
    } else {
        assert((a + b).drop_last() =~= a + b.drop_last());
        assert((a + b).last() == b.last());
        lemma_symbols_in_concat(a, b.drop_last(), q);
        let x = b.last();
        if q.len() == 0 || x.market@ == q {
            assert(symbols_in(a, q) + symbols_in(b, q) =~= (symbols_in(a, q) + symbols_in(
                b.drop_last(),
                q,
            )).push(x.symbol@));
        }
    }
}

proof fn lemma_at_market(pairs: Seq<(&'static str, &'static str)>, market: &'static str, q: Seq<char>)
    ensures
        at_market(pairs, market).len() == pairs.len(),
        forall|i: int|
            0 <= i < pairs.len() ==> (#[trigger] at_market(pairs, market)[i]).market == market,
        symbols_in(at_market(pairs, market), q).len() == (if q.len() == 0 || market@ == q {
            pairs.len()
        } else {
            0
        }),
    decreases pairs.len(),
{
    if pairs.len() > 0 {
        lemma_at_market(pairs.drop_last(), market, q);
        let ls = at_market(pairs, market);
        assert(ls.drop_last() =~= at_market(pairs.drop_last(), market));
        assert forall|i: int| 0 <= i < pairs.len() implies (#[trigger] ls[i]).market == market by {
            if i < pairs.len() - 1 {
                assert(ls[i] == at_market(pairs.drop_last(), market)[i]);
            }
        }
    }
}

/// Every listing is in exactly one of the markets a search can be scoped to, so the market
/// filters split the list without loss or overlap; and no filter returns every listing.
pub proof fn law_every_listing_is_in_exactly_one_market()
    ensures
        forall|i: int|
            0 <= i < listing_table().len() ==> market_names().contains(
                (#[trigger] listing_table()[i]).market,
            ),
        symbols_in(listing_table(), OSLO@).len() + symbols_in(listing_table(), STOCKHOLM@).len()
            + symbols_in(listing_table(), COPENHAGEN@).len() == listing_table().len(),
        symbols_in(listing_table(), Seq::<char>::empty()).len() == listing_table().len(),
{
    reveal_strlit("Oslo Børs");
    reveal_strlit("Stockholm");
    reveal_strlit("Copenhagen");
    let a = at_market(oslo_names(), OSLO);
    let b = at_market(stockholm_names(), STOCKHOLM);
    let c = at_market(copenhagen_names(), COPENHAGEN);
    assert(OSLO@ != STOCKHOLM@ && OSLO@ != COPENHAGEN@ && STOCKHOLM@ != COPENHAGEN@) by {
        assert(OSLO@[0] != STOCKHOLM@[0] && OSLO@[0] != COPENHAGEN@[0]);
        assert(STOCKHOLM@[0] != COPENHAGEN@[0]);
    }
    let qs = seq![OSLO@, STOCKHOLM@, COPENHAGEN@, Seq::<char>::empty()];
    assert forall|k: int| 0 <= k < 4 implies symbols_in(listing_table(), #[trigger] qs[k])
        == symbols_in(a, qs[k]) + symbols_in(b, qs[k]) + symbols_in(c, qs[k]) by {
        lemma_symbols_in_concat(a + b, c, qs[k]);
        lemma_symbols_in_concat(a, b, qs[k]);
        lemma_at_market(oslo_names(), OSLO, qs[k]);
        lemma_at_market(stockholm_names(), STOCKHOLM, qs[k]);
        lemma_at_market(copenhagen_names(), COPENHAGEN, qs[k]);
    }
    assert(qs[0] == OSLO@ && qs[1] == STOCKHOLM@ && qs[2] == COPENHAGEN@);
    assert(qs[3] == Seq::<char>::empty());
    lemma_at_market(oslo_names(), OSLO, OSLO@);
    lemma_at_market(stockholm_names(), STOCKHOLM, OSLO@);
    lemma_at_market(copenhagen_names(), COPENHAGEN, OSLO@);
    lemma_at_market(oslo_names(), OSLO, STOCKHOLM@);
    lemma_at_market(stockholm_names(), STOCKHOLM, STOCKHOLM@);
    lemma_at_market(copenhagen_names(), COPENHAGEN, STOCKHOLM@);
    lemma_at_market(oslo_names(), OSLO, COPENHAGEN@);
    lemma_at_market(stockholm_names(), STOCKHOLM, COPENHAGEN@);
    lemma_at_market(copenhagen_names(), COPENHAGEN, COPENHAGEN@);
    lemma_at_market(oslo_names(), OSLO, Seq::<char>::empty());
    lemma_at_market(stockholm_names(), STOCKHOLM, Seq::<char>::empty());
    lemma_at_market(copenhagen_names(), COPENHAGEN, Seq::<char>::empty());
    assert forall|i: int| 0 <= i < listing_table().len() implies market_names().contains(
        (#[trigger] listing_table()[i]).market,
    ) by {
        let t = listing_table();
        if i < a.len() {
            assert(t[i] == a[i]);
            assert(market_names()[0] == OSLO);
        } else if i < a.len() + b.len() {
            assert(t[i] == b[i - a.len()]);
            assert(market_names()[1] == STOCKHOLM);
        } else {
            assert(t[i] == c[i - a.len() - b.len()]);
            assert(market_names()[2] == COPENHAGEN);
        }
    }
}

} // verus!
