use meridian::import::{
    collapse_whitespace,
    decode, in_currency, norm, number_text, parse, search_terms, separator, ImportError,
};
use meridian::quotes::Quote;

fn num(cell: &str) -> Option<f64> {
    number_text(cell).map(|t| t.parse::<f64>().expect("a float literal"))
}

fn shares(r: &meridian::import::Row) -> f64 {
    r.shares.parse::<f64>().expect("a float literal")
}

fn gav(r: &meridian::import::Row) -> f64 {
    r.gav.as_deref().map(|g| g.parse::<f64>().expect("a float literal")).unwrap_or(0.0)
}

fn utf16le(text: &str) -> Vec<u8> {
    let mut raw = vec![0xff, 0xfe];
    for u in text.encode_utf16() {
        raw.extend_from_slice(&u.to_le_bytes());
    }
    raw
}

#[test]
fn a_decimal_comma_survives_a_thousands_separator_of_either_kind() {
    assert_eq!(num("307 300,50"), Some(307_300.5)); // ordinary space
    assert_eq!(num("307\u{a0}300,50"), Some(307_300.5)); // non-breaking space
    assert_eq!(num("-864,2"), Some(-864.2));
    assert_eq!(num("59,6"), Some(59.6));
    assert_eq!(num("0"), Some(0.0));
    assert_eq!(num(""), None);
    assert_eq!(num("n/a"), None);
}

#[test]
fn a_semicolon_separated_latin1_export_parses_too() {
    // Latin-1 has no BOM to detect, so it is what the decoder falls back to when the bytes are
    // not valid UTF-8.
    let mut raw: Vec<u8> = Vec::new();
    raw.extend_from_slice("Navn;Valuta;Antall;GAV\n".as_bytes());
    raw.extend_from_slice(b"Norsk Hydro ASA;NOK;500;62,50\n");
    let at = raw.len() - 20;
    raw[at] = 0xf8; // a Latin-1 'o with stroke' inside the name
    let rows = parse(&raw).expect("parses");
    assert_eq!(rows.len(), 1);
    assert_eq!(shares(&rows[0]), 500.0);
    assert_eq!(gav(&rows[0]), 62.5);
    assert_eq!(rows[0].name, "Norsk Hydr\u{f8} ASA");
}

#[test]
fn a_header_column_is_matched_through_a_non_breaking_space() {
    // A header that differs from its alias by an invisible character must not read as a
    // missing column.
    let raw = "Navn\tValuta\tAntall\u{a0}\tGAV\nHydro\tNOK\t10\t1,5\n";
    assert_eq!(shares(&parse(raw.as_bytes()).expect("parses")[0]), 10.0);
}

#[test]
fn a_file_with_no_shares_column_is_refused_by_name() {
    let raw = "Navn;Valuta;GAV\nHydro;NOK;62,50\n";
    assert_eq!(
        parse(raw.as_bytes()),
        Err(ImportError::MissingColumn("Antall"))
    );
}

#[test]
fn a_header_with_no_rows_under_it_is_refused_rather_than_importing_nothing() {
    assert_eq!(parse(b"Navn;Valuta;Antall;GAV\n"), Err(ImportError::Empty));
}

#[test]
fn the_longest_search_term_comes_first_and_a_parenthetical_is_dropped_early() {
    let t = search_terms("State Street SPDR MSCI All Country World UCITS ETF (Acc)");
    assert_eq!(
        t[0],
        "State Street SPDR MSCI All Country World UCITS ETF (Acc)"
    );
    assert_eq!(t[1], "State Street SPDR MSCI All Country World UCITS ETF");
}

#[test]
fn trailing_words_come_off_one_at_a_time_until_two_are_left() {
    let t = search_terms("Xtrackers NASDAQ 100 ETF 1C");
    assert!(t.contains(&"Xtrackers NASDAQ 100".to_string()), "{t:?}");
    assert!(t.iter().all(|s| s.split_whitespace().count() >= 2), "{t:?}");
}

#[test]
fn search_terms_shorten_word_by_word_without_repeating() {
    assert_eq!(
        search_terms("Xtrackers NASDAQ 100 ETF 1C"),
        vec![
            "Xtrackers NASDAQ 100 ETF 1C",
            "Xtrackers NASDAQ 100 ETF",
            "Xtrackers NASDAQ 100",
            "Xtrackers NASDAQ",
        ]
    );
    assert_eq!(search_terms("  Equinor  "), vec!["Equinor"]);
}

#[test]
fn candidates_in_the_wrong_currency_are_dropped() {
    // The same fund lists in London in GBP and in Frankfurt in EUR, and pricing a EUR holding
    // off the GBP line is wrong by about 15%.
    let q = |c: &str| Quote {
        currency: c.into(),
        ts: 0,
    };
    let cands = vec![
        ("ACWD.L".to_string(), q("GBP")),
        ("SPYY.DE".to_string(), q("EUR")),
        ("ACWE.PA".to_string(), q("EUR")),
    ];
    let kept: Vec<String> = in_currency(&cands, "EUR")
        .iter()
        .map(|(s, _)| s.clone())
        .collect();
    assert_eq!(kept, vec!["SPYY.DE", "ACWE.PA"]);
    let lower: Vec<String> = in_currency(&cands, "gbp")
        .iter()
        .map(|(s, _)| s.clone())
        .collect();
    assert_eq!(lower, vec!["ACWD.L"]);
}

#[test]
fn a_utf16_tab_separated_export_parses_despite_calling_itself_a_csv() {
    let raw = utf16le(
        "Navn\tValuta\tAntall\tGAV\nFund (Acc)\tEUR\t100\t250\nOther ETF 1C\tUSD\t1\u{a0}000\t12,5\n",
    );
    let rows = parse(&raw).expect("parses");
    assert_eq!(rows.len(), 2);
    assert_eq!(rows[0].name, "Fund (Acc)");
    assert_eq!(rows[0].currency, "EUR");
    assert_eq!(shares(&rows[0]), 100.0);
    assert_eq!(gav(&rows[0]), 250.0);
    assert_eq!(shares(&rows[1]), 1000.0);
    assert_eq!(gav(&rows[1]), 12.5);
}

#[test]
fn bytes_are_decoded_by_their_byte_order_mark() {
    assert_eq!(decode(&[0xff, 0xfe, b'a', 0, b'b', 0]), "ab");
    assert_eq!(decode(&[0xfe, 0xff, 0, b'a', 0, b'b']), "ab");
    assert_eq!(decode(&[0xef, 0xbb, 0xbf, b'h', b'i']), "hi");
    assert_eq!(decode("blå".as_bytes()), "blå");
    assert_eq!(decode(&[b'b', b'l', 0xe5]), "bl\u{e5}");
}

#[test]
fn header_cells_are_compared_in_one_normal_form() {
    assert_eq!(norm("  Avkast.\u{a0}NOK "), "avkast. nok");
    assert_eq!(norm("Antall\u{a0}"), "antall");
    assert_eq!(norm("GAV   Snitt"), "gav snitt");
}

#[test]
fn the_separator_is_the_most_frequent_candidate() {
    assert_eq!(separator("a\tb\tc"), '\t');
    assert_eq!(separator("a;b;c"), ';');
    assert_eq!(separator("a,b,c"), ',');
    assert_eq!(separator("abc"), ',');
    assert_eq!(separator("a;b\tc"), ';');
}

#[test]
fn a_column_is_found_by_any_of_its_aliases() {
    let headers: Vec<String> = ["verdipapir", "valuta", "beholdning"]
        .iter()
        .map(|s| s.to_string())
        .collect();
    assert_eq!(meridian::import::column(&headers, &["antall", "beholdning"]), Some(2));
    assert_eq!(meridian::import::column(&headers, &["navn", "verdipapir"]), Some(0));
    assert_eq!(meridian::import::column(&headers, &["gav"]), None);
    let raw: Vec<String> = vec!["Beholdning".to_string()];
    assert_eq!(
        meridian::import::column(&raw, &["beholdning"]),
        None,
        "headers are compared as given; parse normalises them first"
    );
}

#[test]
fn a_refusal_reads_as_a_sentence() {
    assert_eq!(
        ImportError::MissingColumn("Antall").message(),
        "this file has no Antall column, so it is not a positions export"
    );
    assert_eq!(
        ImportError::Empty.message(),
        "this file has a header but no positions in it"
    );
}

#[test]
fn the_currency_is_read_in_upper_case_and_may_be_missing() {
    let rows = parse(b"Navn;Valuta;Antall;GAV\nHydro;nok;10;1,5\n").expect("parses");
    assert_eq!(rows[0].currency, "NOK");
    let rows = parse(b"Navn;Antall;GAV\nHydro;10;1,5\n").expect("parses");
    assert_eq!(rows[0].currency, "");
}

#[test]
fn inner_runs_of_whitespace_collapse_to_one_space() {
    assert_eq!(collapse_whitespace("  antall \t  aksjer \n"), "antall aksjer");
    assert_eq!(collapse_whitespace("   "), "");
}
