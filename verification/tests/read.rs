use fits_header::Header;

fn card(s: &str) -> Vec<u8> {
    let mut b = s.as_bytes().to_vec();
    b.resize(80, b' ');
    b
}

fn build(cards: &[&str]) -> Vec<u8> {
    let mut out = Vec::new();
    for c in cards {
        out.extend(card(c));
    }
    out.extend(card("END"));
    while out.len() % 2880 != 0 {
        out.push(b' ');
    }
    out
}

#[test]
fn reads_string_and_numeric() {
    let bytes = build(&[
        "SIMPLE  =                    T",
        "OBJECT  = 'M31     '",
        "EXPTIME = 120.0 / seconds",
    ]);
    let h = Header::parse(&bytes).unwrap();
    assert_eq!(h.get_str("OBJECT").unwrap(), Some("M31"));
    let exptime = h.get::<String>("EXPTIME").unwrap();
    assert_eq!(exptime.as_deref().map(|t| t.parse::<f64>().unwrap()), Some(120.0));
    assert_eq!(exptime.as_deref(), Some("120.0"));
}

#[test]
fn retains_commentary() {
    let bytes = build(&[
        "HISTORY calibrated 2026-07-11",
        "COMMENT hello world",
        "OBJECT  = 'X       '",
    ]);
    let h = Header::parse(&bytes).unwrap();
    assert_eq!(
        h.get_all::<String>("HISTORY"),
        vec!["calibrated 2026-07-11".to_string()]
    );
    assert_eq!(
        h.get_all::<String>("COMMENT"),
        vec!["hello world".to_string()]
    );
    assert_eq!(h.get_str("OBJECT").unwrap(), Some("X"));
}

#[test]
fn reassembles_continue() {
    let bytes = build(&["LONGKEY = 'aaa&'", "CONTINUE  'bbb'"]);
    let h = Header::parse(&bytes).unwrap();
    assert_eq!(h.get_str("LONGKEY").unwrap(), Some("aaabbb"));
    assert_eq!(h.count("LONGKEY"), 1);
}

#[test]
fn literal_trailing_ampersand_is_kept() {
    let bytes = build(&["TAG     = 'a&b&'"]);
    let h = Header::parse(&bytes).unwrap();
    assert_eq!(h.get_str("TAG").unwrap(), Some("a&b&"));
}

#[test]
fn stops_at_end() {
    let mut bytes = build(&["OBJECT  = 'X       '"]);
    bytes.extend(card("BOGUS   = 'Y       '"));
    while bytes.len() % 2880 != 0 {
        bytes.push(b' ');
    }
    let h = Header::parse(&bytes).unwrap();
    assert_eq!(h.get_str("OBJECT").unwrap(), Some("X"));
    assert_eq!(h.get_str("BOGUS").unwrap(), None);
}

#[test]
fn empty_string_reads_as_none() {
    let bytes = build(&["BLANK   = '        '"]);
    let h = Header::parse(&bytes).unwrap();
    assert_eq!(h.get_str("BLANK").unwrap(), None);
    assert_eq!(h.count("BLANK"), 1);
}

#[test]
fn unescapes_doubled_quotes() {
    let bytes = build(&["NAME    = 'O''Brien '"]);
    let h = Header::parse(&bytes).unwrap();
    assert_eq!(h.get_str("NAME").unwrap(), Some("O'Brien"));
}

#[test]
fn opaque_and_blank_cards_are_kept() {
    let bytes = build(&["HIERARCH ESO DET DIT = 10.0", "", "        free text"]);
    let h = Header::parse(&bytes).unwrap();
    assert_eq!(h.cards().len(), 3);
    assert_eq!(h.cards()[0].keyword(), None);
    assert_eq!(h.cards()[2].value_text(), Some("free text"));
    assert_eq!(h.to_header_bytes(), bytes);
}

#[test]
fn invalid_utf8_is_replaced_not_rejected() {
    let mut c = card("OBJECT  = 'M31     '");
    c[12] = 0xFF;
    let mut bytes = c;
    bytes.extend(card("END"));
    while bytes.len() % 2880 != 0 {
        bytes.push(b' ');
    }
    let h = Header::parse(&bytes).unwrap();
    assert_eq!(h.get_str("OBJECT").unwrap(), Some("M\u{FFFD}1"));
    assert_eq!(h.to_header_bytes(), bytes);
}
