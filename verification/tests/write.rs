use fits_header::Header;

fn card(s: &str) -> Vec<u8> {
    let mut b = s.as_bytes().to_vec();
    b.resize(80, b' ');
    b
}

fn build(cards: &[&str]) -> Vec<u8> {
    let mut out = Vec::new();
    for c in cards {
        out.extend(card(c));
    }
    out.extend(card("END"));
    while out.len() % 2880 != 0 {
        out.push(b' ');
    }
    out
}

#[test]
fn untouched_cards_are_byte_exact() {
    let bytes = build(&[
        "SIMPLE  =                    T",
        "OBJECT  = 'M31     '",
        "EXPTIME = 120.0 / seconds",
        "FILTER  = 'Ha      '",
    ]);
    let mut h = Header::parse(&bytes).unwrap();
    h.set("EXPTIME", fits_header::Literal("300.0")).unwrap();
    let out = h.to_header_bytes();

    assert_eq!(&out[80..160], &bytes[80..160]);
    assert_eq!(&out[240..320], &bytes[240..320]);
    assert_ne!(&out[160..240], &bytes[160..240]);
    let re = Header::parse(&out).unwrap();
    let exptime = re.get::<String>("EXPTIME").unwrap();
    assert_eq!(exptime.map(|t| t.parse::<f64>().unwrap()), Some(300.0));
}

#[test]
fn unmodified_header_roundtrips_byte_exact() {
    let bytes = build(&[
        "SIMPLE  =                    T",
        "OBJECT  = 'M31     '",
        "COMMENT some note",
    ]);
    let h = Header::parse(&bytes).unwrap();
    assert_eq!(h.to_header_bytes(), bytes);
}

#[test]
fn cards_are_80_and_padded_2880() {
    let mut h = Header::new();
    h.set("OBJECT", "X").unwrap();
    let out = h.to_header_bytes();
    assert_eq!(out.len() % 80, 0);
    assert_eq!(out.len() % 2880, 0);
}

#[test]
fn untouched_continue_run_is_byte_exact() {
    let bytes = build(&[
        "LONGKEY = 'aaa&'",
        "CONTINUE  'bbb&'",
        "CONTINUE  'ccc'",
        "GAIN    = 1",
    ]);
    let h = Header::parse(&bytes).unwrap();
    assert_eq!(h.get_str("LONGKEY").unwrap(), Some("aaabbbccc"));
    assert_eq!(h.to_header_bytes(), bytes, "untouched run re-emits verbatim");
}

#[test]
fn edited_continue_run_resplits_with_longstrn() {
    let bytes = build(&["LONGKEY = 'aaa&'", "CONTINUE  'bbb'", "GAIN    = 1"]);
    let mut h = Header::parse(&bytes).unwrap();
    let long = "x".repeat(200);
    h.set("LONGKEY", long.as_str()).unwrap();
    let out = h.to_header_bytes();

    let re = Header::parse(&out).unwrap();
    assert_eq!(re.get_str("LONGKEY").unwrap(), Some(long.as_str()));
    assert_eq!(re.count("LONGSTRN"), 1, "convention card added on re-split");
    assert_eq!(re.get::<i64>("GAIN").unwrap(), Some(1), "neighbors survive");
}

#[test]
fn raw_keyword_survives_serialization() {
    let mut h = Header::new();
    h.set_raw("obj", "x").unwrap();
    let re = Header::parse(&h.to_header_bytes()).unwrap();
    assert_eq!(re.get_str("obj").unwrap(), Some("x"));
}

#[test]
fn long_string_uses_continue_and_roundtrips() {
    let mut h = Header::new();
    let long = "abcdefghij".repeat(15);
    h.set("LONGKEY", long.as_str()).unwrap();
    let out = h.to_header_bytes();
    assert_eq!(out.len() % 80, 0);

    let re = Header::parse(&out).unwrap();
    assert_eq!(re.get_str("LONGKEY").unwrap(), Some(long.as_str()));
    assert_eq!(re.count("LONGSTRN"), 1);
    assert_eq!(re.count("LONGKEY"), 1);
}
