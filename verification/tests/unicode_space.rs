use fits_header::{header_region_len, parse_i64, FitsError, Header, BLOCK_LEN};

fn card_bytes(b: &[u8]) -> Vec<u8> {
    let mut v = b.to_vec();
    v.resize(80, b' ');
    v
}

fn pad_block(mut out: Vec<u8>) -> Vec<u8> {
    while out.len() % 2880 != 0 {
        out.push(b' ');
    }
    out
}

#[test]
fn end_keyword_after_next_line_char_is_end() {
    let mut bytes = card_bytes(b"OBJECT  = 'M31     '");
    bytes.extend(card_bytes(&[0xC2, 0x85, b'E', b'N', b'D', b' ', b' ', b' ']));
    let bytes = pad_block(bytes);
    assert_eq!(header_region_len(&bytes), Ok(BLOCK_LEN));
    let h = Header::parse(&bytes).unwrap();
    assert_eq!(h.cards().len(), 1);
    assert_eq!(h.get_str("OBJECT").unwrap(), Some("M31"));
}

#[test]
fn keyword_field_trims_no_break_space() {
    let mut first = vec![0xC2, 0xA0];
    first.extend_from_slice(b"GAIN = 12");
    let mut bytes = card_bytes(&first[..]);
    // The field "\u{a0}GAIN =" has no '=' at byte 8, so it is no value card.
    bytes.extend(card_bytes(b"END"));
    let bytes = pad_block(bytes);
    assert_eq!(header_region_len(&bytes), Ok(BLOCK_LEN));
    assert!(Header::parse(&bytes).is_ok());
}

#[test]
fn ideographic_space_before_end() {
    let mut first = vec![0xE3, 0x80, 0x80];
    first.extend_from_slice(b"END");
    let mut bytes = card_bytes(b"EXPTIME = 30");
    bytes.extend(card_bytes(&first[..]));
    let bytes = pad_block(bytes);
    assert_eq!(header_region_len(&bytes), Ok(BLOCK_LEN));
    let h = Header::parse(&bytes).unwrap();
    assert_eq!(h.get::<i64>("EXPTIME").unwrap(), Some(30));
}

#[test]
fn value_token_trims_unicode_space() {
    let mut first = b"EXPTIME = ".to_vec();
    first.extend_from_slice(&[0xE2, 0x80, 0x83]);
    first.extend_from_slice(b"42");
    first.extend_from_slice(&[0xC2, 0xA0]);
    let mut bytes = card_bytes(&first[..]);
    bytes.extend(card_bytes(b"END"));
    let bytes = pad_block(bytes);
    let h = Header::parse(&bytes).unwrap();
    assert_eq!(h.get::<i64>("EXPTIME").unwrap(), Some(42));
}

#[test]
fn parse_i64_trims_unicode_space() {
    assert_eq!(parse_i64("\u{a0}5"), Some(5));
    assert_eq!(parse_i64("\u{2003}7\u{3000}"), Some(7));
    assert_eq!(parse_i64("\u{85}-3\u{2029}"), Some(-3));
    assert_eq!(parse_i64("\u{200b}5"), None);
}

#[test]
fn string_content_drops_trailing_unicode_space() {
    let mut first = b"OBJECT  = 'M31".to_vec();
    first.extend_from_slice(&[0xE2, 0x80, 0x80]);
    first.extend_from_slice(b"'");
    let mut bytes = card_bytes(&first[..]);
    bytes.extend(card_bytes(b"END"));
    let bytes = pad_block(bytes);
    let h = Header::parse(&bytes).unwrap();
    assert_eq!(h.get_str("OBJECT").unwrap(), Some("M31"));
}

#[test]
fn parse_i64_trims_exactly_unicode_whitespace() {
    for c in (0u32..=0x10FFFF).filter_map(char::from_u32) {
        if c.is_ascii() {
            continue;
        }
        let s = format!("{c}5{c}");
        let expected = if c.is_whitespace() { Some(5) } else { None };
        assert_eq!(parse_i64(&s), expected, "around U+{:04X}", c as u32);
    }
}

#[test]
fn end_keyword_after_each_whitespace_char() {
    for c in (0u32..=0x3100).filter_map(char::from_u32) {
        if c.is_ascii() {
            continue;
        }
        let mut field = c.to_string().into_bytes();
        field.extend_from_slice(b"END");
        let mut bytes = card_bytes(b"GAIN    = 1");
        bytes.extend(card_bytes(&field[..]));
        let bytes = pad_block(bytes);
        let expected = if c.is_whitespace() { Ok(BLOCK_LEN) } else { Err(FitsError::MissingEnd) };
        assert_eq!(header_region_len(&bytes), expected, "before END: U+{:04X}", c as u32);
    }
}
