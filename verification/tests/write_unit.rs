use fits_header::write::{
    chunk_for_continue, commentary_cards, literal_card, pad80, string_single, to_header_bytes,
};
use fits_header::{Header, CARD_LEN};

fn text(card: &[u8; CARD_LEN]) -> String {
    String::from_utf8_lossy(card).into_owned()
}

#[test]
fn pad80_pads_and_truncates() {
    assert_eq!(&pad80("END")[..3], b"END");
    assert!(pad80("END")[3..].iter().all(|&b| b == b' '));
    let long = "x".repeat(100);
    assert_eq!(pad80(&long), [b'x'; CARD_LEN]);
}

#[test]
fn literal_card_right_justifies_short_tokens() {
    let c = text(&literal_card("BITPIX", "8", Some("bits")));
    assert!(c.starts_with("BITPIX  =                    8 / bits"));
    let wide = "1234567890123456789012345";
    let c = text(&literal_card("K", wide, None));
    assert!(c.starts_with(&format!("K       = {wide}")));
}

#[test]
fn string_single_pads_content_to_eight() {
    let c = text(&string_single("OBJECT", "M31", None).unwrap());
    assert!(c.starts_with("OBJECT  = 'M31     '"));
}

#[test]
fn string_single_rejects_overflow() {
    assert!(string_single("KEY", &"x".repeat(68), None).is_some());
    assert!(string_single("KEY", &"x".repeat(69), None).is_none());
}

#[test]
fn string_single_drops_to_continue_when_comment_overflows() {
    let content = "x".repeat(60);
    assert!(string_single("KEY", &content, Some(&"c".repeat(20))).is_none());
}

#[test]
fn chunks_fit_continuation_cards_and_split_escapes() {
    let content = "'".repeat(50) + &"a".repeat(50);
    for piece in chunk_for_continue(&content) {
        let esc = piece.replace('\'', "''");
        assert!(esc.len() <= 66, "escaped piece too long: {}", esc.len());
    }
    assert_eq!(chunk_for_continue(&content).concat(), content);
}

#[test]
fn commentary_chunks_at_72() {
    let cards = commentary_cards("COMMENT", &"y".repeat(100));
    assert_eq!(cards.len(), 2);
    assert!(text(&cards[0]).starts_with(&format!("COMMENT {}", "y".repeat(72))));
    assert!(text(&cards[1]).starts_with(&format!("COMMENT {}", "y".repeat(28))));
    assert_eq!(commentary_cards("HISTORY", "").len(), 1);
}

#[test]
fn longstrn_emitted_once_before_first_continue() {
    let mut h = Header::new();
    h.set("A", "x".repeat(100).as_str()).unwrap();
    h.set("B", "y".repeat(100).as_str()).unwrap();
    let out = to_header_bytes(&h);
    let s = String::from_utf8_lossy(&out);
    assert_eq!(s.matches("LONGSTRN").count(), 1);
    assert!(s.find("LONGSTRN").unwrap() < s.find('A').unwrap_or(usize::MAX));
}

#[test]
fn existing_longstrn_not_duplicated() {
    let mut h = Header::new();
    h.set("LONGSTRN", "OGIP 1.0").unwrap();
    h.set("A", "x".repeat(100).as_str()).unwrap();
    let out = to_header_bytes(&h);
    let s = String::from_utf8_lossy(&out);
    assert_eq!(s.matches("LONGSTRN").count(), 1);
}
