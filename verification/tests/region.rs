use fits_header::{header_region_len, locate_header, splice_header, FitsError, Header, BLOCK_LEN};

fn card(s: &str) -> Vec<u8> {
    let mut b = s.as_bytes().to_vec();
    b.resize(80, b' ');
    b
}

fn build(cards: &[&str]) -> Vec<u8> {
    let mut out = Vec::new();
    for c in cards {
        out.extend(card(c));
    }
    out.extend(card("END"));
    while out.len() % 2880 != 0 {
        out.push(b' ');
    }
    out
}

fn data(n: usize) -> Vec<u8> {
    (0..n).map(|i| (i % 251) as u8).collect()
}

#[test]
fn region_len_rounds_up_to_a_block() {
    let bytes = build(&["OBJECT  = 'M31     '"]);
    assert_eq!(header_region_len(&bytes), Ok(BLOCK_LEN));
    let mut two = Vec::new();
    for i in 0..40 {
        two.extend(card(&format!("HISTORY line {i}")));
    }
    two.extend(card("END"));
    assert_eq!(header_region_len(&two), Ok(2 * BLOCK_LEN));
}

#[test]
fn missing_end_card_errors() {
    let mut bytes = vec![b' '; 2880];
    bytes[..6].copy_from_slice(b"OBJECT");
    assert_eq!(header_region_len(&bytes), Err(FitsError::MissingEnd));
    assert!(matches!(locate_header(&bytes), Err(FitsError::MissingEnd)));
}

#[test]
fn unpadded_end_is_truncated() {
    let mut bytes = card("OBJECT  = 'M31     '");
    bytes.extend(card("END"));
    assert!(matches!(locate_header(&bytes), Err(FitsError::TruncatedHeader)));
}

#[test]
fn unedited_splice_reproduces_file() {
    let mut bytes = build(&["SIMPLE  =                    T", "OBJECT  = 'M31     '", "EXPTIME = 120.0"]);
    bytes.extend(data(255));
    let (h, n) = locate_header(&bytes).unwrap();
    assert_eq!(splice_header(&h, &bytes, n), bytes);
}

#[test]
fn edited_splice_keeps_data_tail() {
    let header = build(&["OBJECT  = 'M31     '", "EXPTIME = 120.0"]);
    let tail = data(255);
    let mut bytes = header.clone();
    bytes.extend(&tail);
    let (mut h, n) = locate_header(&bytes).unwrap();
    h.set("OBJECT", "NGC 7000").unwrap();
    let out = splice_header(&h, &bytes, n);
    assert_ne!(&out[..header.len()], &header[..]);
    assert_eq!(&out[out.len() - tail.len()..], &tail[..]);
    let re = Header::parse(&out).unwrap();
    assert_eq!(re.get_str("OBJECT").unwrap(), Some("NGC 7000"));
}

#[test]
fn growing_past_a_block_keeps_tail_on_a_block_boundary() {
    let header = build(&["OBJECT  = 'M31     '"]);
    assert_eq!(header.len(), 2880);
    let tail = data(50);
    let mut bytes = header.clone();
    bytes.extend(&tail);
    let (mut h, n) = locate_header(&bytes).unwrap();
    for i in 0..40 {
        h.append("HISTORY", format!("step {i}").as_str()).unwrap();
    }
    let out = splice_header(&h, &bytes, n);
    assert_eq!(out.len(), 5760 + tail.len());
    assert_eq!(&out[5760..], &tail[..]);
}

#[test]
fn second_hdu_after_the_data_stays_intact() {
    let primary = build(&["SIMPLE  =                    T", "OBJECT  = 'M31     '"]);
    let mut rest = data(2880);
    rest.extend(build(&["XTENSION= 'IMAGE   '", "OBJECT  = 'DARK    '"]));
    rest.extend(data(100));
    let mut bytes = primary.clone();
    bytes.extend(&rest);
    let (mut h, n) = locate_header(&bytes).unwrap();
    assert_eq!(n, primary.len());
    h.set("OBJECT", "M31-edited").unwrap();
    let out = splice_header(&h, &bytes, n);
    assert_eq!(&out[out.len() - rest.len()..], &rest[..]);
}

#[test]
fn the_region_parses_like_the_whole_file() {
    let mut bytes = build(&["OBJECT  = 'M31     '", "LONGKEY = 'aaa&'", "CONTINUE  'bbb'"]);
    bytes.extend(data(300));
    let n = header_region_len(&bytes).unwrap();
    assert_eq!(Header::parse(&bytes[..n]).unwrap(), Header::parse(&bytes).unwrap());
    let (h, m) = locate_header(&bytes).unwrap();
    assert_eq!(m, n);
    assert_eq!(h, Header::parse(&bytes).unwrap());
}
