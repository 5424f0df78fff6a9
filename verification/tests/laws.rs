use fits_header::{FitsError, Header, Literal};

#[test]
fn a_set_value_reads_back() {
    let mut h = Header::new();
    h.set("OBJECT", "M31").unwrap();
    h.set("GAIN", 120).unwrap();
    h.set("EXTEND", true).unwrap();
    assert_eq!(h.get_str("OBJECT").unwrap(), Some("M31"));
    assert_eq!(h.get::<i64>("GAIN").unwrap(), Some(120));
    assert_eq!(h.get::<bool>("EXTEND").unwrap(), Some(true));
    h.set("GAIN", -7i64).unwrap();
    assert_eq!(h.get::<i64>("GAIN").unwrap(), Some(-7));
    assert_eq!(h.count("GAIN"), 1);
}

#[test]
fn a_bare_name_refuses_duplicates() {
    let mut h = Header::new();
    h.append("K", 1).unwrap();
    h.append("K", 2).unwrap();
    assert_eq!(
        h.get::<i64>("K"),
        Err(FitsError::AmbiguousKeyword { keyword: "K".to_string(), count: 2 })
    );
    assert!(matches!(h.set("K", 3), Err(FitsError::AmbiguousKeyword { .. })));
    assert_eq!(h.get_all::<i64>("K"), vec![1, 2]);
}

#[test]
fn an_occurrence_key_selects_the_nth() {
    let mut h = Header::new();
    h.append("K", 10).unwrap();
    h.append("OTHER", 0).unwrap();
    h.append("K", 20).unwrap();
    h.append("K", 30).unwrap();
    assert_eq!(h.get::<i64>(("K", 0)).unwrap(), Some(10));
    assert_eq!(h.get::<i64>(("K", 2)).unwrap(), Some(30));
    assert_eq!(
        h.get::<i64>(("K", 3)).unwrap(),
        None
    );
    assert!(matches!(
        h.set(("K", 3), 1),
        Err(FitsError::OccurrenceOutOfRange { occurrence: 3, count: 3, .. })
    ));
}

#[test]
fn append_adds_exactly_one_and_remove_drops_exactly_one() {
    let mut h = Header::new();
    h.append("HISTORY", "a").unwrap();
    let before = h.cards().len();
    h.append("HISTORY", "b").unwrap();
    assert_eq!(h.cards().len(), before + 1);
    assert_eq!(h.count("HISTORY"), 2);
    assert!(h.remove(("HISTORY", 0)).unwrap());
    assert_eq!(h.count("HISTORY"), 1);
    assert_eq!(h.get_all::<String>("HISTORY"), vec!["b".to_string()]);
}

#[test]
fn a_written_header_reads_back_equal() {
    let mut h = Header::new();
    h.set("SIMPLE", true).unwrap();
    h.set("OBJECT", "O'Brien & co").unwrap();
    h.set("EMPTY", "").unwrap();
    h.set("TAG", "ends with &").unwrap();
    h.set("BSCALE", Literal("1.000")).unwrap();
    h.append("HISTORY", "calibrated").unwrap();
    h.append("COMMENT", "").unwrap();
    let out = h.to_header_bytes();
    let back = Header::parse(&out).unwrap();
    assert_eq!(back, h);
}

#[test]
fn reserializing_a_written_header_is_stable() {
    let mut h = Header::new();
    h.set("LONG", "x".repeat(150).as_str()).unwrap();
    h.set("GAIN", 3).unwrap();
    h.append("COMMENT", "y".repeat(100).as_str()).unwrap();
    let out = h.to_header_bytes();
    assert_eq!(Header::parse(&out).unwrap().to_header_bytes(), out);
}

#[test]
fn a_rejected_batch_changes_nothing() {
    let mut h = Header::new();
    h.set("A", 1).unwrap();
    let before = h.clone();
    assert!(matches!(
        h.set_many(vec![("B", 2), ("bad", 3)]),
        Err(FitsError::InvalidKeyword { .. })
    ));
    assert_eq!(h, before);

    h.append("D", 1).unwrap();
    h.append("D", 2).unwrap();
    let with_dups = h.clone();
    assert!(matches!(
        h.remove_many(vec!["A", "D"]),
        Err(FitsError::AmbiguousKeyword { .. })
    ));
    assert_eq!(h, with_dups);
    assert_eq!(h.remove_many(vec![("D", 1), ("D", 5)]).unwrap(), 1);
    assert_eq!(h.get_all::<i64>("D"), vec![1]);
}

#[test]
fn a_long_string_reads_back_after_the_announcement() {
    let mut h = Header::new();
    h.set("A", 1).unwrap();
    let long = "it's ".repeat(40);
    let long = long.trim_end().to_string();
    h.set("LONGKEY", long.as_str()).unwrap();
    let back = Header::parse(&h.to_header_bytes()).unwrap();
    assert_eq!(back.cards().len(), 3);
    assert_eq!(back.cards()[0], h.cards()[0]);
    assert_eq!(back.cards()[1].keyword(), Some("LONGSTRN"));
    assert_eq!(back.get_str("LONGSTRN").unwrap(), Some("OGIP 1.0"));
    assert_eq!(
        back.cards()[1].comment(),
        Some("The OGIP long string convention may be used.")
    );
    assert_eq!(back.cards()[2], h.cards()[1]);
    assert_eq!(back.get_str("LONGKEY").unwrap(), Some(long.as_str()));
}

fn check_block_layout(out: &[u8], cards_before_end: usize) {
    assert_eq!(out.len() % 2880, 0);
    let k = cards_before_end;
    let mut end = b"END".to_vec();
    end.resize(80, b' ');
    assert_eq!(&out[80 * k..80 * k + 80], &end[..]);
    assert!(out[80 * k + 80..].iter().all(|&b| b == b' '));
    assert!(out.len() - (80 * k + 80) < 2880);
}

#[test]
fn the_header_block_is_cards_then_end_then_spaces() {
    let mut h = Header::new();
    h.set("OBJECT", "M31").unwrap();
    h.set("GAIN", 120).unwrap();
    h.append("HISTORY", "reduced").unwrap();
    let out = h.to_header_bytes();
    check_block_layout(&out, 3);

    let mut long = Header::new();
    long.set("NOTE", "x".repeat(100).as_str()).unwrap();
    let out = long.to_header_bytes();
    // LONGSTRN, then the first card and one CONTINUE card.
    check_block_layout(&out, 3);

    let mut many = Header::new();
    for i in 0..35 {
        many.append("HISTORY", format!("line {i}").as_str()).unwrap();
    }
    let out = many.to_header_bytes();
    assert_eq!(out.len(), 2880);
    check_block_layout(&out, 35);

    let empty = Header::new().to_header_bytes();
    check_block_layout(&empty, 0);
}

#[test]
fn removed_count_equals_cards_dropped() {
    let mut h = Header::new();
    h.append("A", 1).unwrap();
    h.append("D", 2).unwrap();
    h.append("D", 3).unwrap();
    h.append("E", 4).unwrap();
    let before = h.cards().len();
    let n = h.remove_many(vec![("D", 1), ("D", 0), ("MISSING", 0), ("E", 0)]).unwrap();
    assert_eq!(n, 3);
    assert_eq!(before - h.cards().len(), n);
    assert_eq!(h.get::<i64>("A").unwrap(), Some(1));
    assert_eq!(h.count("D"), 0);
}

#[test]
fn an_accepted_batch_applies_each_set_in_order() {
    let mut h = Header::new();
    h.append("GAIN", 1).unwrap();
    h.append("GAIN", 2).unwrap();
    h.set_many(vec![(("GAIN", 0), 10), (("GAIN", 1), 20), (("GAIN", 0), 30)]).unwrap();
    assert_eq!(h.get_all::<i64>("GAIN"), vec![30, 20]);
}

fn card80(s: &str) -> [u8; 80] {
    let mut c = [b' '; 80];
    c[..s.len()].copy_from_slice(s.as_bytes());
    c
}

#[test]
fn parsing_groups_only_continue_runs() {
    let lines = [
        "LONGKEY = 'aaa&'",
        "CONTINUE  'bbb&'",
        "CONTINUE  'ccc'",
        "CONTINUE  'stray'",
        "GAIN    = 2",
        "COMMENT plain",
        "END",
        "AFTER   = 1",
    ];
    let cards: Vec<[u8; 80]> = lines.iter().map(|l| card80(l)).collect();
    let mut bytes: Vec<u8> = cards.iter().flatten().copied().collect();
    while bytes.len() % 2880 != 0 {
        bytes.push(b' ');
    }
    let h = Header::parse(&bytes).unwrap();
    let groups: Vec<Vec<[u8; 80]>> =
        h.cards().iter().map(|r| r.raw_cards().unwrap().to_vec()).collect();
    assert_eq!(groups.len(), 4);
    assert_eq!(groups[0], cards[0..3].to_vec());
    assert_eq!(groups[1], vec![cards[3]]);
    assert_eq!(groups[2], vec![cards[4]]);
    assert_eq!(groups[3], vec![cards[5]]);
    let kept: Vec<[u8; 80]> = groups.concat();
    assert_eq!(kept, cards[0..6].to_vec());
}
