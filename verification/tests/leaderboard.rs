use arith_drill::records::{
    encode_records, insert_record, parse_records, process_records, record_qualifies, Record,
};

fn full_table() -> Vec<Record> {
    // ten records, descending from 100 to 10
    (1..=10)
        .rev()
        .map(|i| Record { player: format!("player{}", i).into_bytes(), points: (i * 10) as i64 })
        .collect()
}

fn points_of(recs: &Vec<Record>) -> Vec<i64> {
    recs.iter().map(|r| r.points).collect()
}

#[test]
fn beating_the_minimum_evicts_it() {
    let mut recs = full_table();
    assert!(record_qualifies(&recs, 55));
    process_records(&mut recs, 55, b"newcomer".to_vec());
    assert_eq!(recs.len(), 10);
    assert_eq!(points_of(&recs), vec![100, 90, 80, 70, 60, 55, 50, 40, 30, 20]);
    assert!(recs.iter().any(|r| r.player == b"newcomer".to_vec() && r.points == 55));
    // the old minimum of 10 is gone
    assert!(!recs.iter().any(|r| r.points == 10));
}

#[test]
fn not_beating_the_minimum_leaves_the_table_unchanged() {
    let mut recs = full_table();
    assert!(!record_qualifies(&recs, 10));
    process_records(&mut recs, 10, b"tied".to_vec());
    assert_eq!(points_of(&recs), points_of(&full_table()));
    assert_eq!(recs.len(), 10);
    assert!(!record_qualifies(&recs, 5));
    process_records(&mut recs, 5, b"worse".to_vec());
    assert_eq!(points_of(&recs), points_of(&full_table()));
}

#[test]
fn below_capacity_every_score_is_kept() {
    let mut recs: Vec<Record> = Vec::new();
    assert!(record_qualifies(&recs, 0));
    process_records(&mut recs, 7, b"ann".to_vec());
    process_records(&mut recs, 3, b"bob".to_vec());
    process_records(&mut recs, 9, b"cleo".to_vec());
    assert_eq!(points_of(&recs), vec![9, 7, 3]);
    assert_eq!(recs[0].player, b"cleo".to_vec());
}

#[test]
fn ties_keep_the_earlier_record_first() {
    let mut recs: Vec<Record> = Vec::new();
    process_records(&mut recs, 5, b"first".to_vec());
    process_records(&mut recs, 5, b"second".to_vec());
    assert_eq!(recs[0].player, b"first".to_vec());
    assert_eq!(recs[1].player, b"second".to_vec());
}

#[test]
fn insert_record_keeps_descending_order() {
    let mut recs: Vec<Record> = Vec::new();
    insert_record(&mut recs, b"a".to_vec(), 10);
    insert_record(&mut recs, b"b".to_vec(), 30);
    insert_record(&mut recs, b"c".to_vec(), 20);
    assert_eq!(points_of(&recs), vec![30, 20, 10]);
}

#[test]
fn stored_table_round_trips() {
    let mut recs: Vec<Record> = Vec::new();
    insert_record(&mut recs, b"ann smith".to_vec(), 120);
    insert_record(&mut recs, b"bob".to_vec(), 90);
    insert_record(&mut recs, b"".to_vec(), 0);
    let bytes = encode_records(&recs);
    assert_eq!(bytes, b"120 ann smith\n90 bob\n0 \n".to_vec());
    let back = parse_records(&bytes).expect("a stored table parses back");
    assert_eq!(back.len(), 3);
    for (a, b) in recs.iter().zip(back.iter()) {
        assert_eq!(a.player, b.player);
        assert_eq!(a.points, b.points);
    }
}

#[test]
fn empty_store_parses_to_empty_table() {
    let empty: Vec<u8> = Vec::new();
    let table = parse_records(&empty).expect("an empty store is an empty table");
    assert_eq!(table.len(), 0);
}

#[test]
fn malformed_stores_are_refused() {
    // an unterminated final line
    assert!(parse_records(&b"10 ann".to_vec()).is_none());
    // a line without a space
    assert!(parse_records(&b"10ann\n".to_vec()).is_none());
    // a line whose total is not a number
    assert!(parse_records(&b"ten ann\n".to_vec()).is_none());
    // a line with an empty total
    assert!(parse_records(&b" ann\n".to_vec()).is_none());
    // a total too large for the score type
    assert!(parse_records(&b"9223372036854775808 ann\n".to_vec()).is_none());
}

#[test]
fn parse_accepts_the_maximum_total() {
    let table = parse_records(&b"9223372036854775807 ann\n".to_vec()).expect("in range");
    assert_eq!(table[0].points, i64::MAX);
}
