use keystats::aggregate::merge_from;
use keystats::keymap::KeyMap;
use keystats::record::Record;
use keystats::scan::scan;

#[test]
fn scan_groups_records_by_key() {
    let m = scan(b"A;3.0\nB;-1.5\nA;7.0\n").unwrap();
    let a = m.get(b"A").unwrap();
    assert_eq!((a.count, a.min, a.max, a.sum), (2, 30, 70, 100));
    let b = m.get(b"B").unwrap();
    assert_eq!((b.count, b.min, b.max, b.sum), (1, -15, -15, -15));
    assert!(m.get(b"C").is_none());
}

#[test]
fn scan_keeps_final_record_without_newline() {
    let m = scan(b"A;3.0\nB;2.0").unwrap();
    let b = m.get(b"B").unwrap();
    assert_eq!((b.count, b.min, b.max, b.sum), (1, 20, 20, 20));
}

#[test]
fn scan_of_empty_input_is_empty() {
    let m = scan(b"").unwrap();
    assert!(m.get(b"A").is_none());
    assert!(m.keys().is_empty());
}

#[test]
fn scan_accepts_empty_key() {
    let m = scan(b";1.0\n").unwrap();
    let e = m.get(b"").unwrap();
    assert_eq!((e.count, e.sum), (1, 10));
}

fn error_token(data: &[u8]) -> Vec<u8> {
    match scan(data) {
        Ok(_) => panic!("scan accepted malformed input"),
        Err(e) => e.token,
    }
}

#[test]
fn scan_reports_invalid_token() {
    assert_eq!(error_token(b"A;x.0\n"), b"x.0".to_vec());
    assert_eq!(error_token(b"A;1.23\nB;1.0\n"), b"1.23".to_vec());
}

#[test]
fn scan_reports_trailing_bytes_without_separator() {
    assert_eq!(error_token(b"A;1.0\nGARBAGE"), b"GARBAGE".to_vec());
    assert_eq!(error_token(b"AB\n"), b"AB\n".to_vec());
}

#[test]
fn scan_reports_line_missing_its_separator() {
    assert_eq!(error_token(b"AB\nC;1.0\n"), b"AB".to_vec());
}

#[test]
fn merge_from_equals_one_pass_over_concatenation() {
    let m1 = scan(b"A;3.0\nB;-1.5\n").unwrap();
    let m2 = scan(b"A;7.0\nC;0.5\n").unwrap();
    let mut merged = m1;
    assert!(merge_from(&mut merged, &m2));

    let whole = scan(b"A;3.0\nB;-1.5\nA;7.0\nC;0.5\n").unwrap();
    for key in [b"A".as_slice(), b"B".as_slice(), b"C".as_slice()] {
        let x = merged.get(key).unwrap();
        let y = whole.get(key).unwrap();
        assert_eq!((x.count, x.min, x.max, x.sum), (y.count, y.min, y.max, y.sum));
    }
}

#[test]
fn merge_from_refuses_a_count_overflow_and_keeps_the_map() {
    let mut a = KeyMap::new();
    a.insert(
        b"K".to_vec(),
        Record { count: u64::MAX, min: 0, max: 0, sum: 0 },
    );
    let mut b = KeyMap::new();
    b.insert(b"K".to_vec(), Record { count: 1, min: 0, max: 0, sum: 0 });
    assert!(!merge_from(&mut a, &b));
    assert_eq!(a.get(b"K").unwrap().count, u64::MAX);
}
