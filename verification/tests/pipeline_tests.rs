use keystats::keymap::KeyMap;
use keystats::pipeline::run_pipeline;
use keystats::record::Record;
use keystats::report::{report, sorted_keys};

fn lines_of(r: Result<Vec<Vec<u8>>, keystats::scan::FormatError>) -> Vec<String> {
    match r {
        Ok(lines) => lines
            .into_iter()
            .map(|l| String::from_utf8(l).unwrap())
            .collect(),
        Err(e) => panic!("pipeline rejected input at {:?}", e.token),
    }
}

#[test]
fn three_records() {
    let out = lines_of(run_pipeline(b"A;3.0\nB;-1.5\nA;7.0\n", 1));
    assert_eq!(out, vec!["A: 3.0/5.0/7.0", "B: -1.5/-1.5/-1.5"]);
}

#[test]
fn single_key_three_values() {
    let out = lines_of(run_pipeline(b"K;1.0\nK;2.0\nK;3.0\n", 1));
    assert_eq!(out, vec!["K: 1.0/2.0/3.0"]);
}

#[test]
fn average_truncates_toward_zero() {
    let out = lines_of(run_pipeline(b"K;1.0\nK;1.0\nK;2.0\n", 1));
    assert_eq!(out, vec!["K: 1.0/1.3/2.0"]);
    let neg = lines_of(run_pipeline(b"K;-1.0\nK;-1.0\nK;-2.0\n", 1));
    assert_eq!(neg, vec!["K: -2.0/-1.3/-1.0"]);
}

#[test]
fn output_does_not_depend_on_the_partition_count() {
    let data = b"pear;1.5\napple;-0.5\npear;2.5\nfig;0.0\napple;3.5\nfig;9.9\n";
    let reference = lines_of(run_pipeline(data, 1));
    for parts in 2..9 {
        assert_eq!(lines_of(run_pipeline(data, parts)), reference);
    }
}

#[test]
fn final_record_without_newline_is_counted() {
    let out = lines_of(run_pipeline(b"A;1.0\nA;2.0", 3));
    assert_eq!(out, vec!["A: 1.0/1.5/2.0"]);
}

#[test]
fn keys_come_out_sorted() {
    let out = lines_of(run_pipeline(b"B;1.0\nA;1.0\nC;1.0\n", 2));
    assert_eq!(out, vec!["A: 1.0/1.0/1.0", "B: 1.0/1.0/1.0", "C: 1.0/1.0/1.0"]);
}

#[test]
fn empty_input_prints_nothing() {
    let out = lines_of(run_pipeline(b"", 4));
    assert!(out.is_empty());
}

#[test]
fn malformed_input_fails_the_whole_run() {
    assert!(run_pipeline(b"A;bad\n", 1).is_err());
    assert!(run_pipeline(b"A;1.0\nno-separator", 2).is_err());
}

#[test]
fn sorted_keys_orders_bytewise() {
    let keys = vec![b"pear".to_vec(), b"fig".to_vec(), b"apple".to_vec(), b"fig2".to_vec()];
    let sorted = sorted_keys(keys);
    assert_eq!(
        sorted,
        vec![b"apple".to_vec(), b"fig".to_vec(), b"fig2".to_vec(), b"pear".to_vec()]
    );
}

#[test]
fn report_refuses_a_key_that_saw_no_value() {
    let mut m = KeyMap::new();
    m.insert(b"K".to_vec(), Record::default());
    assert!(report(&m).is_none());
}

#[test]
fn report_renders_each_key_line() {
    let mut m = KeyMap::new();
    let mut r = Record::default();
    r.add(-5);
    m.insert(b"K".to_vec(), r);
    let lines = report(&m).unwrap();
    assert_eq!(lines, vec![b"K: -0.5/-0.5/-0.5".to_vec()]);
}

#[test]
fn keys_are_compared_byte_for_byte() {
    let out = lines_of(run_pipeline("b:x;1.0\nB:x;1.0\n\u{e9};1.0\n".as_bytes(), 1));
    assert_eq!(
        out,
        vec!["B:x: 1.0/1.0/1.0", "b:x: 1.0/1.0/1.0", "\u{e9}: 1.0/1.0/1.0"]
    );
}
