use keystats::partition::partition;

fn check_cover(data: &[u8], ranges: &[(usize, usize)]) {
    assert!(!ranges.is_empty());
    assert_eq!(ranges[0].0, 0);
    assert_eq!(ranges[ranges.len() - 1].1, data.len());
    for w in ranges.windows(2) {
        assert_eq!(w[0].1, w[1].0);
    }
    for (i, r) in ranges.iter().enumerate() {
        assert!(r.0 <= r.1 && r.1 <= data.len());
        if i + 1 < ranges.len() {
            assert!(r.1 >= 1);
            assert_eq!(data[r.1 - 1], b'\n');
        }
    }
}

#[test]
fn partition_covers_the_buffer_on_newlines() {
    let data = b"A;1.0\nB;2.0\nC;3.0\n";
    for parts in 1..6 {
        let ranges = partition(data, parts);
        assert!(ranges.len() <= parts);
        check_cover(data, &ranges);
    }
}

#[test]
fn partition_with_one_part_is_the_whole_buffer() {
    let data = b"A;1.0\nB;2.0\n";
    let ranges = partition(data, 1);
    assert_eq!(ranges, vec![(0, data.len())]);
}

#[test]
fn partition_of_empty_buffer() {
    let ranges = partition(b"", 4);
    assert_eq!(ranges, vec![(0, 0)]);
}

#[test]
fn partition_without_newlines_degenerates() {
    let data = b"ABCDEFGHIJKLMNOP";
    let ranges = partition(data, 4);
    check_cover(data, &ranges);
    assert_eq!(ranges, vec![(0, data.len())]);
}

#[test]
fn partition_keeps_final_record_without_newline() {
    let data = b"A;1.0\nB;2.0\nC;3.0";
    let ranges = partition(data, 3);
    check_cover(data, &ranges);
}
