use keystats::record::Record;

#[test]
fn default_is_the_neutral_record() {
    let r = Record::default();
    assert_eq!(r.count, 0);
    assert_eq!(r.min, i32::MAX);
    assert_eq!(r.max, i32::MIN);
    assert_eq!(r.sum, 0);
}

#[test]
fn add_tracks_count_extremes_and_sum() {
    let mut r = Record::default();
    r.add(30);
    r.add(-15);
    r.add(70);
    assert_eq!(r.count, 3);
    assert_eq!(r.min, -15);
    assert_eq!(r.max, 70);
    assert_eq!(r.sum, 85);
}

#[test]
fn avg_truncates_toward_zero() {
    let mut r = Record::default();
    r.add(10);
    r.add(10);
    r.add(20);
    assert_eq!(r.avg(), 13);

    let mut n = Record::default();
    n.add(-10);
    n.add(-10);
    n.add(-20);
    assert_eq!(n.avg(), -13);
}

#[test]
fn merge_combines_as_if_added_directly() {
    let mut a = Record::default();
    a.add(30);
    a.add(70);
    let mut b = Record::default();
    b.add(-15);
    a.merge(&b);
    assert_eq!(a.count, 3);
    assert_eq!(a.min, -15);
    assert_eq!(a.max, 70);
    assert_eq!(a.sum, 85);
}

#[test]
fn merge_with_empty_changes_nothing() {
    let mut a = Record::default();
    a.add(5);
    let empty = Record::default();
    a.merge(&empty);
    assert_eq!(a.count, 1);
    assert_eq!(a.min, 5);
    assert_eq!(a.max, 5);
    assert_eq!(a.sum, 5);
}

#[test]
fn merge_is_commutative_and_associative_on_values() {
    let mut x = Record::default();
    x.add(10);
    let mut y = Record::default();
    y.add(-20);
    let mut z = Record::default();
    z.add(35);

    let mut xy_z = x;
    xy_z.merge(&y);
    xy_z.merge(&z);

    let mut yz = y;
    yz.merge(&z);
    let mut x_yz = x;
    x_yz.merge(&yz);

    let mut yx = y;
    yx.merge(&x);

    let mut xy = x;
    xy.merge(&y);

    assert_eq!((xy_z.count, xy_z.min, xy_z.max, xy_z.sum), (x_yz.count, x_yz.min, x_yz.max, x_yz.sum));
    assert_eq!((xy.count, xy.min, xy.max, xy.sum), (yx.count, yx.min, yx.max, yx.sum));
}
