use keystats::numeric::parse;

#[test]
fn parse_accepts_each_shape() {
    assert_eq!(parse(b"3.0"), Some(30));
    assert_eq!(parse(b"0.0"), Some(0));
    assert_eq!(parse(b"9.9"), Some(99));
    assert_eq!(parse(b"12.3"), Some(123));
    assert_eq!(parse(b"99.9"), Some(999));
    assert_eq!(parse(b"123.4"), Some(1234));
    assert_eq!(parse(b"999.9"), Some(9999));
}

#[test]
fn parse_accepts_negative_shapes() {
    assert_eq!(parse(b"-1.5"), Some(-15));
    assert_eq!(parse(b"-0.5"), Some(-5));
    assert_eq!(parse(b"-0.0"), Some(0));
    assert_eq!(parse(b"-99.9"), Some(-999));
    assert_eq!(parse(b"-999.9"), Some(-9999));
}

#[test]
fn parse_rejects_everything_else() {
    assert_eq!(parse(b""), None);
    assert_eq!(parse(b"1"), None);
    assert_eq!(parse(b"12"), None);
    assert_eq!(parse(b"123"), None);
    assert_eq!(parse(b"1."), None);
    assert_eq!(parse(b".5"), None);
    assert_eq!(parse(b"1.23"), None);
    assert_eq!(parse(b"1234.5"), None);
    assert_eq!(parse(b"-"), None);
    assert_eq!(parse(b"--1.0"), None);
    assert_eq!(parse(b"a.b"), None);
    assert_eq!(parse(b"1,0"), None);
    assert_eq!(parse(b"1 .0"), None);
    assert_eq!(parse(b"+1.0"), None);
}

#[test]
fn format_renders_one_fraction_digit() {
    assert_eq!(keystats::numeric::format(30), b"3.0".to_vec());
    assert_eq!(keystats::numeric::format(0), b"0.0".to_vec());
    assert_eq!(keystats::numeric::format(-15), b"-1.5".to_vec());
    assert_eq!(keystats::numeric::format(-5), b"-0.5".to_vec());
    assert_eq!(keystats::numeric::format(13), b"1.3".to_vec());
    assert_eq!(keystats::numeric::format(9999), b"999.9".to_vec());
    assert_eq!(keystats::numeric::format(-9999), b"-999.9".to_vec());
    assert_eq!(keystats::numeric::format(12345), b"1234.5".to_vec());
}

#[test]
fn parse_of_format_is_identity_in_token_range() {
    let mut v: i32 = -9999;
    while v <= 9999 {
        let rendered = keystats::numeric::format(v as i128);
        assert_eq!(parse(&rendered), Some(v));
        v += 1;
    }
}
