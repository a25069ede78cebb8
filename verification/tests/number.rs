use static_routing::number::{parse_bool, parse_u32, parse_u8, IntError};

#[test]
fn numbers_read_as_std_reads_them() {
    let cases = [
        "", "+", "-", "0", "7", "+7", "-7", "007", "255", "256", "4294967295", "4294967296",
        "99999999999999999999", "12a", "a12", "1 2", " 1", "1_000", "++1", "+-1", "٣", "4294967296x",
        "42949672950", "x99999999999",
    ];
    for s in cases {
        let ours = parse_u32(s).ok();
        let theirs: Option<u32> = s.parse().ok();
        assert_eq!(ours, theirs, "{}", s);
        let ours = parse_u8(s).ok();
        let theirs: Option<u8> = s.parse().ok();
        assert_eq!(ours, theirs, "{}", s);
    }
}

#[test]
fn number_errors() {
    assert_eq!(parse_u32(""), Err(IntError::Empty));
    assert_eq!(parse_u32("+"), Err(IntError::InvalidDigit));
    assert_eq!(parse_u32("-1"), Err(IntError::InvalidDigit));
    assert_eq!(parse_u32("12x"), Err(IntError::InvalidDigit));
    assert_eq!(parse_u32("4294967296"), Err(IntError::Overflow));
    assert_eq!(parse_u32("4294967296x"), Err(IntError::Overflow));
    assert_eq!(parse_u32("x4294967296"), Err(IntError::InvalidDigit));
    assert_eq!(parse_u8("256"), Err(IntError::Overflow));
    assert_eq!(parse_u8("255"), Ok(255));
    assert_eq!(parse_u32("4294967295"), Ok(4294967295));
    assert_eq!(parse_u32("+42"), Ok(42));
}

#[test]
fn booleans() {
    assert_eq!(parse_bool("true"), Some(true));
    assert_eq!(parse_bool("false"), Some(false));
    assert_eq!(parse_bool("True"), None);
    assert_eq!(parse_bool("1"), None);
    assert_eq!(parse_bool(""), None);
}
