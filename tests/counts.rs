use process_queues::text::{parse_count, CountError};

#[test]
fn parses_plain_count() {
    assert_eq!(parse_count("5"), Ok(5));
    assert_eq!(parse_count("0"), Ok(0));
}

#[test]
fn trims_white_space_around_count() {
    assert_eq!(parse_count("  12\n"), Ok(12));
    assert_eq!(parse_count("\t7\r\n"), Ok(7));
    assert_eq!(parse_count("\u{3000}9\u{a0}"), Ok(9));
}

#[test]
fn accepts_signs() {
    assert_eq!(parse_count("-3"), Ok(-3));
    assert_eq!(parse_count("+4"), Ok(4));
}

#[test]
fn rejects_letters() {
    assert_eq!(parse_count("abc"), Err(CountError::InvalidDigit));
    assert_eq!(parse_count("12a"), Err(CountError::InvalidDigit));
    assert_eq!(parse_count("1 2"), Err(CountError::InvalidDigit));
}

#[test]
fn rejects_empty_input() {
    assert_eq!(parse_count(""), Err(CountError::Empty));
    assert_eq!(parse_count("   \n"), Err(CountError::Empty));
}

#[test]
fn rejects_lone_sign() {
    assert_eq!(parse_count("-"), Err(CountError::InvalidDigit));
    assert_eq!(parse_count("+"), Err(CountError::InvalidDigit));
}

#[test]
fn reads_extremes_of_i32() {
    assert_eq!(parse_count("2147483647"), Ok(i32::MAX));
    assert_eq!(parse_count("-2147483648"), Ok(i32::MIN));
    assert_eq!(parse_count("0002147483647"), Ok(i32::MAX));
}

#[test]
fn rejects_out_of_range() {
    assert_eq!(parse_count("2147483648"), Err(CountError::PosOverflow));
    assert_eq!(parse_count("99999999999999999999"), Err(CountError::PosOverflow));
    assert_eq!(parse_count("-2147483649"), Err(CountError::NegOverflow));
}

#[test]
fn agrees_with_std_parse() {
    for s in ["5", " 42 ", "-17", "+8", "abc", "", "2147483648", "-", "0x10", "1_000"] {
        assert_eq!(parse_count(s).ok(), s.trim().parse::<i32>().ok(), "input {:?}", s);
    }
}
