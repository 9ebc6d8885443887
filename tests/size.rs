use diskhound::size::{parse_human_size, SizeError};

#[test]
fn parses_whole_units() {
    assert_eq!(parse_human_size("15B"), Ok(15));
    assert_eq!(parse_human_size("500K"), Ok(512_000));
    assert_eq!(parse_human_size("100MB"), Ok(104_857_600));
    assert_eq!(parse_human_size("2GiB"), Ok(2 * 1024 * 1024 * 1024));
    assert_eq!(parse_human_size("1T"), Ok(1024u64.pow(4)));
}

#[test]
fn parses_fractions() {
    assert_eq!(parse_human_size("1.5GB"), Ok(1_610_612_736));
    assert_eq!(parse_human_size(".5K"), Ok(512));
    assert_eq!(parse_human_size("1.K"), Ok(1024));
    assert_eq!(parse_human_size("0.001K"), Ok(1));
    assert_eq!(parse_human_size("2.75B"), Ok(2));
}

#[test]
fn unit_case_and_white_space() {
    assert_eq!(parse_human_size("  2kib\t"), Ok(2048));
    assert_eq!(parse_human_size("3mB"), Ok(3 * 1024 * 1024));
    assert_eq!(parse_human_size("+4g"), Ok(4 * 1024 * 1024 * 1024));
}

#[test]
fn negative_and_huge_numbers() {
    assert_eq!(parse_human_size("-1K"), Ok(0));
    assert_eq!(parse_human_size("99999999999999999999999T"), Ok(u64::MAX));
    assert_eq!(parse_human_size("18446744073709551615B"), Ok(u64::MAX));
    assert_eq!(parse_human_size("16777216T"), Ok(u64::MAX));
    assert_eq!(parse_human_size("16777215T"), Ok(16_777_215u64 * 1024u64.pow(4)));
}

#[test]
fn rejects_missing_unit() {
    assert_eq!(parse_human_size("1024"), Err(SizeError::InvalidFormat));
    assert_eq!(parse_human_size(""), Err(SizeError::InvalidFormat));
}

#[test]
fn rejects_bad_number() {
    assert_eq!(parse_human_size("KB"), Err(SizeError::InvalidNumber));
    assert_eq!(parse_human_size("1.2.3K"), Err(SizeError::InvalidNumber));
    assert_eq!(parse_human_size("2 KB"), Err(SizeError::InvalidNumber));
    assert_eq!(parse_human_size(".K"), Err(SizeError::InvalidNumber));
    assert_eq!(parse_human_size("1.5XB"), Err(SizeError::UnknownSuffix));
}

#[test]
fn rejects_unknown_unit() {
    assert_eq!(parse_human_size("5X"), Err(SizeError::UnknownSuffix));
    assert_eq!(parse_human_size("5BB"), Err(SizeError::UnknownSuffix));
    assert_eq!(parse_human_size("5KIBS"), Err(SizeError::UnknownSuffix));
    assert_eq!(parse_human_size("5BiB"), Err(SizeError::UnknownSuffix));
}
