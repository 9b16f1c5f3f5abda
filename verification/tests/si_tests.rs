use quiz_engine::si::{si_parse, SiError};

#[test]
fn plain_integers() {
    assert_eq!(si_parse("0"), Ok(0));
    assert_eq!(si_parse("3"), Ok(3));
    assert_eq!(si_parse("123"), Ok(123));
    assert_eq!(si_parse("+42"), Ok(42));
    assert_eq!(si_parse("-17"), Ok(-17));
}

#[test]
fn suffixed_integers() {
    assert_eq!(si_parse("10k"), Ok(10_000));
    assert_eq!(si_parse("10K"), Ok(10_000));
    assert_eq!(si_parse("2m"), Ok(2_000_000));
    assert_eq!(si_parse("2M"), Ok(2_000_000));
    assert_eq!(si_parse("5g"), Ok(5_000_000_000));
    assert_eq!(si_parse("5b"), Ok(5_000_000_000));
    assert_eq!(si_parse("5B"), Ok(5_000_000_000));
    assert_eq!(si_parse("1T"), Ok(1_000_000_000_000));
}

#[test]
fn fractional_prefixes_truncate() {
    assert_eq!(si_parse("1.5k"), Ok(1_500));
    assert_eq!(si_parse("-1.5k"), Ok(-1_500));
    assert_eq!(si_parse("2.5m"), Ok(2_500_000));
    assert_eq!(si_parse("0.5b"), Ok(500_000_000));
    assert_eq!(si_parse(".5k"), Ok(500));
    assert_eq!(si_parse("7.k"), Ok(7_000));
    // digits beyond the suffix's zeros fall past the truncation point
    assert_eq!(si_parse("1.0000005k"), Ok(1_000));
    assert_eq!(si_parse("0.9999k"), Ok(999));
}

#[test]
fn malformed_inputs() {
    assert_eq!(si_parse(""), Err(SiError::Malformed));
    assert_eq!(si_parse("x"), Err(SiError::Malformed));
    assert_eq!(si_parse("10q"), Err(SiError::Malformed));
    assert_eq!(si_parse("12.3"), Err(SiError::Malformed));
    assert_eq!(si_parse("1..5k"), Err(SiError::Malformed));
    assert_eq!(si_parse(".k"), Err(SiError::Malformed));
    assert_eq!(si_parse("k"), Err(SiError::Malformed));
    assert_eq!(si_parse("-k"), Err(SiError::Malformed));
    assert_eq!(si_parse("1x5k"), Err(SiError::Malformed));
    assert_eq!(si_parse("--5"), Err(SiError::Malformed));
}

#[test]
fn out_of_range_inputs() {
    assert_eq!(si_parse("9223372036854775807"), Ok(i64::MAX));
    assert_eq!(si_parse("-9223372036854775808"), Ok(i64::MIN));
    assert_eq!(si_parse("9223372036854775808"), Err(SiError::OutOfRange));
    assert_eq!(si_parse("99999999999999999999"), Err(SiError::OutOfRange));
    assert_eq!(si_parse("99999999T"), Err(SiError::OutOfRange));
}
