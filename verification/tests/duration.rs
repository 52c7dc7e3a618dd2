use timewarp::duration::{format_duration_ns, parse_duration_ns, DurationError};

const SEC: i128 = 1_000_000_000;

#[test]
fn parses_offsets_from_the_help_text() {
    assert_eq!(parse_duration_ns("+2h"), Ok(7_200 * SEC));
    assert_eq!(parse_duration_ns("-30m"), Ok(-1_800 * SEC));
    assert_eq!(parse_duration_ns("+1h15m"), Ok(4_500 * SEC));
}

#[test]
fn parses_steps_from_the_help_text() {
    assert_eq!(parse_duration_ns("1m"), Ok(60 * SEC));
    assert_eq!(parse_duration_ns("500ms"), Ok(500_000_000));
    assert_eq!(parse_duration_ns("1s"), Ok(SEC));
}

#[test]
fn parses_every_unit() {
    assert_eq!(parse_duration_ns("7ns"), Ok(7));
    assert_eq!(parse_duration_ns("7us"), Ok(7_000));
    assert_eq!(parse_duration_ns("7ms"), Ok(7_000_000));
    assert_eq!(parse_duration_ns("7s"), Ok(7 * SEC));
    assert_eq!(parse_duration_ns("7m"), Ok(420 * SEC));
    assert_eq!(parse_duration_ns("7h"), Ok(25_200 * SEC));
    assert_eq!(parse_duration_ns("7d"), Ok(604_800 * SEC));
}

#[test]
fn sums_segments_and_ignores_surrounding_whitespace() {
    assert_eq!(parse_duration_ns("  1d2h3m4s5ms6us7ns\n"), Ok(93_784_005_006_007));
    assert_eq!(parse_duration_ns("0010s"), Ok(10 * SEC));
    assert_eq!(parse_duration_ns("1h1h"), Ok(7_200 * SEC));
}

#[test]
fn refuses_blank_text() {
    assert_eq!(parse_duration_ns(""), Err(DurationError::Empty));
    assert_eq!(parse_duration_ns(" \t "), Err(DurationError::Empty));
}

#[test]
fn refuses_a_bare_sign() {
    assert_eq!(parse_duration_ns("+"), Err(DurationError::NoValue));
    assert_eq!(parse_duration_ns(" - "), Err(DurationError::NoValue));
}

#[test]
fn refuses_text_without_a_number() {
    assert_eq!(parse_duration_ns("h"), Err(DurationError::ExpectedNumber("h".to_string())));
    assert_eq!(parse_duration_ns("1h x"), Err(DurationError::ExpectedNumber(" x".to_string())));
    assert_eq!(parse_duration_ns("+-1h"), Err(DurationError::ExpectedNumber("-1h".to_string())));
}

#[test]
fn refuses_a_number_without_a_unit() {
    assert_eq!(parse_duration_ns("5"), Err(DurationError::MissingUnit("5".to_string())));
    assert_eq!(parse_duration_ns("1h30"), Err(DurationError::MissingUnit("30".to_string())));
}

#[test]
fn refuses_unknown_units() {
    assert_eq!(parse_duration_ns("5w"), Err(DurationError::UnsupportedUnit("w".to_string())));
    assert_eq!(parse_duration_ns("5Ms"), Err(DurationError::UnsupportedUnit("Ms".to_string())));
    assert_eq!(parse_duration_ns("5sec"), Err(DurationError::UnsupportedUnit("sec".to_string())));
}

#[test]
fn refuses_numbers_beyond_128_bits() {
    let digits = "1701411834604692317316873037158841057280";
    assert_eq!(
        parse_duration_ns(&format!("{digits}ns")),
        Err(DurationError::InvalidNumber(digits.to_string()))
    );
}

#[test]
fn refuses_totals_beyond_128_bits() {
    let max = i128::MAX.to_string();
    assert_eq!(parse_duration_ns(&format!("{max}ns")), Ok(i128::MAX));
    assert_eq!(parse_duration_ns(&format!("{max}d")), Err(DurationError::Overflow));
    assert_eq!(parse_duration_ns(&format!("{max}ns1ns")), Err(DurationError::Overflow));
    assert_eq!(parse_duration_ns(&format!("-{max}ns")), Ok(-i128::MAX));
}

#[test]
fn overflow_is_reported_before_a_later_bad_unit() {
    let max = i128::MAX.to_string();
    assert_eq!(parse_duration_ns(&format!("{max}d5w")), Err(DurationError::Overflow));
}

#[test]
fn formats_canonical_text() {
    assert_eq!(format_duration_ns(0), "0ns");
    assert_eq!(format_duration_ns(7_200 * SEC), "2h");
    assert_eq!(format_duration_ns(-1_800 * SEC), "-30m");
    assert_eq!(format_duration_ns(90_061 * SEC + 1), "1d1h1m1s1ns");
    assert_eq!(format_duration_ns(500_000_000), "500000000ns");
    assert_eq!(format_duration_ns(86_400 * SEC + 5), "1d5ns");
    assert_eq!(format_duration_ns(-1), "-1ns");
}

#[test]
fn formatted_text_reads_back() {
    let samples = [
        0,
        1,
        -1,
        999_999_999,
        SEC,
        -61 * SEC,
        93_784_005_006_007,
        i128::MAX,
        -i128::MAX,
        i128::MIN + 1,
        123_456_789_012_345_678_901_234_567,
    ];
    for ns in samples {
        assert_eq!(parse_duration_ns(&format_duration_ns(ns)), Ok(ns), "value {ns}");
    }
}
