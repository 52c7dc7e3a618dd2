use timewarp::probe::{
    active_probe_verdict, binary_traits, parse_epoch_line, setuid_bit_set, BinaryTraits,
    EpochError, ProbeVerdict, PROBE_OFFSET_NS,
};
use timewarp::text::NumberFault;

#[test]
fn faults_match_the_standard_parser() {
    for text in ["", "-", "+", "x", "12s", "+-1", "9223372036854775808", "-9223372036854775809",
        "99999999999999999999x", "1 2"] {
        let expected = match text.parse::<i64>() {
            Ok(_) => unreachable!(),
            Err(e) => match e.kind() {
                std::num::IntErrorKind::Empty => NumberFault::Empty,
                std::num::IntErrorKind::InvalidDigit => NumberFault::InvalidDigit,
                std::num::IntErrorKind::PosOverflow => NumberFault::PosOverflow,
                std::num::IntErrorKind::NegOverflow => NumberFault::NegOverflow,
                _ => unreachable!(),
            },
        };
        assert_eq!(
            parse_epoch_line(&format!("time={text}"), "time"),
            Err(EpochError::InvalidEpoch(expected)),
            "{text:?}"
        );
    }
}

#[test]
fn reads_the_epoch_after_the_key() {
    let out = "time=1772388000\ngettimeofday=1772388001\nclock_gettime=1772388002\n";
    assert_eq!(parse_epoch_line(out, "time"), Ok(1_772_388_000));
    assert_eq!(parse_epoch_line(out, "gettimeofday"), Ok(1_772_388_001));
    assert_eq!(parse_epoch_line(out, "clock_gettime"), Ok(1_772_388_002));
}

#[test]
fn trims_the_value_and_accepts_signs() {
    assert_eq!(parse_epoch_line("time=  42 \r\n", "time"), Ok(42));
    assert_eq!(parse_epoch_line("time=-7", "time"), Ok(-7));
    assert_eq!(parse_epoch_line("time=+7", "time"), Ok(7));
}

#[test]
fn uses_only_lines_that_start_with_the_key() {
    assert_eq!(parse_epoch_line("times=5\n time=6\ntime=7", "time"), Ok(7));
}

#[test]
fn the_first_matching_line_decides() {
    assert_eq!(
        parse_epoch_line("time=x\ntime=5\n", "time"),
        Err(EpochError::InvalidEpoch(NumberFault::InvalidDigit))
    );
}

#[test]
fn reports_a_missing_key() {
    assert_eq!(parse_epoch_line("", "time"), Err(EpochError::KeyNotFound));
    assert_eq!(parse_epoch_line("formatted_utc=x\n", "time"), Err(EpochError::KeyNotFound));
}

#[test]
fn reports_an_invalid_epoch() {
    assert_eq!(
        parse_epoch_line("time=", "time"),
        Err(EpochError::InvalidEpoch(NumberFault::Empty))
    );
    assert_eq!(
        parse_epoch_line("time=12s", "time"),
        Err(EpochError::InvalidEpoch(NumberFault::InvalidDigit))
    );
    assert_eq!(
        parse_epoch_line("time=-", "time"),
        Err(EpochError::InvalidEpoch(NumberFault::InvalidDigit))
    );
    assert_eq!(
        parse_epoch_line("time=9223372036854775808", "time"),
        Err(EpochError::InvalidEpoch(NumberFault::PosOverflow))
    );
    assert_eq!(
        parse_epoch_line("time=-9223372036854775809", "time"),
        Err(EpochError::InvalidEpoch(NumberFault::NegOverflow))
    );
    assert_eq!(
        parse_epoch_line("time=99999999999999999999x", "time"),
        Err(EpochError::InvalidEpoch(NumberFault::PosOverflow))
    );
    assert_eq!(
        parse_epoch_line("time=-9223372036854775808", "time"),
        Ok(i64::MIN)
    );
}

#[test]
fn judges_the_active_probe_shift() {
    assert_eq!(PROBE_OFFSET_NS, 3_600_000_000_000);
    assert_eq!(active_probe_verdict(1000, 4600), ProbeVerdict::Effective(3600));
    assert_eq!(active_probe_verdict(0, 3590), ProbeVerdict::Effective(3590));
    assert_eq!(active_probe_verdict(0, 3610), ProbeVerdict::Effective(3610));
    assert_eq!(active_probe_verdict(0, 3589), ProbeVerdict::Ineffective(3589));
    assert_eq!(active_probe_verdict(10, 5), ProbeVerdict::Ineffective(-5));
}

#[test]
fn detects_the_setuid_bit() {
    assert!(setuid_bit_set(0o104755));
    assert!(setuid_bit_set(0o4000));
    assert!(!setuid_bit_set(0o100755));
    assert!(!setuid_bit_set(0o2755));
}

#[test]
fn classifies_file_descriptions() {
    assert_eq!(
        binary_traits("ELF 64-bit LSB executable, x86-64, Statically Linked, stripped"),
        BinaryTraits { statically_linked: true, go_binary: false }
    );
    assert_eq!(
        binary_traits("ELF 64-bit LSB executable, Go BuildID=abc, not stripped"),
        BinaryTraits { statically_linked: false, go_binary: true }
    );
    assert_eq!(
        binary_traits("ELF 64-bit LSB pie executable, dynamically linked"),
        BinaryTraits { statically_linked: false, go_binary: false }
    );
}
