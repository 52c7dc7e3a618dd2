use timewarp::duration::DurationError;
use timewarp::hook::{with_hook_guard, with_nested_hook_guard};
use timewarp::launch::{
    child_exit_status, initial_offset_ns, now_unix_ns, offset_from_target, OffsetError,
};

#[test]
fn no_flags_means_no_offset() {
    assert_eq!(initial_offset_ns(None, None), Ok(0));
}

#[test]
fn offset_flag_is_a_duration() {
    assert_eq!(initial_offset_ns(None, Some("+2h")), Ok(7_200_000_000_000));
    assert_eq!(
        initial_offset_ns(None, Some("x")),
        Err(OffsetError::Offset(DurationError::ExpectedNumber("x".to_string())))
    );
}

#[test]
fn at_flag_targets_the_instant() {
    let before = now_unix_ns().unwrap();
    let offset = initial_offset_ns(Some("2026-03-01T12:00:00-06:00"), None).unwrap();
    let after = now_unix_ns().unwrap();
    let target = 1_772_388_000i128 * 1_000_000_000;
    assert!(target - after <= offset && offset <= target - before);
}

#[test]
fn at_flag_wins_over_offset() {
    let a = initial_offset_ns(Some("2026-03-01T18:00:00Z"), Some("+2h")).unwrap();
    assert_ne!(a, 7_200_000_000_000);
}

#[test]
fn at_flag_refuses_other_text() {
    assert!(matches!(initial_offset_ns(Some("tomorrow"), None), Err(OffsetError::InvalidAt(_))));
    match initial_offset_ns(Some("2026-03-01"), None) {
        Err(OffsetError::InvalidAt(e)) => assert_eq!(e.to_string(), "premature end of input"),
        other => panic!("unexpected {other:?}"),
    }
}

#[test]
fn at_flag_refuses_instants_beyond_64_bit_nanoseconds() {
    assert_eq!(
        initial_offset_ns(Some("2300-01-01T00:00:00Z"), None),
        Err(OffsetError::AtOutOfRange)
    );
}

#[test]
fn offset_from_a_target_and_a_reading() {
    assert_eq!(offset_from_target(Some(10), Ok(4)), Ok(6));
    assert_eq!(offset_from_target(None, Ok(4)), Err(OffsetError::AtOutOfRange));
    assert_eq!(
        offset_from_target(Some(10), Err(OffsetError::ClockBeforeEpoch)),
        Err(OffsetError::ClockBeforeEpoch)
    );
    assert_eq!(
        offset_from_target(None, Err(OffsetError::ClockBeforeEpoch)),
        Err(OffsetError::ClockBeforeEpoch)
    );
}

#[test]
fn the_clock_reads_after_the_epoch() {
    let n = now_unix_ns().unwrap();
    assert!(n > 1_600_000_000_000_000_000);
}

#[test]
fn passes_on_exit_codes() {
    assert_eq!(child_exit_status(Some(0)), 0);
    assert_eq!(child_exit_status(Some(3)), 3);
    assert_eq!(child_exit_status(Some(259)), 3);
    assert_eq!(child_exit_status(Some(-1)), 255);
    assert_eq!(child_exit_status(None), 1);
}

#[test]
fn the_guard_runs_the_hook_once_and_lowers_again() {
    let mut in_hook = false;
    let r = with_hook_guard(&mut in_hook, || "fallback", |raised| {
        assert!(raised);
        "hooked"
    });
    assert_eq!(r, "hooked");
    assert!(!in_hook);
}

#[test]
fn the_raised_guard_takes_the_fallback() {
    let mut in_hook = true;
    let r = with_hook_guard(&mut in_hook, || 1, |_| 2);
    assert_eq!(r, 1);
    assert!(in_hook);
}

#[test]
fn a_nested_guard_takes_its_fallback() {
    let mut in_hook = false;
    let r = with_nested_hook_guard(&mut in_hook, || "outer", || "inner fallback", |_| "inner body");
    assert_eq!(r, "inner fallback");
    assert!(!in_hook);
    let mut flag = false;
    let r = with_hook_guard(&mut flag, || 0, |raised| {
        let mut inner = raised;
        with_hook_guard(&mut inner, || 1, |_| 2)
    });
    assert_eq!(r, 1);
}
