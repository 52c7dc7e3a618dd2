use timewarp::clock::{
    uses_monotonic_anchor, is_absolute_deadline, ClockIds, ns_to_timespec, ns_to_timeval, should_warp,
    timespec_to_ns, timeval_to_ns, whole_units, TimeSpec, TimeVal,
};

#[test]
fn timespec_to_nanoseconds() {
    assert_eq!(timespec_to_ns(TimeSpec { sec: 1, nsec: 5 }), 1_000_000_005);
    assert_eq!(timespec_to_ns(TimeSpec { sec: -1, nsec: 999_999_999 }), -1);
}

#[test]
fn nanoseconds_to_timespec_floors() {
    assert_eq!(ns_to_timespec(1_000_000_005), TimeSpec { sec: 1, nsec: 5 });
    assert_eq!(ns_to_timespec(-1), TimeSpec { sec: -1, nsec: 999_999_999 });
    assert_eq!(ns_to_timespec(0), TimeSpec { sec: 0, nsec: 0 });
}

#[test]
fn timeval_conversions() {
    assert_eq!(timeval_to_ns(TimeVal { sec: 2, usec: 3 }), 2_000_003_000);
    assert_eq!(ns_to_timeval(1_500_000_999), TimeVal { sec: 1, usec: 500_000 });
    assert_eq!(ns_to_timeval(-1), TimeVal { sec: -1, usec: 999_999 });
}

#[test]
fn timespec_round_trip() {
    for ts in [TimeSpec { sec: 1_772_388_000, nsec: 123 }, TimeSpec { sec: -3, nsec: 0 }] {
        assert_eq!(ns_to_timespec(timespec_to_ns(ts)), ts);
    }
}

const LINUX: ClockIds = ClockIds { realtime: 0, monotonic: 1, monotonic_raw: Some(4) };
const APPLE: ClockIds = ClockIds { realtime: 0, monotonic: 6, monotonic_raw: None };

#[test]
fn which_clocks_are_warped() {
    assert!(should_warp(0, false, LINUX));
    assert!(should_warp(0, true, LINUX));
    assert!(!should_warp(1, false, LINUX));
    assert!(should_warp(1, true, LINUX));
    assert!(should_warp(4, true, LINUX));
    assert!(!should_warp(4, false, LINUX));
    assert!(!should_warp(2, true, LINUX));
    assert!(!should_warp(7, true, LINUX));
    assert!(should_warp(6, true, APPLE));
    assert!(!should_warp(4, true, APPLE));
    assert!(!should_warp(1, true, APPLE));
}

#[test]
fn the_platform_clock_ids() {
    let ids = ClockIds {
        realtime: libc::CLOCK_REALTIME,
        monotonic: libc::CLOCK_MONOTONIC,
        monotonic_raw: Some(libc::CLOCK_MONOTONIC_RAW),
    };
    assert!(should_warp(libc::CLOCK_REALTIME, false, ids));
    assert!(should_warp(libc::CLOCK_MONOTONIC, true, ids));
    assert!(!should_warp(libc::CLOCK_MONOTONIC, false, ids));
}

#[test]
fn anchors_by_clock() {
    assert!(uses_monotonic_anchor(1, LINUX));
    assert!(!uses_monotonic_anchor(0, LINUX));
    assert!(!uses_monotonic_anchor(4, LINUX));
    assert!(uses_monotonic_anchor(6, APPLE));
}

#[test]
fn absolute_deadline_flag() {
    assert!(is_absolute_deadline(1));
    assert!(is_absolute_deadline(3));
    assert!(is_absolute_deadline(-1));
    assert!(!is_absolute_deadline(0));
    assert!(!is_absolute_deadline(2));
}

#[test]
fn whole_units_round_down() {
    assert_eq!(whole_units(1_999, 1_000), 1);
    assert_eq!(whole_units(-1, 1_000), -1);
    assert_eq!(whole_units(5_000_000_000, 1_000_000_000), 5);
    assert_eq!(whole_units(i128::MIN, 1), i128::MIN);
}
