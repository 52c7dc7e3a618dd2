use timewarp::probe::{now_report, parse_epoch_line};

#[test]
fn reports_the_readings_and_the_utc_time() {
    assert_eq!(
        now_report(1_772_388_000, 1_772_388_001, -5),
        "time=1772388000\ngettimeofday=1772388001\nclock_gettime=-5\nformatted_utc=2026-03-01 18:00:00 UTC\n"
    );
    assert_eq!(
        now_report(0, 0, 0),
        "time=0\ngettimeofday=0\nclock_gettime=0\nformatted_utc=1970-01-01 00:00:00 UTC\n"
    );
}

#[test]
fn reports_instants_outside_the_calendar() {
    assert_eq!(
        now_report(i64::MAX, 1, 2),
        format!("time={}\ngettimeofday=1\nclock_gettime=2\nformatted_utc=<out-of-range>\n", i64::MAX)
    );
}

#[test]
fn the_report_reads_back() {
    for t in [0i64, 1_772_388_000, -1, i64::MIN] {
        let r = now_report(t, 7, 8);
        assert_eq!(parse_epoch_line(&r, "time"), Ok(t));
        assert_eq!(parse_epoch_line(&r, "gettimeofday"), Ok(7));
        assert_eq!(parse_epoch_line(&r, "clock_gettime"), Ok(8));
    }
}
