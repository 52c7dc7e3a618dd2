use timewarp::state::{
    merge_preload, parse_state_text, state_file_name, state_file_text, switch_enabled,
};

#[test]
fn switch_values_that_turn_on() {
    for v in ["1", "true", "TRUE", "yes", "YES"] {
        assert!(switch_enabled(v), "{v}");
    }
    for v in ["", "0", "True", "no", "yes ", "y"] {
        assert!(!switch_enabled(v), "{v}");
    }
}

#[test]
fn reads_offset_and_speed_from_state_text() {
    let st = parse_state_text("3600000000000 1.5\n");
    assert_eq!(st.offset_ns, Some(3_600_000_000_000));
    assert_eq!(st.speed.as_deref(), Some("1.5"));
}

#[test]
fn reads_partial_state_text() {
    let st = parse_state_text("");
    assert_eq!(st.offset_ns, None);
    assert_eq!(st.speed, None);
    let st = parse_state_text("  -5\n");
    assert_eq!(st.offset_ns, Some(-5));
    assert_eq!(st.speed, None);
    let st = parse_state_text("abc 2 extra");
    assert_eq!(st.offset_ns, None);
    assert_eq!(st.offset_or_zero(), 0);
    assert_eq!(parse_state_text("-7 1").offset_or_zero(), -7);
    assert_eq!(st.speed.as_deref(), Some("2"));
}

#[test]
fn writes_state_text() {
    assert_eq!(state_file_text(-5, "1"), "-5 1\n");
    assert_eq!(state_file_text(3_600_000_000_000, "10"), "3600000000000 10\n");
    assert_eq!(
        state_file_text(i128::MIN, "0.5"),
        format!("{} 0.5\n", i128::MIN)
    );
}

#[test]
fn state_text_reads_back() {
    for (offset, speed) in [(0i128, "1"), (-7_200_000_000_000, "2.5"), (i128::MIN, "0"), (i128::MAX, "10")] {
        let st = parse_state_text(&state_file_text(offset, speed));
        assert_eq!(st.offset_ns, Some(offset));
        assert_eq!(st.speed.as_deref(), Some(speed));
    }
}

#[test]
fn names_the_state_file() {
    assert_eq!(state_file_name(42, 7), "timewarp-42-7.state");
    assert_eq!(
        state_file_name(u32::MAX, 1_772_388_000_123_456_789),
        "timewarp-4294967295-1772388000123456789.state"
    );
}

#[test]
fn puts_the_shim_first_in_the_preload_list() {
    assert_eq!(merge_preload("/x/libtimewarp_shim.so", None), "/x/libtimewarp_shim.so");
    assert_eq!(
        merge_preload("/x/libtimewarp_shim.so", Some("/y/other.so")),
        "/x/libtimewarp_shim.so:/y/other.so"
    );
    assert_eq!(merge_preload("/x/s.so", Some("  \t")), "/x/s.so");
    assert_eq!(merge_preload("/x/s.so", Some(" a ")), "/x/s.so: a ");
}
