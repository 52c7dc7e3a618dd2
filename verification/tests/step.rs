use timewarp::step::{offset_status, step_banner, StepAction, StepController};

const MINUTE: i128 = 60_000_000_000;

fn feed_all(c: &mut StepController, bytes: &[u8]) -> Vec<StepAction> {
    bytes.iter().map(|b| c.feed(*b)).collect()
}

#[test]
fn enter_applies_the_step() {
    let mut c = StepController::new(MINUTE, 0);
    assert_eq!(c.feed(b'\n'), StepAction::Shift(MINUTE));
    assert_eq!(c.feed(b'\r'), StepAction::Shift(MINUTE));
    assert_eq!(c.apply(MINUTE), MINUTE);
    assert_eq!(c.offset_ns(), MINUTE);
}

#[test]
fn arrows_move_by_the_magnitude() {
    let mut c = StepController::new(-MINUTE, 5);
    assert_eq!(c.feed(b'\n'), StepAction::Shift(-MINUTE));
    let left = feed_all(&mut c, &[0x1b, b'[', b'D']);
    assert_eq!(left, vec![StepAction::Continue, StepAction::Continue, StepAction::Shift(-MINUTE)]);
    let right = feed_all(&mut c, &[0x1b, b'[', b'C']);
    assert_eq!(right, vec![StepAction::Continue, StepAction::Continue, StepAction::Shift(MINUTE)]);
}

#[test]
fn left_then_right_returns_to_the_same_offset() {
    let mut c = StepController::new(MINUTE, 42);
    for b in [0x1b, b'[', b'D', 0x1b, b'[', b'C'] {
        if let StepAction::Shift(d) = c.feed(b) {
            c.apply(d);
        }
    }
    assert_eq!(c.offset_ns(), 42);
}

#[test]
fn q_quits_outside_escape_sequences() {
    let mut c = StepController::new(MINUTE, 0);
    assert_eq!(c.feed(b'q'), StepAction::Quit);
    assert_eq!(c.feed(b'Q'), StepAction::Quit);
    let consumed = feed_all(&mut c, &[0x1b, b'q', b'x', b'q']);
    assert_eq!(
        consumed,
        vec![StepAction::Continue, StepAction::Continue, StepAction::Continue, StepAction::Quit]
    );
}

#[test]
fn other_keys_do_nothing() {
    let mut c = StepController::new(MINUTE, 0);
    assert_eq!(c.feed(b'a'), StepAction::Continue);
    let other = feed_all(&mut c, &[0x1b, b'[', b'A', b'\n']);
    assert_eq!(
        other,
        vec![StepAction::Continue, StepAction::Continue, StepAction::Continue, StepAction::Shift(MINUTE)]
    );
}

#[test]
fn banner_for_positive_and_negative_steps() {
    assert_eq!(
        step_banner(MINUTE),
        "timewarp step mode: Left Arrow=-1m | Right Arrow=+1m/Enter=1m | q=quit step control"
    );
    assert_eq!(
        step_banner(-500_000_000),
        "timewarp step mode: Left Arrow=-500000000ns/Enter=-500000000ns | Right Arrow=+500000000ns | q=quit step control"
    );
}

#[test]
fn reports_the_offset() {
    assert_eq!(offset_status(3_600_000_000_000), "timewarp: offset now 1h");
    assert_eq!(offset_status(-MINUTE), "timewarp: offset now -1m");
}
