//! Interactive stepping: keys typed on the terminal move the virtual clock
//! by a fixed step. Enter applies the step as given, the left arrow moves
//! back by its magnitude, the right arrow forward, and `q` stops stepping.
use vstd::prelude::*;

use crate::duration::{duration_text, format_duration_ns, magnitude};
use crate::text::{push_all, string_from_chars};

verus! {

/// Where the controller is within an escape sequence.
#[derive(Debug, Clone, Copy, PartialEq, Eq)]
pub enum EscapeState {
    /// Not inside an escape sequence.
    Idle,
    /// ESC was read; two more bytes follow.
    AfterEscape,
    /// ESC and one byte were read; records whether that byte was `[`.
    AfterFirst(bool),
}

/// What the front end does after a key byte.
#[derive(Debug, Clone, Copy, PartialEq, Eq)]
pub enum StepAction {
    /// Nothing to do; read the next byte.
    Continue,
    /// Stop the step controller.
    Quit,
    /// The offset moved by the given nanoseconds; write the new state.
    Shift(i128),
}

/// The step controller's state.
pub struct StepController {
    step_ns: i128,
    offset_ns: i128,
    escape: EscapeState,
}

/// The escape state and action that one byte leads to, for a step of
/// `step` nanoseconds.
pub open spec fn step_transition(escape: EscapeState, step: int, byte: u8) -> (
    EscapeState,
    Option<Option<int>>,
) {
    match escape {
        EscapeState::Idle => if byte == 10 || byte == 13 {
            (EscapeState::Idle, Some(Some(step)))
        } else if byte == 113 || byte == 81 {
            (EscapeState::Idle, None)
        } else if byte == 27 {
            (EscapeState::AfterEscape, Some(None))
        } else {
            (EscapeState::Idle, Some(None))
        },
        EscapeState::AfterEscape => (EscapeState::AfterFirst(byte == 91), Some(None)),
        EscapeState::AfterFirst(bracket) => if bracket && byte == 68 {
            (EscapeState::Idle, Some(Some(-magnitude(step))))
        } else if bracket && byte == 67 {
            (EscapeState::Idle, Some(Some(magnitude(step))))
        } else {
            (EscapeState::Idle, Some(None))
        },
    }
}

/// The action as the spec of `step_transition` writes it: `None` to quit,
/// `Some(None)` to go on, `Some(Some(d))` to shift by `d`.
pub open spec fn action_meaning(a: StepAction) -> Option<Option<int>> {
    match a {
        StepAction::Quit => None,
        StepAction::Continue => Some(None),
        StepAction::Shift(d) => Some(Some(d as int)),
    }
}

impl StepController {
    /// The step's magnitude is representable.
    #[verifier::type_invariant]
    spec fn well_formed(&self) -> bool {
        self.step_ns != i128::MIN
    }

    pub closed spec fn step(&self) -> int {
        self.step_ns as int
    }

    pub closed spec fn offset(&self) -> int {
        self.offset_ns as int
    }

    pub closed spec fn escape(&self) -> EscapeState {
        self.escape
    }

    /// A controller for steps of `step_ns`, starting at `offset_ns`.
    pub fn new(step_ns: i128, offset_ns: i128) -> (c: Self)
        requires
            step_ns != i128::MIN,
        ensures
            c.step() == step_ns,
            c.offset() == offset_ns,
            c.escape() == EscapeState::Idle,
    {
        StepController { step_ns, offset_ns, escape: EscapeState::Idle }
    }

    /// The current offset in nanoseconds.
    pub fn offset_ns(&self) -> (r: i128)
        ensures
            r == self.offset(),
    {
        self.offset_ns
    }

    /// Reads one key byte. A shift is reported but not yet applied.
    pub fn feed(&mut self, byte: u8) -> (a: StepAction)
        ensures
            final(self).step() == old(self).step(),
            final(self).offset() == old(self).offset(),
            (final(self).escape(), action_meaning(a)) == step_transition(
                old(self).escape(),
                old(self).step(),
                byte,
            ),
            a matches StepAction::Shift(d) ==> ((old(self).escape() == EscapeState::Idle && (
            byte == 10 || byte == 13) && d == old(self).step()) || (old(self).escape()
                == EscapeState::AfterFirst(true) && byte == 68 && d == -magnitude(old(self).step()))
                || (old(self).escape() == EscapeState::AfterFirst(true) && byte == 67 && d
                == magnitude(old(self).step()))),
            (a is Quit) <==> (old(self).escape() == EscapeState::Idle && (byte == 113 || byte
                == 81)),
            final(self).escape() == EscapeState::AfterEscape ==> (old(self).escape()
                == EscapeState::Idle && byte == 27),
            final(self).escape() == EscapeState::AfterFirst(true) ==> (old(self).escape()
                == EscapeState::AfterEscape && byte == 91),
            final(self).escape() is AfterFirst ==> old(self).escape() == EscapeState::AfterEscape,
    {
        proof {
            use_type_invariant(&*self);
        }
        let magnitude_ns = if self.step_ns < 0 {
            -self.step_ns
        } else {
            self.step_ns
        };
        match self.escape {
            EscapeState::Idle => {
                if byte == 10 || byte == 13 {
                    StepAction::Shift(self.step_ns)
                } else if byte == 113 || byte == 81 {
                    StepAction::Quit
                } else if byte == 27 {
                    self.escape = EscapeState::AfterEscape;
                    StepAction::Continue
                } else {
                    StepAction::Continue
                }
            },
            EscapeState::AfterEscape => {
                self.escape = EscapeState::AfterFirst(byte == 91);
                StepAction::Continue
            },
            EscapeState::AfterFirst(bracket) => {
                self.escape = EscapeState::Idle;
                if bracket && byte == 68 {
                    StepAction::Shift(-magnitude_ns)
                } else if bracket && byte == 67 {
                    StepAction::Shift(magnitude_ns)
                } else {
                    StepAction::Continue
                }
            },
        }
    }

    /// Moves the offset by `delta_ns` and gives the new offset.
    pub fn apply(&mut self, delta_ns: i128) -> (r: i128)
        requires
            i128::MIN <= old(self).offset() + delta_ns <= i128::MAX,
        ensures
            r == old(self).offset() + delta_ns,
            final(self).offset() == r,
            final(self).step() == old(self).step(),
            final(self).escape() == old(self).escape(),
    {
        proof {
            use_type_invariant(&*self);
        }
        self.offset_ns = self.offset_ns + delta_ns;
        self.offset_ns
    }
}

/// Only four keys act: in the idle state Enter (line feed or carriage return)
/// shifts by the step and `q` or `Q` quits; an escape sequence `ESC [ D`
/// shifts back by the step's magnitude and `ESC [ C` forward by it. Every
/// other byte, in every state, shifts nothing and does not quit; and the
/// only way into the middle of an arrow sequence is `ESC` then `[`.
pub proof fn lemma_only_listed_keys_act(escape: EscapeState, step: int, byte: u8)
    ensures
        ({
            let (next, action) = step_transition(escape, step, byte);
            &&& (action matches Some(Some(d)) ==> ((escape == EscapeState::Idle && (byte == 10
                || byte == 13) && d == step) || (escape == EscapeState::AfterFirst(true) && byte
                == 68 && d == -magnitude(step)) || (escape == EscapeState::AfterFirst(true)
                && byte == 67 && d == magnitude(step))))
            &&& (action is None <==> (escape == EscapeState::Idle && (byte == 113 || byte
                == 81)))
            &&& (next == EscapeState::AfterEscape ==> (escape == EscapeState::Idle && byte
                == 27))
            &&& (next == EscapeState::AfterFirst(true) ==> (escape == EscapeState::AfterEscape
                && byte == 91))
            &&& (next is AfterFirst ==> escape == EscapeState::AfterEscape)
        }),
{
}

/// A left arrow followed by a right arrow leaves the offset where it was,
/// and the other way round, from any point outside an escape sequence.
pub proof fn lemma_left_right_cancel(step: int)
    ensures
        ({
            let (e1, a1) = step_transition(EscapeState::Idle, step, 27);
            let (e2, a2) = step_transition(e1, step, 91);
            let (e3, left) = step_transition(e2, step, 68);
            let (e4, b1) = step_transition(e3, step, 27);
            let (e5, b2) = step_transition(e4, step, 91);
            let (e6, right) = step_transition(e5, step, 67);
            &&& a1 == Some(None::<int>) && a2 == Some(None::<int>)
            &&& b1 == Some(None::<int>) && b2 == Some(None::<int>)
            &&& left == Some(Some(-magnitude(step)))
            &&& right == Some(Some(magnitude(step)))
            &&& e3 == EscapeState::Idle && e6 == EscapeState::Idle
        }),
{
}

/// The banner shown when step mode starts: the keys and what each does.
pub open spec fn step_banner_text(step: int) -> Seq<char> {
    let left = "Left Arrow=-"@ + duration_text(magnitude(step));
    let right = "Right Arrow=+"@ + duration_text(magnitude(step));
    let enter = "/Enter="@ + duration_text(step);
    if step < 0 {
        "timewarp step mode: "@ + left + enter + " | "@ + right + " | q=quit step control"@
    } else {
        "timewarp step mode: "@ + left + " | "@ + right + enter + " | q=quit step control"@
    }
}

/// Builds the banner shown when step mode starts.
pub fn step_banner(step_ns: i128) -> (r: String)
    requires
        step_ns != i128::MIN,
    ensures
        r@ == step_banner_text(step_ns as int),
{
    let magnitude_ns = if step_ns < 0 {
        -step_ns
    } else {
        step_ns
    };
    let step_text = format_duration_ns(step_ns);
    let magnitude_text = format_duration_ns(magnitude_ns);
    let mut out: Vec<char> = Vec::new();
    push_all(&mut out, "timewarp step mode: ");
    push_all(&mut out, "Left Arrow=-");
    push_all(&mut out, magnitude_text.as_str());
    if step_ns < 0 {
        push_all(&mut out, "/Enter=");
        push_all(&mut out, step_text.as_str());
        push_all(&mut out, " | ");
        push_all(&mut out, "Right Arrow=+");
        push_all(&mut out, magnitude_text.as_str());
    } else {
        push_all(&mut out, " | ");
        push_all(&mut out, "Right Arrow=+");
        push_all(&mut out, magnitude_text.as_str());
        push_all(&mut out, "/Enter=");
        push_all(&mut out, step_text.as_str());
    }
    push_all(&mut out, " | q=quit step control");
    assert(out@ =~= step_banner_text(step_ns as int));
    string_from_chars(&out)
}

/// The line reporting a new offset.
pub open spec fn offset_status_text(offset: int) -> Seq<char> {
    "timewarp: offset now "@ + duration_text(offset)
}

/// Builds the line reporting a new offset.
pub fn offset_status(offset_ns: i128) -> (r: String)
    requires
        offset_ns != i128::MIN,
    ensures
        r@ == offset_status_text(offset_ns as int),
{
    let text = format_duration_ns(offset_ns);
    let mut out: Vec<char> = Vec::new();
    push_all(&mut out, "timewarp: offset now ");
    push_all(&mut out, text.as_str());
    assert(out@ =~= offset_status_text(offset_ns as int));
    string_from_chars(&out)
}

} // verus!
