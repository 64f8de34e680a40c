//! What the stylus is doing, as told by the Wayland tablet protocol.
//!
//! The program reads the protocol's tool events; this module keeps the
//! pen's flags and says what each event does to them and what the program
//! should do with the event's numbers (positions and pressures).

use vstd::prelude::*;
use std::collections::HashSet;

verus! {

/// The first stylus side button (`BTN_STYLUS`).
pub const BTN_STYLUS: u32 = 0x14b;

/// The second stylus side button (`BTN_STYLUS2`).
pub const BTN_STYLUS2: u32 = 0x14c;

/// Raw protocol pressure (out of 65535) from which a reading counts: above
/// 2% of the full range.
pub const PRESSURE_FLOOR: u32 = 1311;

/// The pen's flags.
#[derive(Clone, Copy, Debug, PartialEq, Eq, Structural)]
pub struct PenState {
    /// The tip touches the tablet.
    pub down: bool,
    /// The tip touched down since the frame began.
    pub pressed: bool,
    /// The tip lifted since the frame began.
    pub released: bool,
    /// The pen hovers within range.
    pub in_proximity: bool,
    /// The tool in range is the eraser end.
    pub eraser_tool: bool,
    /// A side button is held.
    pub stylus_btn: bool,
}

impl Default for PenState {
    fn default() -> (s: Self)
        ensures
            s == (PenState {
                down: false,
                pressed: false,
                released: false,
                in_proximity: false,
                eraser_tool: false,
                stylus_btn: false,
            }),
    {
        PenState {
            down: false,
            pressed: false,
            released: false,
            in_proximity: false,
            eraser_tool: false,
            stylus_btn: false,
        }
    }
}

/// A tool event of the tablet protocol, without its numbers.
#[derive(Clone, Copy, Debug, PartialEq, Eq, Structural)]
pub enum PenEvent {
    /// The tool's type: the eraser end or not.
    Type { eraser: bool },
    ProximityIn,
    ProximityOut,
    Down,
    Up,
    Motion,
    /// A pressure reading, out of 65535.
    Pressure { raw: u32 },
    Button { button: u32, pressed: bool },
    Removed,
    /// An event the pen does not follow.
    Other,
}

/// What the program does with an event beyond the flags.
#[derive(Clone, Copy, Debug, PartialEq, Eq, Structural)]
pub enum PenEffect {
    Nothing,
    /// Forget the last pressure reading.
    ClearPressure,
    /// Keep the event's pressure reading.
    TakePressure,
    /// Move the pen to the event's position; with `sample`, also add it to
    /// the stroke being drawn.
    Move { sample: bool },
    /// Let go of the tool object.
    Destroy,
}

/// The tip lifts, if it was down.
pub open spec fn lifted(s: PenState) -> PenState {
    if s.down {
        PenState { down: false, released: true, ..s }
    } else {
        s
    }
}

/// What event `e` does to the pen's flags, and what it asks of the program.
pub open spec fn pen_step(s: PenState, e: PenEvent) -> (PenState, PenEffect) {
    match e {
        PenEvent::Type { eraser } => (PenState { eraser_tool: eraser, ..s }, PenEffect::Nothing),
        PenEvent::ProximityIn => (PenState { in_proximity: true, ..s }, PenEffect::Nothing),
        PenEvent::ProximityOut => (
            PenState { in_proximity: false, stylus_btn: false, ..lifted(s) },
            PenEffect::ClearPressure,
        ),
        PenEvent::Down => (PenState { down: true, pressed: true, ..s }, PenEffect::Nothing),
        PenEvent::Up => (PenState { down: false, released: true, ..s }, PenEffect::Nothing),
        PenEvent::Motion => (s, PenEffect::Move { sample: s.down }),
        PenEvent::Pressure { raw } => (
            s,
            if raw >= PRESSURE_FLOOR {
                PenEffect::TakePressure
            } else {
                PenEffect::Nothing
            },
        ),
        PenEvent::Button { button, pressed } => (
            if button == BTN_STYLUS || button == BTN_STYLUS2 {
                PenState { stylus_btn: pressed, ..s }
            } else {
                s
            },
            PenEffect::Nothing,
        ),
        PenEvent::Removed => (PenState { in_proximity: false, ..lifted(s) }, PenEffect::Destroy),
        PenEvent::Other => (s, PenEffect::Nothing),
    }
}

impl PenState {
    /// Follows one tool event.
    pub fn event(&mut self, e: PenEvent) -> (effect: PenEffect)
        ensures
            (*final(self), effect) == pen_step(*old(self), e),
    {
        match e {
            PenEvent::Type { eraser } => {
                self.eraser_tool = eraser;
                PenEffect::Nothing
            },
            PenEvent::ProximityIn => {
                self.in_proximity = true;
                PenEffect::Nothing
            },
            PenEvent::ProximityOut => {
                if self.down {
                    self.down = false;
                    self.released = true;
                }
                self.in_proximity = false;
                self.stylus_btn = false;
                PenEffect::ClearPressure
            },
            PenEvent::Down => {
                self.down = true;
                self.pressed = true;
                PenEffect::Nothing
            },
            PenEvent::Up => {
                self.down = false;
                self.released = true;
                PenEffect::Nothing
            },
            PenEvent::Motion => PenEffect::Move { sample: self.down },
            PenEvent::Pressure { raw } => {
                if raw >= PRESSURE_FLOOR {
                    PenEffect::TakePressure
                } else {
                    PenEffect::Nothing
                }
            },
            PenEvent::Button { button, pressed } => {
                if button == BTN_STYLUS || button == BTN_STYLUS2 {
                    self.stylus_btn = pressed;
                }
                PenEffect::Nothing
            },
            PenEvent::Removed => {
                if self.down {
                    self.down = false;
                    self.released = true;
                }
                self.in_proximity = false;
                PenEffect::Destroy
            },
            PenEvent::Other => PenEffect::Nothing,
        }
    }

    /// A new frame begins: the touch-down and lift of the last one are
    /// forgotten.
    pub fn new_frame(&mut self)
        ensures
            *final(self) == (PenState { pressed: false, released: false, ..*old(self) }),
    {
        self.pressed = false;
        self.released = false;
    }

    /// The pen erases: its eraser end is in range, or a side button is held.
    pub fn erasing(&self) -> (r: bool)
        ensures
            r == (self.eraser_tool || self.stylus_btn),
    {
        self.eraser_tool || self.stylus_btn
    }
}

/// Whether the program should keep repainting for the pen: not once the
/// bridge has died; always until it is attached; then while the pen
/// hovers, touches, or the tablet manager has not shown up yet.
pub fn wants_repaint(dead: bool, attached: bool, in_proximity: bool, down: bool, has_manager: bool) -> (r: bool)
    ensures
        r == (!dead && (!attached || in_proximity || down || !has_manager)),
{
    if dead {
        return false;
    }
    if !attached {
        return true;
    }
    in_proximity || down || !has_manager
}

/// The seats of `seats` (by registry name) not bound yet, in order of
/// first appearance; each is added to `bound`.
pub fn seats_to_bind(seats: &[u32], bound: &mut HashSet<u32>) -> (r: Vec<u32>)
    ensures
        final(bound)@ == old(bound)@.union(seats@.to_set()),
        forall|k: int| 0 <= k < r@.len() ==> seats@.contains(#[trigger] r@[k]) && !old(bound)@.contains(r@[k]),
        forall|a: int, b: int| 0 <= a < b < r@.len() ==> r@[a] != r@[b],
        forall|k: int| 0 <= k < seats@.len() && !old(bound)@.contains(#[trigger] seats@[k]) ==> r@.contains(
            seats@[k],
        ),
{
    let mut out: Vec<u32> = Vec::new();
    let mut i: usize = 0;
    while i < seats.len()
        invariant
            0 <= i <= seats@.len(),
            bound@ == old(bound)@.union(seats@.take(i as int).to_set()),
            forall|k: int| 0 <= k < out@.len() ==> seats@.contains(#[trigger] out@[k]) && !old(bound)@.contains(out@[k]),
            forall|k: int| 0 <= k < out@.len() ==> bound@.contains(#[trigger] out@[k]),
            forall|a: int, b: int| 0 <= a < b < out@.len() ==> out@[a] != out@[b],
            forall|k: int| 0 <= k < i && !old(bound)@.contains(#[trigger] seats@[k]) ==> out@.contains(seats@[k]),
        decreases seats.len() - i,
    {
        let name = seats[i];
        let ghost before = out@;
        let ghost b0 = bound@;
        let fresh = bound.insert(name);
        if fresh {
            out.push(name);
        }
        proof {
            let t0 = seats@.take(i as int);
            let t1 = seats@.take(i + 1);
            assert(t1 =~= t0.push(name));
            assert(t1.to_set() =~= t0.to_set().insert(name)) by {
                assert forall|x: u32| t1.to_set().contains(x) <==> t0.to_set().insert(name).contains(x) by {
                    if t1.contains(x) && x != name {
                        let w = choose|w: int| 0 <= w < t1.len() && t1[w] == x;
                        assert(t0[w] == x);
                    }
                    if t0.contains(x) {
                        let w = choose|w: int| 0 <= w < t0.len() && t0[w] == x;
                        assert(t1[w] == x);
                    }
                    if x == name {
                        assert(t1[i as int] == x);
                    }
                }
            }
            assert(bound@ =~= old(bound)@.union(t1.to_set()));
            assert(seats@.contains(name)) by {
                assert(seats@[i as int] == name);
            }
            if fresh {
                assert(!b0.contains(name));
                assert forall|w: int| 0 <= w < before.len() implies before[w] != name by {
                    assert(b0.contains(before[w]));
                }
                assert(out@[out@.len() - 1] == name);
                assert forall|k: int| 0 <= k < out@.len() implies seats@.contains(#[trigger] out@[k])
                    && !old(bound)@.contains(out@[k]) by {
                    if k < before.len() {
                        assert(out@[k] == before[k]);
                    }
                }
            } else {
                assert(b0.contains(name));
            }
            assert forall|k: int| 0 <= k < i + 1 && !old(bound)@.contains(#[trigger] seats@[k]) implies out@.contains(
                seats@[k],
            ) by {
                if k < i {
                    let w = choose|w: int| 0 <= w < before.len() && before[w] == seats@[k];
                    assert(out@[w] == seats@[k]);
                } else if fresh {
                    assert(out@[out@.len() - 1] == seats@[k]);
                } else {
                    assert(b0.contains(name));
                    if !t0.to_set().contains(name) {
                        assert(old(bound)@.contains(name));
                    }
                    let w = choose|w: int| 0 <= w < t0.len() && t0[w] == name;
                    assert(seats@[w] == name);
                    assert(t0[w] == seats@[w]);
                    let v = choose|v: int| 0 <= v < before.len() && before[v] == seats@[w];
                    assert(out@[v] == name);
                }
            }
        }
        i = i + 1;
    }
    assert(seats@.take(i as int) =~= seats@);
    out
}

/// A tool-type event sets the eraser flag to whether the tool is the
/// eraser end, leaves every other flag as it was, and asks nothing more.
pub proof fn law_tool_type_sets_eraser(s: PenState, eraser: bool)
    ensures
        ({
            let (t, effect) = pen_step(s, PenEvent::Type { eraser });
            &&& t.eraser_tool == eraser
            &&& t.down == s.down
            &&& t.pressed == s.pressed
            &&& t.released == s.released
            &&& t.in_proximity == s.in_proximity
            &&& t.stylus_btn == s.stylus_btn
            &&& effect == PenEffect::Nothing
        }),
{
}

/// A side-button event sets the button flag to whether it is pressed when
/// it is one of the two stylus buttons, leaves it alone for any other
/// button, and changes no other flag.
pub proof fn law_side_button(s: PenState, button: u32, pressed: bool)
    ensures
        ({
            let (t, effect) = pen_step(s, PenEvent::Button { button, pressed });
            &&& t.stylus_btn == if button == BTN_STYLUS || button == BTN_STYLUS2 {
                pressed
            } else {
                s.stylus_btn
            }
            &&& t.down == s.down && t.pressed == s.pressed && t.released == s.released
            &&& t.in_proximity == s.in_proximity && t.eraser_tool == s.eraser_tool
            &&& effect == PenEffect::Nothing
        }),
{
}

/// The tip touching down leaves it down and pressed; lifting leaves it up
/// and released; neither touches the other flags.
pub proof fn law_tip_down_and_up(s: PenState)
    ensures
        ({
            let (t, _e) = pen_step(s, PenEvent::Down);
            &&& t.down && t.pressed && t.released == s.released
            &&& t.in_proximity == s.in_proximity && t.eraser_tool == s.eraser_tool
                && t.stylus_btn == s.stylus_btn
        }),
        ({
            let (t, _e) = pen_step(s, PenEvent::Up);
            &&& !t.down && t.released && t.pressed == s.pressed
            &&& t.in_proximity == s.in_proximity && t.eraser_tool == s.eraser_tool
                && t.stylus_btn == s.stylus_btn
        }),
{
}

/// After the pen leaves range it is up, away, with no button held, and a
/// stroke it was drawing has ended.
pub proof fn law_proximity_out_lifts(s: PenState)
    ensures
        ({
            let (t, _) = pen_step(s, PenEvent::ProximityOut);
            &&& !t.down && !t.in_proximity && !t.stylus_btn
            &&& s.down ==> t.released
        }),
{
}

/// A touch-down then a lift within one frame leaves the pen up, with both
/// the press and the release reported.
pub proof fn law_tap_reports_both(s: PenState)
    ensures
        ({
            let (t, _) = pen_step(s, PenEvent::Down);
            let (u, _) = pen_step(t, PenEvent::Up);
            !u.down && u.pressed && u.released
        }),
{
}

/// Motion samples the stroke exactly while the tip is down.
pub proof fn law_motion_samples_when_down(s: PenState)
    ensures
        pen_step(s, PenEvent::Motion) == (s, PenEffect::Move { sample: s.down }),
{
}

} // verus!
