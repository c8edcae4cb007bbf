//! The mute hotkey: pressing the mute key twice within two seconds, with no
//! other key in between, toggles mute.
//!
//! A tracker reads the clock as nanoseconds since it was made; the time
//! between two presses is the difference of their readings (zero if the
//! later reading is the smaller), as `Instant::duration_since` gives it.

use vstd::prelude::*;

use core::time::Duration;
use std::time::Instant;

use crate::engine::KeyEvent;

verus! {

/// Scroll Lock, the mute key.
pub const MUTE_KEYCODE: u16 = 0x46;

/// How close (in nanoseconds) the second press must follow the first.
pub const MUTE_WINDOW_NANOS: u128 = 2_000_000_000;

#[verifier::external_type_specification]
#[verifier::external_body]
pub struct ExInstant(Instant);

/// The current time. Trusted: `Instant::now`; nothing is stated of the
/// result, which depends on the clock.
#[verifier::external_body]
fn instant_now() -> Instant {
    Instant::now()
}

/// The time since `origin`. Trusted: `Instant::elapsed`, which does not
/// panic (it gives zero if the clock reads earlier than `origin`); nothing
/// is stated of the result, which depends on the clock.
#[verifier::external_body]
fn instant_elapsed(origin: &Instant) -> Duration {
    origin.elapsed()
}

/// The whole nanoseconds of `d`. Trusted: `Duration::as_nanos`; `Duration`
/// is opaque here and has no plain value to state the result over.
#[verifier::external_body]
fn duration_as_nanos(d: &Duration) -> u128 {
    d.as_nanos()
}

/// The time (in nanoseconds) from the remembered mute press at reading
/// `last` to the reading `now`: their difference, or zero if `now` is the
/// smaller; `None` if no press is remembered.
pub open spec fn elapsed_since(now: u128, last: Option<u128>) -> Option<u128> {
    match last {
        Some(t) => Some(if now >= t {
            (now - t) as u128
        } else {
            0
        }),
        None => None,
    }
}

/// Whether a press at reading `now` follows the remembered mute press
/// within the window.
pub open spec fn is_quick(now: u128, last: Option<u128>) -> bool {
    match elapsed_since(now, last) {
        Some(n) => n < MUTE_WINDOW_NANOS,
        None => false,
    }
}

/// Whether a key press at reading `now` toggles mute, in state `s` (the
/// reading of the remembered mute press, and the count): a quick press of
/// the mute key while one earlier press is counted.
pub open spec fn mute_fires(s: (Option<u128>, nat), is_mute_key: bool, now: u128) -> bool {
    is_mute_key && is_quick(now, s.0) && s.1 + 1 == 2
}

/// The tracker's state after a key press at reading `now`. Another key
/// clears the count and keeps the remembered press; a mute press is
/// remembered with its reading, and starts a new count at 1 if slow, or
/// adds 1 if quick, the count starting over at 0 when it reaches 2.
pub open spec fn mute_next(s: (Option<u128>, nat), is_mute_key: bool, now: u128) -> (
    Option<u128>,
    nat,
) {
    if !is_mute_key {
        (s.0, 0)
    } else if is_quick(now, s.0) {
        (Some(now), if s.1 + 1 == 2 {
            0
        } else {
            (s.1 + 1) as nat
        })
    } else {
        (Some(now), 1)
    }
}

/// The tracker's state after a key event at reading `now`: releases change
/// nothing.
pub open spec fn mute_step(s: (Option<u128>, nat), ev: KeyEvent, now: u128) -> (Option<u128>, nat) {
    if ev.press {
        mute_next(s, ev.code == MUTE_KEYCODE, now)
    } else {
        s
    }
}

/// Whether a key event at reading `now` toggles mute: only presses can.
pub open spec fn event_fires(s: (Option<u128>, nat), ev: KeyEvent, now: u128) -> bool {
    ev.press && mute_fires(s, ev.code == MUTE_KEYCODE, now)
}

/// Counts presses of the mute key.
pub struct MuteTracker {
    origin: Instant,
    last: Option<u128>,
    count: u8,
}

impl View for MuteTracker {
    /// The clock reading of the remembered mute press, and the count.
    type V = (Option<u128>, nat);

    closed spec fn view(&self) -> (Option<u128>, nat) {
        (self.last, self.count as nat)
    }
}

impl MuteTracker {
    /// The instant from which the tracker's clock readings count.
    pub closed spec fn origin(&self) -> Instant {
        self.origin
    }

    #[verifier::type_invariant]
    closed spec fn count_below_two(self) -> bool {
        self.count <= 1
    }

    /// A tracker that remembers no press; its clock readings count from
    /// now.
    pub fn new() -> (t: MuteTracker)
        ensures
            t@ == (None::<u128>, 0nat),
    {
        MuteTracker { origin: instant_now(), last: None, count: 0 }
    }

    /// Records a key press at clock reading `now` (nanoseconds since the
    /// tracker was made) and says whether it toggles mute.
    pub fn press_at(&mut self, is_mute_key: bool, now: u128) -> (toggle: bool)
        ensures
            toggle == mute_fires(old(self)@, is_mute_key, now),
            final(self)@ == mute_next(old(self)@, is_mute_key, now),
            final(self).origin() == old(self).origin(),
            final(self)@.1 <= 1,
    {
        proof {
            use_type_invariant(&*self);
        }
        if !is_mute_key {
            self.count = 0;
            return false;
        }
        let recent = match self.last {
            Some(t) => {
                let gap = if now >= t {
                    now - t
                } else {
                    0
                };
                gap < MUTE_WINDOW_NANOS
            },
            None => false,
        };
        self.last = Some(now);
        if recent {
            if self.count == 1 {
                self.count = 0;
                true
            } else {
                self.count = self.count + 1;
                false
            }
        } else {
            self.count = 1;
            false
        }
    }

    /// Records a key press (`is_mute_key`: of the mute key) and says whether
    /// it toggles mute: the second of two mute presses less than two
    /// seconds apart with no other key between them does. A mute press
    /// reads the clock (nanoseconds since the tracker's origin, which stays
    /// the same); the result and the new state are those of `press_at` at
    /// that reading.
    pub fn pressed(&mut self, is_mute_key: bool) -> (toggle: bool)
        ensures
            exists|now: u128|
                {
                    &&& final(self)@ == #[trigger] mute_next(old(self)@, is_mute_key, now)
                    &&& toggle == mute_fires(old(self)@, is_mute_key, now)
                },
            !is_mute_key ==> final(self)@ == (old(self)@.0, 0nat) && !toggle,
            final(self).origin() == old(self).origin(),
            final(self)@.1 <= 1,
    {
        if !is_mute_key {
            proof {
                use_type_invariant(&*self);
            }
            self.count = 0;
            assert(self@ == mute_next(old(self)@, false, 0));
            return false;
        }
        let now = duration_as_nanos(&instant_elapsed(&self.origin));
        self.press_at(true, now)
    }
}

impl Default for MuteTracker {
    /// A tracker that remembers no press.
    fn default() -> (t: MuteTracker)
        ensures
            t@ == (None::<u128>, 0nat),
    {
        MuteTracker::new()
    }
}

impl MuteTracker {
    /// Feeds a key event to the tracker: only presses count (a release
    /// changes nothing), and a press of `MUTE_KEYCODE` is a mute press.
    /// Says whether the event toggles mute.
    pub fn on_event(&mut self, ev: KeyEvent) -> (toggle: bool)
        ensures
            exists|now: u128|
                {
                    &&& final(self)@ == #[trigger] mute_step(old(self)@, ev, now)
                    &&& toggle == event_fires(old(self)@, ev, now)
                },
            !ev.press ==> final(self)@ == old(self)@ && !toggle,
            final(self).origin() == old(self).origin(),
            final(self)@.1 <= 1,
    {
        if !ev.press {
            proof {
                use_type_invariant(&*self);
                assert(mute_step(self@, ev, 0) == self@);
            }
            return false;
        }
        let ghost before = self@;
        let is_mute = ev.code == MUTE_KEYCODE;
        let toggle = self.pressed(is_mute);
        proof {
            let t = choose|t: u128|
                {
                    &&& self@ == #[trigger] mute_next(before, is_mute, t)
                    &&& toggle == mute_fires(before, is_mute, t)
                };
            assert(mute_step(before, ev, t) == self@);
        }
        toggle
    }
}

/// The window is two seconds, strict: a press at reading `now`, not earlier
/// than the remembered press at `t`, is quick exactly when less than
/// `MUTE_WINDOW_NANOS` passed.
pub proof fn law_window_is_strict(now: u128, t: u128)
    requires
        t <= now,
    ensures
        is_quick(now, Some(t)) <==> now - t < MUTE_WINDOW_NANOS,
        !is_quick(now, None),
{
}

/// Two presses of the mute key less than two seconds apart toggle mute
/// when the count is clear (as it is in a new tracker, after any other
/// key, and after a toggle): the first press does not toggle, the second
/// does, and the second is then remembered.
pub proof fn law_double_press_toggles(s: (Option<u128>, nat), t1: u128, t2: u128)
    requires
        s.1 == 0,
        t1 <= t2 < t1 + MUTE_WINDOW_NANOS,
    ensures
        !mute_fires(s, true, t1),
        mute_fires(mute_next(s, true, t1), true, t2),
        mute_next(mute_next(s, true, t1), true, t2) == (Some(t2), 0nat),
{
}

/// Any other key in between cancels a pending mute press and keeps the
/// time of the remembered one: after it, not even a quick mute press
/// toggles.
pub proof fn law_other_key_cancels(s: (Option<u128>, nat), t: u128, t2: u128)
    ensures
        mute_next(s, false, t) == (s.0, 0nat),
        !mute_fires(s, false, t),
        !mute_fires(mute_next(s, false, t), true, t2),
{
}

/// A mute press two seconds or more after the remembered one never
/// toggles; it is remembered, with one press counted.
pub proof fn law_slow_press_never_toggles(s: (Option<u128>, nat), now: u128)
    requires
        !is_quick(now, s.0),
    ensures
        !mute_fires(s, true, now),
        mute_next(s, true, now) == (Some(now), 1nat),
{
}

/// Two presses in a row never both toggle.
pub proof fn law_no_toggle_twice_in_a_row(
    s: (Option<u128>, nat),
    m1: bool,
    t1: u128,
    m2: bool,
    t2: u128,
)
    requires
        s.1 <= 1,
    ensures
        mute_fires(s, m1, t1) ==> !mute_fires(mute_next(s, m1, t1), m2, t2),
{
}

/// The count never leaves {0, 1}; a mute press is remembered with its own
/// reading, and another key keeps the remembered press.
pub proof fn law_state_stays_bounded(s: (Option<u128>, nat), is_mute_key: bool, now: u128)
    requires
        s.1 <= 1,
    ensures
        mute_next(s, is_mute_key, now).1 <= 1,
        is_mute_key ==> mute_next(s, is_mute_key, now).0 == Some(now),
        !is_mute_key ==> mute_next(s, is_mute_key, now).0 == s.0,
{
}

/// A press with nothing counted never toggles, however quick; so neither
/// does the first press after a toggle, after another key, or of a new
/// tracker.
pub proof fn law_uncounted_press_never_toggles(last: Option<u128>, is_mute_key: bool, now: u128)
    ensures
        !mute_fires((last, 0nat), is_mute_key, now),
{
}

} // verus!
