use keysnoise::engine::KeyEvent;
use keysnoise::mute::{MuteTracker, MUTE_KEYCODE};

const SECOND: u128 = 1_000_000_000;

#[test]
fn two_quick_presses_toggle() {
    let mut t = MuteTracker::default();
    assert!(!t.press_at(true, 0));
    assert!(t.press_at(true, SECOND));
    assert!(!t.press_at(true, SECOND + 1_000));
    assert!(t.press_at(true, SECOND + 2_000));
}

#[test]
fn four_quick_presses_toggle_twice() {
    let mut t = MuteTracker::new();
    assert!(!t.press_at(true, 0));
    assert!(t.press_at(true, SECOND / 2));
    assert!(!t.press_at(true, SECOND));
    assert!(t.press_at(true, 3 * SECOND / 2));
    // The last press is remembered: 1.9 s after it is still quick.
    assert!(!t.press_at(true, 3 * SECOND / 2 + 1_900_000_000));
}

#[test]
fn window_is_strict() {
    let mut t = MuteTracker::new();
    assert!(!t.press_at(true, 5 * SECOND));
    assert!(!t.press_at(true, 7 * SECOND));
    assert!(t.press_at(true, 9 * SECOND - 1));
}

#[test]
fn slow_presses_are_timed_from_the_latest_press() {
    let mut t = MuteTracker::new();
    assert!(!t.press_at(true, 0));
    assert!(!t.press_at(true, 3 * SECOND));
    assert!(t.press_at(true, 4 * SECOND));
}

#[test]
fn other_key_in_between_cancels() {
    let mut t = MuteTracker::new();
    assert!(!t.press_at(true, 0));
    assert!(!t.press_at(false, 10));
    assert!(!t.press_at(true, 20));
    assert!(t.press_at(true, 30));
}

#[test]
fn other_key_keeps_the_remembered_press() {
    let mut t = MuteTracker::new();
    assert!(!t.press_at(true, 0));
    assert!(!t.press_at(false, SECOND));
    // Timed from the mute press at 0, not from the other key at 1 s.
    assert!(!t.press_at(true, 2 * SECOND + 1));
    assert!(t.press_at(true, 2 * SECOND + 2));
}

#[test]
fn earlier_reading_counts_as_no_time() {
    let mut t = MuteTracker::new();
    assert!(!t.press_at(true, 10 * SECOND));
    assert!(t.press_at(true, SECOND));
}

#[test]
fn pressed_twice_right_away_toggles() {
    let mut t = MuteTracker::new();
    assert!(!t.pressed(true));
    assert!(t.pressed(true));
    assert!(!t.pressed(false));
    assert!(!t.pressed(true));
    assert!(t.pressed(true));
}

#[test]
fn on_event_counts_only_presses() {
    let mut t = MuteTracker::new();
    let down = KeyEvent { code: MUTE_KEYCODE, press: true };
    let up = KeyEvent { code: MUTE_KEYCODE, press: false };
    let other_up = KeyEvent { code: 0x1e, press: false };
    let other_down = KeyEvent { code: 0x1e, press: true };
    assert!(!t.on_event(down));
    assert!(!t.on_event(up));
    assert!(!t.on_event(other_up));
    assert!(t.on_event(down));
    assert!(!t.on_event(down));
    assert!(!t.on_event(other_down));
    assert!(!t.on_event(down));
}
