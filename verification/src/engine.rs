use vstd::prelude::*;

verus! {

/// Pseudo key code used for mouse clicks.
pub const CLICK_CODE: u16 = 0xff;

/// A key (or mouse button) going down (`press`) or up.
#[derive(Clone, Copy, Debug, PartialEq, Eq, Structural)]
pub struct KeyEvent {
    pub code: u16,
    pub press: bool,
}

/// The user's settings, as plain values.
///
/// `gain` and `stereo_width` are percentages (0..=100).
#[derive(Clone, Copy, Debug, PartialEq, Eq, Structural)]
pub struct Settings {
    pub gain: u8,
    pub stereo_width: u8,
    pub fallback: bool,
    pub mouse_click: bool,
    pub muted: bool,
}

impl Default for Settings {
    /// Full volume, half stereo width, fallback sound and mouse clicks on,
    /// not muted.
    fn default() -> (s: Self)
        ensures
            s.gain == 100,
            s.stereo_width == 50,
            s.fallback,
            s.mouse_click,
            !s.muted,
    {
        Settings { gain: 100, stereo_width: 50, fallback: true, mouse_click: true, muted: false }
    }
}

} // verus!
