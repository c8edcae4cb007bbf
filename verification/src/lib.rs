//! Key-press sounds: the decisions behind a keyboard-noise player.
//!
//! The library decodes raw Linux input events, picks the devices to listen
//! to, parses the names of the sound files, assembles the sound bank, tracks
//! the mute hotkey and chooses the clip that each event plays.

pub mod audio;
pub mod engine;
pub mod input;
pub mod mute;
pub mod sound_name;
pub mod text;
