use keysnoise::audio::{select_clip, stereo_frames, SoundBank, FALLBACK_CODE};
use keysnoise::engine::{KeyEvent, Settings, CLICK_CODE};
use keysnoise::sound_name::sound_key;

fn bank(files: &[(&str, u32)]) -> SoundBank<u32> {
    let names: Vec<String> = files.iter().map(|f| f.0.to_string()).collect();
    match SoundBank::load("d", &names, |i| Some(files[i].1)) {
        Ok(b) => b,
        Err(e) => panic!("{e}"),
    }
}

#[test]
fn settings_default_values() {
    let s = Settings::default();
    assert_eq!(s.gain, 100);
    assert_eq!(s.stereo_width, 50);
    assert!(s.fallback);
    assert!(s.mouse_click);
    assert!(!s.muted);
}

#[test]
fn sound_key_of_press_and_release() {
    assert_eq!(sound_key("1e-1.wav"), Some(0x11e));
    assert_eq!(sound_key("1e-0.wav"), Some(0x1e));
    assert_eq!(sound_key("ff-1.wav"), Some(0x1ff));
    assert_eq!(sound_key("0-0.wav"), Some(0));
}

#[test]
fn sound_key_ignores_case_of_extension_and_digits() {
    assert_eq!(sound_key("1E-0.WAV"), Some(0x1e));
    assert_eq!(sound_key("3a-1.Wav"), Some(0x13a));
    assert_eq!(sound_key("3A-1.wAv"), Some(0x13a));
}

#[test]
fn sound_key_accepts_plus_sign_and_leading_zeros() {
    assert_eq!(sound_key("+1e-1.wav"), Some(0x11e));
    assert_eq!(sound_key("001e-1.wav"), Some(0x11e));
}

#[test]
fn sound_key_rejects_other_names() {
    assert_eq!(sound_key("100-1.wav"), None);
    assert_eq!(sound_key("1e-2.wav"), None);
    assert_eq!(sound_key("1e-10.wav"), None);
    assert_eq!(sound_key("1e.wav"), None);
    assert_eq!(sound_key(".wav"), None);
    assert_eq!(sound_key("1e-1.wav.bak"), None);
    assert_eq!(sound_key("1e-1.mp3"), None);
    assert_eq!(sound_key("1e-1"), None);
    assert_eq!(sound_key("xy-1.wav"), None);
    assert_eq!(sound_key("-1.wav"), None);
    assert_eq!(sound_key("+-1.wav"), None);
    assert_eq!(sound_key("-1e-1.wav"), None);
    assert_eq!(sound_key("1e-1-1.wav"), None);
    assert_eq!(sound_key("a.b-1.wav"), None);
    assert_eq!(sound_key(""), None);
    assert_eq!(sound_key(".."), None);
    assert_eq!(sound_key("é-1.wav"), None);
}

#[test]
fn sound_key_uses_last_dot_and_first_dash() {
    assert_eq!(sound_key("1e-1.x.wav"), None);
    assert_eq!(sound_key("1e-1..wav"), None);
}

#[test]
fn load_refuses_empty_folder() {
    let r = SoundBank::<u32>::load("/tmp/sounds", &[], |_| Some(0));
    match r {
        Err(msg) => assert_eq!(msg, "No key sounds (e.g. 1e-1.wav) found in \"/tmp/sounds\"."),
        Ok(_) => panic!("an empty folder must be refused"),
    }
}

#[test]
fn load_then_get() {
    let bank = bank(&[("1e-1.wav", 7), ("1e-0.wav", 8)]);
    assert_eq!(bank.get(0x1e, true), Some(&7));
    assert_eq!(bank.get(0x1e, false), Some(&8));
    assert_eq!(bank.get(0x1f, true), None);
}

#[test]
fn later_sound_replaces_earlier() {
    let bank = bank(&[("1e-1.wav", 1), ("1E-1.WAV", 2)]);
    assert_eq!(bank.get(0x1e, true), Some(&2));
}

#[test]
fn select_clip_own_sound_first() {
    let bank = bank(&[("1e-1.wav", 1), ("31-1.wav", 9)]);
    let ev = KeyEvent { code: 0x1e, press: true };
    assert_eq!(select_clip(&bank, ev, false, true, true), Some(&1));
}

#[test]
fn select_clip_fallback() {
    assert_eq!(FALLBACK_CODE, 0x31);
    let bank = bank(&[("31-1.wav", 9), ("31-0.wav", 10)]);
    let press = KeyEvent { code: 0x20, press: true };
    let release = KeyEvent { code: 0x20, press: false };
    assert_eq!(select_clip(&bank, press, false, true, true), Some(&9));
    assert_eq!(select_clip(&bank, release, false, true, true), Some(&10));
    assert_eq!(select_clip(&bank, press, false, true, false), None);
}

#[test]
fn select_clip_muted_plays_nothing() {
    let bank = bank(&[("1e-1.wav", 1)]);
    let ev = KeyEvent { code: 0x1e, press: true };
    assert_eq!(select_clip(&bank, ev, true, true, true), None);
}

#[test]
fn select_clip_click_setting() {
    let bank = bank(&[("ff-1.wav", 5), ("31-1.wav", 9)]);
    let click = KeyEvent { code: CLICK_CODE, press: true };
    assert_eq!(select_clip(&bank, click, false, true, true), Some(&5));
    assert_eq!(select_clip(&bank, click, false, false, true), None);
}

#[test]
fn stereo_frames_from_stereo() {
    let f = stereo_frames(&[1, 2, 3, 4, 5], 2);
    assert_eq!(f, vec![(1, 2), (3, 4)]);
}

#[test]
fn stereo_frames_from_mono() {
    let f = stereo_frames(&[1, 2, 3], 1);
    assert_eq!(f, vec![(1, 1), (2, 2), (3, 3)]);
}

#[test]
fn stereo_frames_from_three_channels() {
    let f = stereo_frames(&[1, 2, 3, 4, 5, 6, 7], 3);
    assert_eq!(f, vec![(1, 2), (4, 5)]);
}

#[test]
fn stereo_frames_zero_channels_is_mono() {
    let f = stereo_frames(&[0.5f32, -0.5], 0);
    assert_eq!(f, vec![(0.5, 0.5), (-0.5, -0.5)]);
}

#[test]
fn every_key_sound_file_name_round_trips() {
    for code in 0u16..256 {
        assert_eq!(sound_key(&format!("{:02x}-1.wav", code)), Some(code + 256));
        assert_eq!(sound_key(&format!("{:02x}-0.wav", code)), Some(code));
        assert_eq!(sound_key(&format!("{:02X}-0.WAV", code)), Some(code));
    }
}

#[test]
fn loaded_sound_is_found_by_its_event() {
    let name = "2a-1.wav";
    assert_eq!(sound_key(name), Some(0x12a));
    let names = vec![name.to_string()];
    let bank = SoundBank::load("d", &names, |_| Some("shift")).unwrap();
    assert_eq!(bank.get(0x2a, true), Some(&"shift"));
    assert_eq!(bank.get(0x2a, false), None);
}

#[test]
fn muted_or_silenced_events_of_any_code_play_nothing() {
    let bank = bank(&[("1e-1.wav", 1)]);
    let high = KeyEvent { code: 0xffff, press: true };
    assert_eq!(select_clip(&bank, high, true, true, true), None);
}

#[test]
fn load_reads_only_key_sounds_and_skips_failures() {
    let names: Vec<String> =
        ["readme.txt", "1e-1.wav", "1f-1.wav", "x-1.wav", "20-0.wav"].iter().map(|n| n.to_string()).collect();
    let asked = std::cell::RefCell::new(Vec::new());
    let b = SoundBank::load("d", &names, |i| {
        asked.borrow_mut().push(i);
        if i == 2 { None } else { Some(i as u32) }
    })
    .unwrap();
    assert_eq!(*asked.borrow(), vec![1, 2, 4]);
    assert_eq!(b.get(0x1e, true), Some(&1));
    assert_eq!(b.get(0x1f, true), None);
    assert_eq!(b.get(0x20, false), Some(&4));
}

#[test]
fn load_refuses_folder_whose_sounds_all_fail() {
    let names = vec!["1e-1.wav".to_string(), "notes.txt".to_string()];
    match SoundBank::<u32>::load("snd", &names, |_| None) {
        Err(msg) => assert_eq!(msg, "No key sounds (e.g. 1e-1.wav) found in \"snd\"."),
        Ok(_) => panic!("nothing was read"),
    }
}
