use keysnoise::engine::{KeyEvent, CLICK_CODE};
use keysnoise::input::{check_devices, decode_events, list_devices, Device, Kind, NO_ACCESS, NO_KEYBOARD};

fn record(long: usize, etype: u16, code: u16, value: i32, little: bool) -> Vec<u8> {
    let mut r = vec![0xAAu8; 2 * long];
    if little {
        r.extend_from_slice(&etype.to_le_bytes());
        r.extend_from_slice(&code.to_le_bytes());
        r.extend_from_slice(&value.to_le_bytes());
    } else {
        r.extend_from_slice(&etype.to_be_bytes());
        r.extend_from_slice(&code.to_be_bytes());
        r.extend_from_slice(&value.to_be_bytes());
    }
    r
}

#[test]
fn decode_keyboard_press_and_release() {
    let mut buf = record(8, 1, 30, 1, true);
    buf.extend(record(8, 1, 30, 0, true));
    let evs = decode_events(&buf, 8, Kind::Keyboard, true);
    assert_eq!(evs, vec![KeyEvent { code: 30, press: true }, KeyEvent { code: 30, press: false }]);
}

#[test]
fn decode_skips_repeats_and_other_types() {
    let mut buf = record(8, 1, 30, 2, true);
    buf.extend(record(8, 4, 30, 1, true));
    buf.extend(record(8, 0, 0, 0, true));
    buf.extend(record(8, 1, 0x110, 1, true));
    buf.extend(record(8, 1, 0xff, 1, true));
    let evs = decode_events(&buf, 8, Kind::Keyboard, true);
    assert_eq!(evs, vec![KeyEvent { code: 0xff, press: true }]);
}

#[test]
fn decode_mouse_buttons_as_clicks() {
    let mut buf = record(4, 1, 0x110, 1, true);
    buf.extend(record(4, 1, 0x111, 0, true));
    buf.extend(record(4, 1, 0x112, 1, true));
    buf.extend(record(4, 1, 30, 1, true));
    let evs = decode_events(&buf, 4, Kind::Mouse, true);
    assert_eq!(
        evs,
        vec![KeyEvent { code: CLICK_CODE, press: true }, KeyEvent { code: CLICK_CODE, press: false }]
    );
}

#[test]
fn decode_ignores_partial_record() {
    let mut buf = record(8, 1, 30, 1, true);
    let tail = record(8, 1, 31, 1, true);
    buf.extend_from_slice(&tail[..20]);
    let evs = decode_events(&buf, 8, Kind::Keyboard, true);
    assert_eq!(evs, vec![KeyEvent { code: 30, press: true }]);
}

#[test]
fn decode_big_endian() {
    let buf = record(8, 1, 0x46, 1, false);
    let evs = decode_events(&buf, 8, Kind::Keyboard, false);
    assert_eq!(evs, vec![KeyEvent { code: 0x46, press: true }]);
    let wrong = decode_events(&buf, 8, Kind::Keyboard, true);
    assert_eq!(wrong, vec![]);
}

#[test]
fn decode_other_values_are_releases() {
    let buf = record(8, 1, 30, -1, true);
    let evs = decode_events(&buf, 8, Kind::Keyboard, true);
    assert_eq!(evs, vec![KeyEvent { code: 30, press: false }]);
}

const DEVICES: &str = "I: Bus=0011 Vendor=0001 Product=0001 Version=ab41
N: Name=\"AT Set 2 keyboard\"
H: Handlers=sysrq kbd leds event3 
B: EV=120013

I: Bus=0003 Vendor=046d Product=c077 Version=0111
N: Name=\"Logitech USB Optical Mouse\"
H: Handlers=mouse0 event5
B: EV=17

N: Name=\"Power Button\"
H: Handlers=kbd event0

N: Name=\"Lid Switch\"
H: Handlers=event1

N: Name=\"Both\"
H: Handlers=mouse2\tkbd event7\r
N: Name=\"No event\"
H: Handlers=kbd js0
H: Handlers=kbd event9";

#[test]
fn list_devices_finds_keyboards_and_mice() {
    let devs = list_devices(DEVICES);
    let expect: Vec<(String, Kind)> = vec![
        ("/dev/input/event3".to_string(), Kind::Keyboard),
        ("/dev/input/event5".to_string(), Kind::Mouse),
        ("/dev/input/event0".to_string(), Kind::Keyboard),
        ("/dev/input/event7".to_string(), Kind::Keyboard),
        ("/dev/input/event9".to_string(), Kind::Keyboard),
    ];
    assert_eq!(devs, expect);
}

#[test]
fn list_devices_takes_first_event_handler() {
    let devs = list_devices("H: Handlers=kbd event2 event4\n");
    assert_eq!(devs, vec![("/dev/input/event2".to_string(), Kind::Keyboard)]);
}

#[test]
fn list_devices_needs_exact_tag() {
    assert_eq!(list_devices(" H: Handlers=kbd event2"), vec![]);
    assert_eq!(list_devices("H: handlers=kbd event2"), vec![]);
    assert_eq!(list_devices("H: Handlers=kbdx event2"), vec![]);
    assert_eq!(list_devices(""), vec![]);
}

#[test]
fn list_devices_splits_on_unicode_white_space() {
    let devs = list_devices("H: Handlers=kbd\u{3000}event6\u{a0}x");
    assert_eq!(devs, vec![("/dev/input/event6".to_string(), Kind::Keyboard)]);
}

#[test]
fn check_devices_accepts_keyboard() {
    let devs = vec![Device { file: 1u8, kind: Kind::Mouse }, Device { file: 2u8, kind: Kind::Keyboard }];
    let ok = check_devices(devs, true).unwrap();
    assert_eq!(ok.len(), 2);
    assert_eq!(ok[0].file, 1);
    assert_eq!(ok[1].kind, Kind::Keyboard);
}

#[test]
fn check_devices_without_keyboard() {
    let devs = vec![Device { file: 1u8, kind: Kind::Mouse }];
    match check_devices(devs, false) {
        Err(msg) => assert_eq!(msg, NO_KEYBOARD),
        Ok(_) => panic!("no keyboard"),
    }
    match check_devices(Vec::<Device<u8>>::new(), true) {
        Err(msg) => {
            assert_eq!(msg, NO_ACCESS);
            assert!(msg.starts_with("No permission to read /dev/input/event*.\nRun once:"));
        }
        Ok(_) => panic!("no keyboard"),
    }
}

use keysnoise::input::{after_poll, after_read, LoopStep, ReadOutcome};

const UNUSABLE: i16 = 0x8 | 0x10 | 0x20;

#[test]
fn after_poll_steps() {
    assert_eq!(after_poll(-1, true, 0, UNUSABLE), LoopStep::Retry);
    assert_eq!(after_poll(-1, false, 0, UNUSABLE), LoopStep::Stop);
    assert_eq!(after_poll(0, false, 0, UNUSABLE), LoopStep::Retry);
    assert_eq!(after_poll(1, false, 0x1, UNUSABLE), LoopStep::Read);
    assert_eq!(after_poll(1, false, 0x1 | 0x10, UNUSABLE), LoopStep::Stop);
    assert_eq!(after_poll(1, false, 0x20, UNUSABLE), LoopStep::Stop);
}

#[test]
fn after_read_steps() {
    assert_eq!(after_read(ReadOutcome::Bytes(0)), LoopStep::Stop);
    assert_eq!(after_read(ReadOutcome::Bytes(48)), LoopStep::Decode(48));
    assert_eq!(after_read(ReadOutcome::WouldBlock), LoopStep::Retry);
    assert_eq!(after_read(ReadOutcome::Interrupted), LoopStep::Retry);
    assert_eq!(after_read(ReadOutcome::Failed), LoopStep::Stop);
}
