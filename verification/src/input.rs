//! Linux input devices: which ones to listen to, and what their raw event
//! records mean.

use vstd::prelude::*;

use crate::engine::{KeyEvent, CLICK_CODE};
use crate::text::{
    chars_of, has_prefix, lemma_split_lines_nonempty, prefix_at, split_lines, split_whitespace,
    string_from_chars, views, words,
};

verus! {

/// Event type of key and button events.
pub const EV_KEY: u16 = 1;

/// Left mouse button.
pub const BTN_LEFT: u16 = 0x110;

/// Right mouse button.
pub const BTN_RIGHT: u16 = 0x111;

/// What kind of device an input event node belongs to.
#[derive(Clone, Copy, Debug, PartialEq, Eq, Structural)]
pub enum Kind {
    Keyboard,
    Mouse,
}

/// An opened input device: the handle it is read through, and its kind.
pub struct Device<F> {
    pub file: F,
    pub kind: Kind,
}

/// `"H: Handlers="`, the start of the line that lists a device's handlers.
pub open spec fn handlers_tag() -> Seq<char> {
    seq!['H', ':', ' ', 'H', 'a', 'n', 'd', 'l', 'e', 'r', 's', '=']
}

/// `"event"`
pub open spec fn event_tag() -> Seq<char> {
    seq!['e', 'v', 'e', 'n', 't']
}

/// `"kbd"`
pub open spec fn kbd_tag() -> Seq<char> {
    seq!['k', 'b', 'd']
}

/// `"mouse"`
pub open spec fn mouse_tag() -> Seq<char> {
    seq!['m', 'o', 'u', 's', 'e']
}

/// `"/dev/input/"`, where the event nodes live.
pub open spec fn dev_input_dir() -> Seq<char> {
    seq!['/', 'd', 'e', 'v', '/', 'i', 'n', 'p', 'u', 't', '/']
}

/// The first word of `ws` that begins with `p`, if any.
pub open spec fn first_with_prefix(ws: Seq<Seq<char>>, p: Seq<char>) -> Option<Seq<char>>
    decreases ws.len(),
{
    if ws.len() == 0 {
        None
    } else {
        match first_with_prefix(ws.drop_last(), p) {
            Some(w) => Some(w),
            None => if has_prefix(ws.last(), p) {
                Some(ws.last())
            } else {
                None
            },
        }
    }
}

/// The kind of a device, by its handler names: a keyboard if one of them is
/// `kbd`, else a mouse if one begins with `mouse`.
pub open spec fn handler_kind(ws: Seq<Seq<char>>) -> Option<Kind> {
    if ws.contains(kbd_tag()) {
        Some(Kind::Keyboard)
    } else if exists|i: int| 0 <= i < ws.len() && has_prefix(#[trigger] ws[i], mouse_tag()) {
        Some(Kind::Mouse)
    } else {
        None
    }
}

/// What one line of the device list contributes: for a `H: Handlers=` line
/// that names an `event…` handler and is a keyboard or a mouse, the path of
/// that event node and the kind.
pub open spec fn handler_entry(line: Seq<char>) -> Option<(Seq<char>, Kind)> {
    if has_prefix(line, handlers_tag()) {
        let ws = words(line.skip(handlers_tag().len() as int));
        match (first_with_prefix(ws, event_tag()), handler_kind(ws)) {
            (Some(ev), Some(kind)) => Some((dev_input_dir() + ev, kind)),
            _ => None,
        }
    } else {
        None
    }
}

/// The entries of a list of lines, in order.
pub open spec fn entries_of_lines(lines: Seq<Seq<char>>) -> Seq<(Seq<char>, Kind)>
    decreases lines.len(),
{
    if lines.len() == 0 {
        seq![]
    } else {
        let rest = entries_of_lines(lines.drop_last());
        match handler_entry(lines.last()) {
            Some(e) => rest.push(e),
            None => rest,
        }
    }
}

/// The keyboards and mice that a text in the format of
/// `/proc/bus/input/devices` lists.
pub open spec fn input_devices(text: Seq<char>) -> Seq<(Seq<char>, Kind)> {
    entries_of_lines(split_lines(text))
}

/// The paths and kinds of a list of devices.
pub open spec fn device_views(v: Seq<(String, Kind)>) -> Seq<(Seq<char>, Kind)> {
    v.map_values(|e: (String, Kind)| (e.0@, e.1))
}

/// Reads one line of the device list.
fn handler_entry_of(line: &[char]) -> (r: Option<(String, Kind)>)
    ensures
        match r {
            Some(e) => handler_entry(line@) == Some((e.0@, e.1)),
            None => handler_entry(line@) is None,
        },
{
    let tag = ['H', ':', ' ', 'H', 'a', 'n', 'd', 'l', 'e', 'r', 's', '='];
    assert(tag@ == handlers_tag());
    if !prefix_at(line, 0, &tag) {
        assert(line@.skip(0) =~= line@);
        return None;
    }
    assert(line@.skip(0) =~= line@);
    let ws = split_whitespace(line, 12);
    let ghost wv = views(ws@);
    let event = ['e', 'v', 'e', 'n', 't'];
    let kbd = ['k', 'b', 'd'];
    let mouse = ['m', 'o', 'u', 's', 'e'];
    assert(event@ == event_tag());
    assert(kbd@ == kbd_tag());
    assert(mouse@ == mouse_tag());

    let mut found: Option<usize> = None;
    let mut is_kbd = false;
    let mut is_mouse = false;
    let mut j: usize = 0;
    while j < ws.len()
        invariant
            wv == views(ws@),
            wv.len() == ws@.len(),
            event@ == event_tag(),
            kbd@ == kbd_tag(),
            mouse@ == mouse_tag(),
            j <= ws@.len(),
            match found {
                Some(k) => k < j && first_with_prefix(wv.take(j as int), event_tag()) == Some(wv[k as int]),
                None => first_with_prefix(wv.take(j as int), event_tag()) is None,
            },
            is_kbd == wv.take(j as int).contains(kbd_tag()),
            is_mouse == exists|i: int| 0 <= i < j && has_prefix(#[trigger] wv[i], mouse_tag()),
        decreases ws@.len() - j,
    {
        let w = ws[j].as_slice();
        let ghost pre = wv.take(j as int);
        let ghost post = wv.take(j + 1);
        assert(post.drop_last() =~= pre);
        assert(post.last() == w@);
        assert(w@.skip(0) =~= w@);
        if found.is_none() && prefix_at(w, 0, &event) {
            found = Some(j);
        }
        let k = prefix_at(w, 0, &kbd) && w.len() == 3;
        assert(k == (w@ == kbd_tag())) by {
            if w@.len() == 3 && has_prefix(w@, kbd_tag()) {
                assert(w@.take(3) =~= w@);
            }
        }
        if k {
            is_kbd = true;
        }
        assert(post.contains(kbd_tag()) == (pre.contains(kbd_tag()) || w@ == kbd_tag())) by {
            if post.contains(kbd_tag()) && !(w@ == kbd_tag()) {
                let i = choose|i: int| 0 <= i < post.len() && post[i] == kbd_tag();
                assert(i < pre.len() && pre[i] == post[i]);
            }
            if pre.contains(kbd_tag()) {
                let i = choose|i: int| 0 <= i < pre.len() && pre[i] == kbd_tag();
                assert(post[i] == pre[i]);
            }
        }
        if prefix_at(w, 0, &mouse) {
            is_mouse = true;
        }
        j += 1;
    }
    assert(wv.take(wv.len() as int) =~= wv);
    match found {
        Some(k) => {
            if !is_kbd && !is_mouse {
                return None;
            }
            let kind = if is_kbd { Kind::Keyboard } else { Kind::Mouse };
            let mut path: Vec<char> = Vec::new();
            let dir = ['/', 'd', 'e', 'v', '/', 'i', 'n', 'p', 'u', 't', '/'];
            assert(dir@ == dev_input_dir());
            let mut d: usize = 0;
            while d < dir.len()
                invariant
                    d <= dir@.len(),
                    path@ == dir@.take(d as int),
                decreases dir@.len() - d,
            {
                path.push(dir[d]);
                assert(dir@.take(d + 1) =~= path@);
                d += 1;
            }
            let tok = ws[k].as_slice();
            let mut t: usize = 0;
            while t < tok.len()
                invariant
                    t <= tok@.len(),
                    path@ == dev_input_dir() + tok@.take(t as int),
                decreases tok@.len() - t,
            {
                path.push(tok[t]);
                assert(dev_input_dir() + tok@.take(t + 1) =~= path@);
                t += 1;
            }
            assert(tok@.take(tok@.len() as int) =~= tok@);
            Some((string_from_chars(path.as_slice()), kind))
        },
        None => None,
    }
}

/// The keyboards and mice listed in `text`, a device list in the format of
/// `/proc/bus/input/devices`: for each line `H: Handlers=…` whose handlers
/// include one named `event…`, and `kbd` (a keyboard) or one named
/// `mouse…` (a mouse), the path `/dev/input/event…` and the kind, in the
/// order of the lines.
pub fn list_devices(text: &str) -> (r: Vec<(String, Kind)>)
    ensures
        device_views(r@) == input_devices(text@),
{
    let chars = chars_of(text);
    let mut out: Vec<(String, Kind)> = Vec::new();
    let mut line: Vec<char> = Vec::new();
    let mut i: usize = 0;
    proof {
        assert(chars@.take(0) =~= Seq::<char>::empty());
    }
    while i < chars.len()
        invariant
            i <= chars@.len(),
            split_lines(chars@.take(i as int)).len() >= 1,
            line@ == split_lines(chars@.take(i as int)).last(),
            device_views(out@) == entries_of_lines(split_lines(chars@.take(i as int)).drop_last()),
        decreases chars@.len() - i,
    {
        let c = chars[i];
        let ghost t = chars@.take(i as int);
        let ghost t2 = chars@.take(i + 1);
        let ghost ls = split_lines(t);
        assert(t2.drop_last() =~= t);
        assert(t2.last() == c);
        proof {
            lemma_split_lines_nonempty(t2);
        }
        if c == '\n' {
            let ghost before = device_views(out@);
            match handler_entry_of(line.as_slice()) {
                Some(e) => {
                    out.push(e);
                    assert(device_views(out@) =~= before.push((e.0@, e.1)));
                },
                None => {},
            }
            assert(split_lines(t2).drop_last() =~= ls);
            assert(ls.drop_last().push(ls.last()) =~= ls);
            line = Vec::new();
        } else {
            line.push(c);
            assert(split_lines(t2).drop_last() =~= ls.drop_last());
        }
        i += 1;
    }
    assert(chars@.take(chars@.len() as int) =~= chars@);
    let ghost ls = split_lines(chars@);
    let ghost before = device_views(out@);
    match handler_entry_of(line.as_slice()) {
        Some(e) => {
            out.push(e);
            assert(device_views(out@) =~= before.push((e.0@, e.1)));
        },
        None => {},
    }
    assert(ls.drop_last().push(ls.last()) =~= ls);
    out
}

proof fn lemma_first_with_prefix(ws: Seq<Seq<char>>, p: Seq<char>)
    ensures
        first_with_prefix(ws, p) matches Some(w) ==> has_prefix(w, p),
    decreases ws.len(),
{
    if ws.len() > 0 {
        lemma_first_with_prefix(ws.drop_last(), p);
    }
}

proof fn lemma_entries_are_event_nodes(lines: Seq<Seq<char>>)
    ensures
        forall|i: int|
            0 <= i < entries_of_lines(lines).len() ==> has_prefix(
                (#[trigger] entries_of_lines(lines)[i]).0,
                dev_input_dir() + event_tag(),
            ),
    decreases lines.len(),
{
    if lines.len() > 0 {
        let rest = entries_of_lines(lines.drop_last());
        lemma_entries_are_event_nodes(lines.drop_last());
        let line = lines.last();
        let all = entries_of_lines(lines);
        match handler_entry(line) {
            Some(e) => {
                let ws = words(line.skip(handlers_tag().len() as int));
                lemma_first_with_prefix(ws, event_tag());
                let ev = first_with_prefix(ws, event_tag())->0;
                let full = dev_input_dir() + event_tag();
                assert(e.0.take(full.len() as int) =~= full) by {
                    assert(ev.take(event_tag().len() as int) == event_tag());
                }
                assert(all == rest.push(e));
                assert forall|i: int| 0 <= i < all.len() implies has_prefix(
                    (#[trigger] all[i]).0,
                    full,
                ) by {
                    if i < rest.len() {
                        assert(all[i] == rest[i]);
                    }
                }
            },
            None => {
                assert(all == rest);
            },
        }
    }
}

proof fn lemma_first_with_prefix_index(ws: Seq<Seq<char>>, p: Seq<char>)
    ensures
        first_with_prefix(ws, p) matches Some(w) ==> exists|i: int|
            0 <= i < ws.len() && ws[i] == w && has_prefix(ws[i], p) && (forall|v: int|
                0 <= v < i ==> !has_prefix(#[trigger] ws[v], p)),
        first_with_prefix(ws, p) is None ==> forall|v: int|
            0 <= v < ws.len() ==> !has_prefix(#[trigger] ws[v], p),
    decreases ws.len(),
{
    if ws.len() > 0 {
        let t = ws.drop_last();
        lemma_first_with_prefix_index(t, p);
        match first_with_prefix(t, p) {
            Some(w) => {
                let i = choose|i: int|
                    0 <= i < t.len() && t[i] == w && has_prefix(t[i], p) && (forall|v: int|
                        0 <= v < i ==> !has_prefix(#[trigger] t[v], p));
                assert(ws[i] == t[i]);
                assert forall|v: int| 0 <= v < i implies !has_prefix(#[trigger] ws[v], p) by {
                    assert(ws[v] == t[v]);
                }
            },
            None => {
                assert forall|v: int| 0 <= v < t.len() implies !has_prefix(#[trigger] ws[v], p) by {
                    assert(ws[v] == t[v]);
                }
            },
        }
    }
}

/// The words of a device line's handler list.
pub open spec fn handler_words(line: Seq<char>) -> Seq<Seq<char>> {
    words(line.skip(handlers_tag().len() as int))
}

/// What one line of the device list gives, in terms of its handler words:
/// an entry exactly when the line starts with `H: Handlers=`, one of its
/// words begins with `event`, and one is `kbd` or begins with `mouse`. The
/// entry's path is `/dev/input/` followed by the whole first word that
/// begins with `event`; it is a keyboard exactly when a word is `kbd`,
/// and otherwise a mouse.
pub proof fn law_line_gives_whole_event_word(line: Seq<char>)
    ensures
        handler_entry(line) is Some <==> {
            &&& has_prefix(line, handlers_tag())
            &&& exists|w: int|
                0 <= w < handler_words(line).len() && has_prefix(
                    #[trigger] handler_words(line)[w],
                    event_tag(),
                )
            &&& (handler_words(line).contains(kbd_tag()) || exists|w: int|
                0 <= w < handler_words(line).len() && has_prefix(
                    #[trigger] handler_words(line)[w],
                    mouse_tag(),
                ))
        },
        handler_entry(line) matches Some(e) ==> exists|w: int|
            {
                &&& 0 <= w < handler_words(line).len()
                &&& e.0 == dev_input_dir() + handler_words(line)[w]
                &&& has_prefix(handler_words(line)[w], event_tag())
                &&& forall|v: int|
                    0 <= v < w ==> !has_prefix(#[trigger] handler_words(line)[v], event_tag())
            },
        handler_entry(line) matches Some(e) ==> (e.1 == Kind::Keyboard <==> handler_words(
            line,
        ).contains(kbd_tag())),
{
    let ws = handler_words(line);
    lemma_first_with_prefix_index(ws, event_tag());
    if has_prefix(line, handlers_tag()) {
        if exists|w: int| 0 <= w < ws.len() && has_prefix(#[trigger] ws[w], event_tag()) {
            let w = choose|w: int| 0 <= w < ws.len() && has_prefix(#[trigger] ws[w], event_tag());
            assert(first_with_prefix(ws, event_tag()) is Some);
        }
    }
}

/// Every device that a device list yields is what one of its lines gives.
pub proof fn law_devices_come_from_lines(text: Seq<char>)
    ensures
        forall|i: int|
            0 <= i < input_devices(text).len() ==> exists|j: int|
                0 <= j < split_lines(text).len() && handler_entry(#[trigger] split_lines(text)[j])
                    == Some(#[trigger] input_devices(text)[i]),
{
    lemma_entries_from_lines(split_lines(text));
}

proof fn lemma_entries_from_lines(lines: Seq<Seq<char>>)
    ensures
        forall|i: int|
            0 <= i < entries_of_lines(lines).len() ==> exists|j: int|
                0 <= j < lines.len() && handler_entry(#[trigger] lines[j]) == Some(
                    #[trigger] entries_of_lines(lines)[i],
                ),
    decreases lines.len(),
{
    if lines.len() > 0 {
        let t = lines.drop_last();
        lemma_entries_from_lines(t);
        let rest = entries_of_lines(t);
        let all = entries_of_lines(lines);
        assert forall|i: int| 0 <= i < all.len() implies exists|j: int|
            0 <= j < lines.len() && handler_entry(#[trigger] lines[j]) == Some(
                #[trigger] all[i],
            ) by {
            if i < rest.len() {
                assert(all[i] == rest[i]);
                let j = choose|j: int|
                    0 <= j < t.len() && handler_entry(#[trigger] t[j]) == Some(
                        #[trigger] rest[i],
                    );
                assert(lines[j] == t[j]);
            } else {
                assert(handler_entry(lines[lines.len() - 1]) == Some(all[i]));
            }
        }
    }
}

/// Every device that a device list yields is an event node under
/// `/dev/input/`: its path begins with `/dev/input/event`.
pub proof fn law_devices_are_event_nodes(text: Seq<char>)
    ensures
        forall|i: int|
            0 <= i < input_devices(text).len() ==> has_prefix(
                (#[trigger] input_devices(text)[i]).0,
                dev_input_dir() + event_tag(),
            ),
{
    lemma_entries_are_event_nodes(split_lines(text));
}

/// What an opened device list is refused with when no one could be read.
pub const NO_ACCESS: &'static str = "No permission to read /dev/input/event*.\nRun once:  sudo usermod -aG input $USER\nthen log out and back in.";

/// What a device list with no keyboard in it is refused with.
pub const NO_KEYBOARD: &'static str = "No keyboard input device found.";

/// Whether one of `devices` is a keyboard.
pub open spec fn has_keyboard<F>(devices: Seq<Device<F>>) -> bool {
    exists|i: int| 0 <= i < devices.len() && #[trigger] devices[i].kind == Kind::Keyboard
}

/// Accepts the devices that could be opened if one of them is a keyboard;
/// otherwise refuses, saying that permission was missing if `denied` (some
/// device could not be opened for lack of permission), or that no keyboard
/// was found.
pub fn check_devices<F>(devices: Vec<Device<F>>, denied: bool) -> (r: Result<
    Vec<Device<F>>,
    String,
>)
    ensures
        r is Ok <==> has_keyboard(devices@),
        match r {
            Ok(v) => v@ == devices@,
            Err(msg) => msg@ == (if denied {
                NO_ACCESS@
            } else {
                NO_KEYBOARD@
            }),
        },
{
    let mut i: usize = 0;
    while i < devices.len()
        invariant
            i <= devices@.len(),
            forall|k: int| 0 <= k < i ==> devices@[k].kind != Kind::Keyboard,
        decreases devices@.len() - i,
    {
        if devices[i].kind == Kind::Keyboard {
            return Ok(devices);
        }
        i += 1;
    }
    if denied {
        Err(NO_ACCESS.to_owned())
    } else {
        Err(NO_KEYBOARD.to_owned())
    }
}

/// The size in bytes of one `struct input_event` (a `struct timeval` of two
/// `long`s, then a `u16` type, a `u16` code and an `i32` value), where a
/// `long` takes `long_size` bytes.
pub open spec fn record_size(long_size: nat) -> nat {
    2 * long_size + 8
}

/// A 16-bit word from two bytes in memory order.
pub open spec fn word16(b0: u8, b1: u8, little_endian: bool) -> int {
    if little_endian {
        b0 + 256 * b1
    } else {
        256 * b0 + b1
    }
}

/// A 32-bit word (as unsigned) from four bytes in memory order.
pub open spec fn word32(b0: u8, b1: u8, b2: u8, b3: u8, little_endian: bool) -> int {
    if little_endian {
        b0 + 256 * b1 + 65536 * b2 + 16777216 * b3
    } else {
        16777216 * b0 + 65536 * b1 + 256 * b2 + b3
    }
}

/// The key code that a device of kind `kind` reports for the raw code
/// `code`: a keyboard's own codes below 0x100, and for a mouse the left and
/// right buttons, both as the click code; nothing for anything else.
pub open spec fn reported_code(kind: Kind, code: int) -> Option<u16> {
    match kind {
        Kind::Keyboard => if 0 <= code < 0x100 {
            Some(code as u16)
        } else {
            None
        },
        Kind::Mouse => if code == BTN_LEFT || code == BTN_RIGHT {
            Some(CLICK_CODE)
        } else {
            None
        },
    }
}

/// The key event that one raw record stands for: only key events (type
/// `EV_KEY`) that are not auto-repeats (value 2) and whose code the device
/// reports; a press when the value is 1.
pub open spec fn record_event(rec: Seq<u8>, long_size: nat, kind: Kind, little_endian: bool) -> Option<KeyEvent> {
    let o: int = 2 * long_size as int;
    let etype = word16(rec[o], rec[o + 1], little_endian);
    let code = word16(rec[o + 2], rec[o + 3], little_endian);
    let value = word32(rec[o + 4], rec[o + 5], rec[o + 6], rec[o + 7], little_endian);
    if etype != EV_KEY || value == 2 {
        None
    } else {
        match reported_code(kind, code) {
            Some(c) => Some(KeyEvent { code: c, press: value == 1 }),
            None => None,
        }
    }
}

/// The key events of the first `n` whole records of `buf`, in order.
pub open spec fn events_of_records(buf: Seq<u8>, long_size: nat, kind: Kind, little_endian: bool, n: nat) -> Seq<KeyEvent>
    decreases n,
{
    if n == 0 {
        seq![]
    } else {
        let rest = events_of_records(buf, long_size, kind, little_endian, (n - 1) as nat);
        let size = record_size(long_size);
        let rec = buf.subrange((n - 1) * size, (n * size) as int);
        match record_event(rec, long_size, kind, little_endian) {
            Some(e) => rest.push(e),
            None => rest,
        }
    }
}

/// The key events in `buf`, read record by record; a partial record at the
/// end is ignored.
pub open spec fn decoded_events(buf: Seq<u8>, long_size: nat, kind: Kind, little_endian: bool) -> Seq<KeyEvent> {
    events_of_records(buf, long_size, kind, little_endian, buf.len() / record_size(long_size))
}

/// `k` whole chunks of `size` fit in `len`, and `k + 1` do not: `k` is
/// `len / size`.
pub(crate) proof fn lemma_whole_chunks(len: nat, size: nat, k: nat)
    requires
        size > 0,
        k * size <= len,
        len < k * size + size,
    ensures
        len / size == k,
{
    assert(len / size == k) by (nonlinear_arith)
        requires
            size > 0,
            k * size <= len,
            len < k * size + size,
    ;
}

/// One raw record decodes on its own terms: a key record (type `EV_KEY`)
/// that is not an auto-repeat gives, from a keyboard, the key's own code for
/// every code below 0x100, and from a mouse, a click for the left or right
/// button; press exactly when its value is 1. Any other record, and any
/// auto-repeat, gives nothing.
pub proof fn law_single_record_decodes(rec: Seq<u8>, long_size: nat, kind: Kind, little_endian: bool)
    requires
        rec.len() == record_size(long_size),
    ensures
        ({
            let o = 2 * long_size as int;
            let etype = word16(rec[o], rec[o + 1], little_endian);
            let code = word16(rec[o + 2], rec[o + 3], little_endian);
            let value = word32(rec[o + 4], rec[o + 5], rec[o + 6], rec[o + 7], little_endian);
            &&& etype == 1 && value != 2 && kind == Kind::Keyboard && 0 <= code < 0x100
                ==> decoded_events(rec, long_size, kind, little_endian) == seq![
                KeyEvent { code: code as u16, press: value == 1 },
            ]
            &&& etype == 1 && value != 2 && kind == Kind::Mouse && (code == 0x110 || code == 0x111)
                ==> decoded_events(rec, long_size, kind, little_endian) == seq![
                KeyEvent { code: 0xff, press: value == 1 },
            ]
            &&& etype != 1 || value == 2 ==> decoded_events(rec, long_size, kind, little_endian)
                == Seq::<KeyEvent>::empty()
            &&& kind == Kind::Keyboard && code >= 0x100 ==> decoded_events(
                rec,
                long_size,
                kind,
                little_endian,
            ) == Seq::<KeyEvent>::empty()
        }),
{
    let size = record_size(long_size);
    assert(rec.len() / size == 1) by {
        lemma_whole_chunks(rec.len(), size, 1);
    }
    assert(rec.subrange(0, size as int) =~= rec);
    assert(events_of_records(rec, long_size, kind, little_endian, 0) == Seq::<KeyEvent>::empty());
}

proof fn lemma_records_of_prefix(buf: Seq<u8>, more: Seq<u8>, long_size: nat, kind: Kind, little_endian: bool, n: nat)
    requires
        n * record_size(long_size) <= buf.len(),
    ensures
        events_of_records(buf + more, long_size, kind, little_endian, n) == events_of_records(
            buf,
            long_size,
            kind,
            little_endian,
            n,
        ),
    decreases n,
{
    if n > 0 {
        let size = record_size(long_size);
        assert((n - 1) * size + size == n * size) by (nonlinear_arith);
        assert((n - 1) * size <= n * size) by (nonlinear_arith);
        lemma_records_of_prefix(buf, more, long_size, kind, little_endian, (n - 1) as nat);
        assert((buf + more).subrange((n - 1) * size, (n * size) as int) =~= buf.subrange(
            (n - 1) * size,
            (n * size) as int,
        ));
    }
}

proof fn lemma_records_of_suffix(
    buf: Seq<u8>,
    more: Seq<u8>,
    long_size: nat,
    kind: Kind,
    little_endian: bool,
    k: nat,
    j: nat,
)
    requires
        buf.len() == k * record_size(long_size),
        j * record_size(long_size) <= more.len(),
    ensures
        events_of_records(buf + more, long_size, kind, little_endian, k + j) == events_of_records(
            buf,
            long_size,
            kind,
            little_endian,
            k,
        ) + events_of_records(more, long_size, kind, little_endian, j),
    decreases j,
{
    let size = record_size(long_size);
    if j == 0 {
        lemma_records_of_prefix(buf, more, long_size, kind, little_endian, k);
        assert(events_of_records(buf, long_size, kind, little_endian, k) + Seq::<KeyEvent>::empty()
            =~= events_of_records(buf, long_size, kind, little_endian, k));
    } else {
        assert((j - 1) * size + size == j * size) by (nonlinear_arith);
        assert((k + j - 1) * size == k * size + (j - 1) * size) by (nonlinear_arith);
        assert((k + j) * size == k * size + j * size) by (nonlinear_arith);
        lemma_records_of_suffix(buf, more, long_size, kind, little_endian, k, (j - 1) as nat);
        let whole = buf + more;
        assert(whole.subrange((k + j - 1) * size, ((k + j) * size) as int) =~= more.subrange(
            (j - 1) * size,
            (j * size) as int,
        ));
        let a = events_of_records(buf, long_size, kind, little_endian, k);
        let b = events_of_records(more, long_size, kind, little_endian, (j - 1) as nat);
        let rec = more.subrange((j - 1) * size, (j * size) as int);
        match record_event(rec, long_size, kind, little_endian) {
            Some(e) => {
                assert((a + b).push(e) =~= a + b.push(e));
            },
            None => {},
        }
    }
}

/// Decoding goes record by record: bytes read after whole records decode
/// to the events of those records followed by the events of the rest, so
/// splitting a read at a record boundary changes nothing.
pub proof fn law_decoding_is_record_by_record(
    buf: Seq<u8>,
    more: Seq<u8>,
    long_size: nat,
    kind: Kind,
    little_endian: bool,
)
    requires
        buf.len() % record_size(long_size) == 0,
    ensures
        decoded_events(buf + more, long_size, kind, little_endian) == decoded_events(
            buf,
            long_size,
            kind,
            little_endian,
        ) + decoded_events(more, long_size, kind, little_endian),
{
    let size = record_size(long_size);
    let k = buf.len() / size;
    let j = more.len() / size;
    assert(buf.len() == k * size) by (nonlinear_arith)
        requires
            size > 0,
            buf.len() % size == 0,
            k == buf.len() / size,
    ;
    assert(j * size <= more.len() < j * size + size) by (nonlinear_arith)
        requires
            size > 0,
            j == more.len() / size,
    ;
    assert((k + j) * size == k * size + j * size) by (nonlinear_arith);
    lemma_whole_chunks((buf + more).len(), size, k + j);
    lemma_records_of_suffix(buf, more, long_size, kind, little_endian, k, j);
}

/// The key events in the raw bytes `buf` read from a device of kind `kind`,
/// where a `long` takes `long_size` bytes and words are stored little-endian
/// if `little_endian`. Every code in the result is a keyboard code below
/// 0x100 or the click code.
pub fn decode_events(buf: &[u8], long_size: usize, kind: Kind, little_endian: bool) -> (r: Vec<KeyEvent>)
    requires
        2 * long_size + 8 <= usize::MAX,
    ensures
        r@ == decoded_events(buf@, long_size as nat, kind, little_endian),
        forall|i: int| 0 <= i < r@.len() ==> #[trigger] r@[i].code <= 0xff,
{
    let size = 2 * long_size + 8;
    let o = 2 * long_size;
    let mut out: Vec<KeyEvent> = Vec::new();
    let mut start: usize = 0;
    let ghost mut k: nat = 0;
    while size <= buf.len() - start
        invariant
            size == record_size(long_size as nat),
            o == 2 * long_size,
            start == k * size,
            start <= buf@.len(),
            out@ == events_of_records(buf@, long_size as nat, kind, little_endian, k),
            forall|i: int| 0 <= i < out@.len() ==> #[trigger] out@[i].code <= 0xff,
        decreases buf@.len() - start,
    {
        let ghost rec = buf@.subrange(start as int, start + size);
        assert((k + 1) * size == k * size + size) by (nonlinear_arith);
        let p = start + o;
        let etype: u32 = if little_endian {
            buf[p] as u32 + buf[p + 1] as u32 * 256
        } else {
            buf[p] as u32 * 256 + buf[p + 1] as u32
        };
        let code: u32 = if little_endian {
            buf[p + 2] as u32 + buf[p + 3] as u32 * 256
        } else {
            buf[p + 2] as u32 * 256 + buf[p + 3] as u32
        };
        let value: u32 = if little_endian {
            buf[p + 4] as u32 + buf[p + 5] as u32 * 256 + buf[p + 6] as u32 * 65536 + buf[p + 7] as u32
                * 16777216
        } else {
            buf[p + 4] as u32 * 16777216 + buf[p + 5] as u32 * 65536 + buf[p + 6] as u32 * 256
                + buf[p + 7] as u32
        };
        assert(rec[o as int] == buf@[p as int]);
        assert(rec[o + 1] == buf@[p + 1]);
        assert(rec[o + 2] == buf@[p + 2]);
        assert(rec[o + 3] == buf@[p + 3]);
        assert(rec[o + 4] == buf@[p + 4]);
        assert(rec[o + 5] == buf@[p + 5]);
        assert(rec[o + 6] == buf@[p + 6]);
        assert(rec[o + 7] == buf@[p + 7]);
        if etype == EV_KEY as u32 && value != 2 {
            let reported: Option<u16> = match kind {
                Kind::Keyboard => if code < 0x100 {
                    Some(code as u16)
                } else {
                    None
                },
                Kind::Mouse => if code == BTN_LEFT as u32 || code == BTN_RIGHT as u32 {
                    Some(CLICK_CODE)
                } else {
                    None
                },
            };
            match reported {
                Some(c) => {
                    out.push(KeyEvent { code: c, press: value == 1 });
                },
                None => {},
            }
        }
        start = start + size;
        proof {
            k = k + 1;
        }
    }
    proof {
        lemma_whole_chunks(buf@.len(), size as nat, k);
    }
    out
}

/// What a device's read loop does next.
#[derive(Clone, Copy, Debug, PartialEq, Eq, Structural)]
pub enum LoopStep {
    /// Wait for the device again.
    Retry,
    /// The device has data: read it.
    Read,
    /// Decode the first `n` bytes read.
    Decode(usize),
    /// The device is gone or failed: stop listening to it.
    Stop,
}

/// How a read of a device ended.
#[derive(Clone, Copy, Debug, PartialEq, Eq, Structural)]
pub enum ReadOutcome {
    /// `n` bytes were read (0: end of file).
    Bytes(usize),
    /// Nothing to read yet.
    WouldBlock,
    /// A signal interrupted the read.
    Interrupted,
    /// Any other error.
    Failed,
}

/// The step after waiting for a device: `ready` is what `poll` returned
/// (negative on error, 0 on time-out), `interrupted` whether its error was
/// an interruption by a signal, `revents` the events it reported and
/// `error_events` those that mean the device is unusable (error, hang-up,
/// invalid). An interrupted wait or a time-out waits again, another error
/// or an unusable device stops, and otherwise the data is read.
pub open spec fn poll_step(ready: i32, interrupted: bool, revents: i16, error_events: i16) -> LoopStep {
    if ready < 0 {
        if interrupted {
            LoopStep::Retry
        } else {
            LoopStep::Stop
        }
    } else if ready == 0 {
        LoopStep::Retry
    } else if revents & error_events != 0 {
        LoopStep::Stop
    } else {
        LoopStep::Read
    }
}

/// The step after reading a device: end of file or an error stops, nothing
/// yet or an interruption waits again, and `n` bytes are decoded.
pub open spec fn read_step(outcome: ReadOutcome) -> LoopStep {
    match outcome {
        ReadOutcome::Bytes(n) => if n == 0 {
            LoopStep::Stop
        } else {
            LoopStep::Decode(n)
        },
        ReadOutcome::WouldBlock => LoopStep::Retry,
        ReadOutcome::Interrupted => LoopStep::Retry,
        ReadOutcome::Failed => LoopStep::Stop,
    }
}

/// Decides the read loop's next step after a wait (see `poll_step`).
pub fn after_poll(ready: i32, interrupted: bool, revents: i16, error_events: i16) -> (step: LoopStep)
    ensures
        step == poll_step(ready, interrupted, revents, error_events),
{
    if ready < 0 {
        if interrupted {
            LoopStep::Retry
        } else {
            LoopStep::Stop
        }
    } else if ready == 0 {
        LoopStep::Retry
    } else if revents & error_events != 0 {
        LoopStep::Stop
    } else {
        LoopStep::Read
    }
}

/// Decides the read loop's next step after a read (see `read_step`).
pub fn after_read(outcome: ReadOutcome) -> (step: LoopStep)
    ensures
        step == read_step(outcome),
{
    match outcome {
        ReadOutcome::Bytes(n) => if n == 0 {
            LoopStep::Stop
        } else {
            LoopStep::Decode(n)
        },
        ReadOutcome::WouldBlock => LoopStep::Retry,
        ReadOutcome::Interrupted => LoopStep::Retry,
        ReadOutcome::Failed => LoopStep::Stop,
    }
}

/// The read loop's steps fit together: a wait leads to a read but never
/// straight to decoding, a read never leads to another read without a wait,
/// and `Decode(n)` comes only from reading `n > 0` bytes.
pub proof fn law_read_loop_steps(
    outcome: ReadOutcome,
    ready: i32,
    interrupted: bool,
    revents: i16,
    error_events: i16,
)
    ensures
        read_step(outcome) != LoopStep::Read,
        read_step(outcome) matches LoopStep::Decode(n) ==> n > 0 && outcome == ReadOutcome::Bytes(
            n,
        ),
        !(poll_step(ready, interrupted, revents, error_events) is Decode),
{
}

} // verus!
