//! The sound bank, and which clip a key event plays.

use vstd::prelude::*;
use vstd::string::StringExecFns;

use std::collections::HashMap;

use crate::engine::{KeyEvent, CLICK_CODE};
use crate::input::lemma_whole_chunks;
use crate::sound_name::{bank_key, sound_key, sound_key_of};

verus! {

broadcast use vstd::std_specs::hash::group_hash_axioms;

/// The key whose sound stands in for keys that have none (`B`).
pub const FALLBACK_CODE: u16 = 0x31;

/// The start of the message for a folder with no key sounds.
pub const NO_SOUNDS_PREFIX: &'static str = "No key sounds (e.g. 1e-1.wav) found in \"";

/// The end of the message for a folder with no key sounds.
pub const NO_SOUNDS_SUFFIX: &'static str = "\".";

/// The message for a folder (shown as `dir`) with no key sounds.
pub open spec fn no_sounds_message(dir: Seq<char>) -> Seq<char> {
    NO_SOUNDS_PREFIX@ + dir + NO_SOUNDS_SUFFIX@
}

/// The sounds of the keys: clip `c` of a key's press or release, kept under
/// its `bank_key`.
pub struct SoundBank<C> {
    clips: HashMap<u16, C>,
}

impl<C> View for SoundBank<C> {
    type V = Map<u16, C>;

    closed spec fn view(&self) -> Map<u16, C> {
        self.clips@
    }
}

/// The map that inserting `clips` in order gives: a later clip under the
/// same key replaces an earlier one.
pub open spec fn clips_map<C>(clips: Seq<(u16, C)>) -> Map<u16, C>
    decreases clips.len(),
{
    if clips.len() == 0 {
        Map::empty()
    } else {
        clips_map(clips.drop_last()).insert(clips.last().0, clips.last().1)
    }
}

/// The characters of each name.
pub open spec fn name_views(names: Seq<String>) -> Seq<Seq<char>> {
    names.map_values(|s: String| s@)
}

/// The key sounds among the first `n` of `names`, with what reading them
/// gave (`got`), in order: for each name that stands for key `k` and whose
/// reading gave clip `c`, the pair `(k, c)`.
pub open spec fn named_clips<C>(names: Seq<Seq<char>>, got: Seq<Option<C>>, n: nat) -> Seq<(u16, C)>
    decreases n,
{
    if n == 0 {
        seq![]
    } else {
        let rest = named_clips(names, got, (n - 1) as nat);
        match sound_key_of(names[n - 1]) {
            Some(k) => match got[n - 1] {
                Some(c) => rest.push((k, c)),
                None => rest,
            },
            None => rest,
        }
    }
}

/// `named_clips` of a prefix depends only on the readings in it.
proof fn lemma_named_clips_prefix<C>(
    names: Seq<Seq<char>>,
    a: Seq<Option<C>>,
    b: Seq<Option<C>>,
    n: nat,
)
    requires
        n <= a.len(),
        n <= b.len(),
        forall|j: int| 0 <= j < n ==> a[j] == b[j],
    ensures
        named_clips(names, a, n) == named_clips(names, b, n),
    decreases n,
{
    if n > 0 {
        lemma_named_clips_prefix(names, a, b, (n - 1) as nat);
    }
}

/// The key under which the sound of `code` going down (`press`) or up is
/// kept.
pub open spec fn event_key(code: u16, press: bool) -> u16 {
    bank_key(code as int, press) as u16
}

/// Which clip of `bank` a key event plays, by its key: none while muted,
/// none for a click while clicks are off; else the event's own sound, or,
/// failing that and with `fallback` on, the fallback key's sound for the
/// same direction.
pub open spec fn chosen_key<C>(
    bank: Map<u16, C>,
    ev: KeyEvent,
    muted: bool,
    mouse_click: bool,
    fallback: bool,
) -> Option<u16> {
    if muted || (ev.code == CLICK_CODE && !mouse_click) {
        None
    } else if bank.contains_key(event_key(ev.code, ev.press)) {
        Some(event_key(ev.code, ev.press))
    } else if fallback && bank.contains_key(event_key(FALLBACK_CODE, ev.press)) {
        Some(event_key(FALLBACK_CODE, ev.press))
    } else {
        None
    }
}

impl<C> SoundBank<C> {
    /// Builds the bank of the sound folder shown as `dir`, whose files are
    /// named `names`. Each name that stands for a key (see `sound_key`) is
    /// read with `read` (given its index), in order; a file that cannot be
    /// read adds nothing, and a later sound under the same key replaces an
    /// earlier one. Names that stand for no key are not read. A folder with
    /// no key sound read is refused.
    pub fn load<F: Fn(usize) -> Option<C>>(dir: &str, names: &[String], read: F) -> (r: Result<
        SoundBank<C>,
        String,
    >)
        requires
            forall|i: usize| i < names@.len() ==> #[trigger] read.requires((i,)),
        ensures
            exists|got: Seq<Option<C>>|
                {
                    &&& got.len() == names@.len()
                    &&& forall|i: usize|
                        i < names@.len() && sound_key_of(names@[i as int]@) is Some
                            ==> #[trigger] read.ensures((i,), got[i as int])
                    &&& (r is Ok <==> #[trigger] named_clips(name_views(names@), got, names@.len()).len() > 0)
                    &&& match r {
                        Ok(bank) => bank@ == clips_map(named_clips(name_views(names@), got, names@.len())),
                        Err(msg) => msg@ == no_sounds_message(dir@),
                    }
                },
            r matches Ok(bank) ==> forall|k: u16| #[trigger]
                bank@.contains_key(k) ==> k < 0x200 && k == event_key((k % 256) as u16, k >= 256),
    {
        let ghost nv = name_views(names@);
        let ghost mut got: Seq<Option<C>> = Seq::empty();
        let mut map: HashMap<u16, C> = HashMap::new();
        let mut any = false;
        let mut i: usize = 0;
        while i < names.len()
            invariant
                nv == name_views(names@),
                nv.len() == names@.len(),
                i <= names@.len(),
                got.len() == i,
                forall|j: usize| j < names@.len() ==> #[trigger] read.requires((j,)),
                forall|j: usize|
                    j < i && sound_key_of(names@[j as int]@) is Some ==> #[trigger] read.ensures(
                        (j,),
                        got[j as int],
                    ),
                map@ == clips_map(named_clips(nv, got, i as nat)),
                any == (named_clips(nv, got, i as nat).len() > 0),
                forall|j: int|
                    0 <= j < named_clips(nv, got, i as nat).len() ==> (#[trigger] named_clips(
                        nv,
                        got,
                        i as nat,
                    )[j]).0 < 0x200,
            decreases names@.len() - i,
        {
            let ghost before = got;
            assert(nv[i as int] == names@[i as int]@);
            match sound_key(names[i].as_str()) {
                Some(k) => {
                    let c = read(i);
                    proof {
                        got = got.push(c);
                    }
                    match c {
                        Some(c) => {
                            map.insert(k, c);
                            any = true;
                        },
                        None => {},
                    }
                },
                None => {
                    proof {
                        got = got.push(None);
                    }
                },
            }
            proof {
                lemma_named_clips_prefix(nv, before, got, i as nat);
                let prev = named_clips(nv, before, i as nat);
                let next = named_clips(nv, got, (i + 1) as nat);
                assert(next == prev || next == prev.push(next.last()));
                if next != prev {
                    assert(next.drop_last() =~= prev);
                }
                assert forall|j: int| 0 <= j < next.len() implies (#[trigger] next[j]).0 < 0x200 by {
                    if j < prev.len() {
                        assert(next[j] == prev[j]);
                    }
                }
            }
            i += 1;
        }
        if !any {
            let mut msg = NO_SOUNDS_PREFIX.to_owned();
            msg.append(dir);
            msg.append(NO_SOUNDS_SUFFIX);
            return Err(msg);
        }
        proof {
            law_named_sounds_fill_key_range(named_clips(nv, got, names@.len()));
        }
        Ok(SoundBank { clips: map })
    }

    /// The clip of key `code` going down (`press`) or up, if the bank has
    /// one.
    pub fn get(&self, code: u16, press: bool) -> (r: Option<&C>)
        requires
            press ==> code <= 0xfeff,
        ensures
            match r {
                Some(c) => self@.contains_key(event_key(code, press)) && *c == self@[event_key(
                    code,
                    press,
                )],
                None => !self@.contains_key(event_key(code, press)),
            },
    {
        let key = if press {
            code + 256
        } else {
            code
        };
        self.clips.get(&key)
    }
}

/// The clip that a key event plays, given the mute, mouse-click and
/// fallback settings (see `chosen_key`).
pub fn select_clip<'a, C>(
    bank: &'a SoundBank<C>,
    ev: KeyEvent,
    muted: bool,
    mouse_click: bool,
    fallback: bool,
) -> (r: Option<&'a C>)
    requires
        !muted && !(ev.code == CLICK_CODE && !mouse_click) && ev.press ==> ev.code <= 0xfeff,
    ensures
        match chosen_key(bank@, ev, muted, mouse_click, fallback) {
            Some(k) => r == Some(&bank@[k]),
            None => r is None,
        },
        muted ==> r is None,
        ev.code == CLICK_CODE && !mouse_click ==> r is None,
        !muted && !(ev.code == CLICK_CODE && !mouse_click) && bank@.contains_key(
            event_key(ev.code, ev.press),
        ) ==> r == Some(&bank@[event_key(ev.code, ev.press)]),
        !muted && !(ev.code == CLICK_CODE && !mouse_click) && !bank@.contains_key(
            event_key(ev.code, ev.press),
        ) ==> r == (if fallback && bank@.contains_key(event_key(FALLBACK_CODE, ev.press)) {
            Some(&bank@[event_key(FALLBACK_CODE, ev.press)])
        } else {
            None
        }),
{
    if muted {
        return None;
    }
    if ev.code == CLICK_CODE && !mouse_click {
        return None;
    }
    match bank.get(ev.code, ev.press) {
        Some(c) => Some(c),
        None => {
            if fallback {
                bank.get(FALLBACK_CODE, ev.press)
            } else {
                None
            }
        },
    }
}

/// A key that has its own sound plays it, whatever the fallback setting,
/// unless muted or a silenced click; the fallback sound is chosen only
/// for a key without a sound of its own, and only with the fallback on;
/// muted, or a click with clicks off, nothing plays. The chosen key, if
/// any, is always one the bank holds.
pub proof fn law_own_sound_before_fallback<C>(
    bank: Map<u16, C>,
    ev: KeyEvent,
    muted: bool,
    mouse_click: bool,
    fallback: bool,
)
    ensures
        !muted && !(ev.code == CLICK_CODE && !mouse_click) && bank.contains_key(
            event_key(ev.code, ev.press),
        ) ==> chosen_key(bank, ev, muted, mouse_click, fallback) == Some(
            event_key(ev.code, ev.press),
        ),
        chosen_key(bank, ev, muted, mouse_click, fallback) == Some(event_key(FALLBACK_CODE, ev.press))
            && event_key(FALLBACK_CODE, ev.press) != event_key(ev.code, ev.press) ==> fallback
            && !bank.contains_key(event_key(ev.code, ev.press)),
        !muted && !(ev.code == CLICK_CODE && !mouse_click) && !bank.contains_key(
            event_key(ev.code, ev.press),
        ) && fallback && bank.contains_key(event_key(FALLBACK_CODE, ev.press)) ==> chosen_key(
            bank,
            ev,
            muted,
            mouse_click,
            fallback,
        ) == Some(event_key(FALLBACK_CODE, ev.press)),
        !fallback && !bank.contains_key(event_key(ev.code, ev.press)) ==> chosen_key(
            bank,
            ev,
            muted,
            mouse_click,
            fallback,
        ) is None,
        muted || (ev.code == CLICK_CODE && !mouse_click) ==> chosen_key(
            bank,
            ev,
            muted,
            mouse_click,
            fallback,
        ) is None,
        chosen_key(bank, ev, muted, mouse_click, fallback) matches Some(k) ==> bank.contains_key(k),
{
}

/// Loading then looking up: the bank holds a clip under key `k` exactly
/// when some loaded sound has key `k`.
pub proof fn law_bank_holds_loaded_keys<C>(clips: Seq<(u16, C)>, k: u16)
    ensures
        clips_map(clips).contains_key(k) <==> exists|i: int|
            0 <= i < clips.len() && (#[trigger] clips[i]).0 == k,
    decreases clips.len(),
{
    if clips.len() > 0 {
        let rest = clips.drop_last();
        law_bank_holds_loaded_keys(rest, k);
        if exists|i: int| 0 <= i < rest.len() && (#[trigger] rest[i]).0 == k {
            let i = choose|i: int| 0 <= i < rest.len() && (#[trigger] rest[i]).0 == k;
            assert(clips[i] == rest[i]);
        }
        if exists|i: int| 0 <= i < clips.len() && (#[trigger] clips[i]).0 == k {
            let i = choose|i: int| 0 <= i < clips.len() && (#[trigger] clips[i]).0 == k;
            if i < rest.len() {
                assert(rest[i] == clips[i]);
            }
        }
    }
}

/// Loading then looking up: under the key of a loaded sound that no later
/// sound shares, the bank holds that sound's clip.
pub proof fn law_last_loaded_clip_wins<C>(clips: Seq<(u16, C)>, i: int)
    requires
        0 <= i < clips.len(),
        forall|j: int| i < j < clips.len() ==> (#[trigger] clips[j]).0 != clips[i].0,
    ensures
        clips_map(clips).contains_key(clips[i].0),
        clips_map(clips)[clips[i].0] == clips[i].1,
    decreases clips.len(),
{
    if i < clips.len() - 1 {
        let rest = clips.drop_last();
        assert(clips[clips.len() - 1].0 != clips[i].0);
        assert forall|j: int| i < j < rest.len() implies (#[trigger] rest[j]).0 != rest[i].0 by {
            assert(clips[j] == rest[j]);
        }
        law_last_loaded_clip_wins(rest, i);
    }
}

/// Sounds named as `sound_key` reads file names fill a bank whose keys are
/// all below 0x200: bit 8 tells press from release and the low byte is the
/// key code, so each key is the `event_key` of that code and direction.
pub proof fn law_named_sounds_fill_key_range<C>(clips: Seq<(u16, C)>)
    requires
        forall|i: int| 0 <= i < clips.len() ==> (#[trigger] clips[i]).0 < 0x200,
    ensures
        forall|k: u16| #[trigger]
            clips_map(clips).contains_key(k) ==> k < 0x200 && k == event_key(
                (k % 256) as u16,
                k >= 256,
            ),
{
    assert forall|k: u16| #[trigger] clips_map(clips).contains_key(k) implies k < 0x200 && k
        == event_key((k % 256) as u16, k >= 256) by {
        law_bank_holds_loaded_keys(clips, k);
        let i = choose|i: int| 0 <= i < clips.len() && (#[trigger] clips[i]).0 == k;
    }
}

/// With the fallback on and a fallback sound for the direction at hand,
/// every key event that is neither muted nor a silenced click plays a
/// clip, its own if the bank has one.
pub proof fn law_fallback_covers_every_key<C>(bank: Map<u16, C>, ev: KeyEvent, mouse_click: bool)
    requires
        bank.contains_key(event_key(FALLBACK_CODE, ev.press)),
        !(ev.code == CLICK_CODE && !mouse_click),
    ensures
        chosen_key(bank, ev, false, mouse_click, true) is Some,
        bank.contains_key(event_key(ev.code, ev.press)) ==> chosen_key(
            bank,
            ev,
            false,
            mouse_click,
            true,
        ) == Some(event_key(ev.code, ev.press)),
{
}

/// Stereo frames from interleaved samples of `channels` channels (at least
/// one): the first two channels of each whole frame, or the single channel
/// twice; a partial frame at the end is dropped.
pub open spec fn stereo_frames_of<T>(samples: Seq<T>, channels: nat) -> Seq<(T, T)> {
    let ch = if channels == 0 {
        1
    } else {
        channels
    };
    Seq::new(
        samples.len() / ch,
        |k: int|
            if ch > 1 {
                (samples[k * ch], samples[k * ch + 1])
            } else {
                (samples[k * ch], samples[k * ch])
            },
    )
}

/// Groups interleaved samples of `channels` channels into stereo frames; a
/// channel count of 0 is taken as 1 (see `stereo_frames_of`).
pub fn stereo_frames<T: Copy>(samples: &[T], channels: u16) -> (r: Vec<(T, T)>)
    ensures
        r@ == stereo_frames_of(samples@, channels as nat),
{
    let ch: usize = if channels == 0 {
        1
    } else {
        channels as usize
    };
    let ghost target = stereo_frames_of(samples@, channels as nat);
    let mut out: Vec<(T, T)> = Vec::new();
    let mut start: usize = 0;
    let ghost mut k: nat = 0;
    while ch <= samples.len() - start
        invariant
            ch == (if channels == 0 {
                1
            } else {
                channels as nat
            }),
            target == stereo_frames_of(samples@, channels as nat),
            start == k * ch,
            start <= samples@.len(),
            out@.len() == k,
            forall|j: int|
                0 <= j < k ==> out@[j] == (if ch > 1 {
                    (samples@[j * ch], samples@[j * ch + 1])
                } else {
                    (samples@[j * ch], samples@[j * ch])
                }),
        decreases samples@.len() - start,
    {
        assert((k + 1) * ch == k * ch + ch) by (nonlinear_arith);
        let frame = if ch > 1 {
            (samples[start], samples[start + 1])
        } else {
            (samples[start], samples[start])
        };
        out.push(frame);
        start = start + ch;
        proof {
            k = k + 1;
        }
    }
    proof {
        lemma_whole_chunks(samples@.len(), ch as nat, k);
        assert(out@ =~= target);
    }
    out
}

} // verus!
