//! Names of sound files: `<hexcode>-<0|1>.wav`, the sound of a key's release
//! (`0`) or press (`1`).

use vstd::prelude::*;

use crate::text::chars_of;

verus! {

/// Index of the last `c` in `s`, or -1.
pub open spec fn last_index_of(s: Seq<char>, c: char) -> int
    decreases s.len(),
{
    if s.len() == 0 {
        -1
    } else if s.last() == c {
        s.len() - 1
    } else {
        last_index_of(s.drop_last(), c)
    }
}

/// Index of the first `c` in `s`, or -1.
pub open spec fn first_index_of(s: Seq<char>, c: char) -> int
    decreases s.len(),
{
    if s.len() == 0 {
        -1
    } else {
        let r = first_index_of(s.drop_last(), c);
        if r >= 0 {
            r
        } else if s.last() == c {
            s.len() - 1
        } else {
            -1
        }
    }
}

/// `wav` in any mix of upper and lower case.
pub open spec fn is_wav_extension(ext: Seq<char>) -> bool {
    &&& ext.len() == 3
    &&& (ext[0] == 'w' || ext[0] == 'W')
    &&& (ext[1] == 'a' || ext[1] == 'A')
    &&& (ext[2] == 'v' || ext[2] == 'V')
}

/// The value of a hexadecimal digit.
pub open spec fn hex_digit(c: char) -> Option<nat> {
    if '0' <= c && c <= '9' {
        Some((c as nat - '0' as nat) as nat)
    } else if 'a' <= c && c <= 'f' {
        Some((c as nat - 'a' as nat + 10) as nat)
    } else if 'A' <= c && c <= 'F' {
        Some((c as nat - 'A' as nat + 10) as nat)
    } else {
        None
    }
}

/// Whether every character of `s` is a hexadecimal digit.
pub open spec fn all_hex(s: Seq<char>) -> bool {
    forall|i: int| 0 <= i < s.len() ==> (#[trigger] hex_digit(s[i])) is Some
}

/// The number that the hexadecimal digits `s` write.
pub open spec fn hex_value(s: Seq<char>) -> nat
    decreases s.len(),
{
    if s.len() == 0 {
        0
    } else {
        hex_value(s.drop_last()) * 16 + hex_digit(s.last()).unwrap_or(0)
    }
}

/// `s` read as a hexadecimal byte, as `u8::from_str_radix(s, 16)` reads it:
/// an optional `+`, then one or more hexadecimal digits whose value is below
/// 256.
pub open spec fn parse_hex_byte(s: Seq<char>) -> Option<u8> {
    let digits = if s.len() > 0 && s[0] == '+' {
        s.drop_first()
    } else {
        s
    };
    if digits.len() > 0 && all_hex(digits) && hex_value(digits) < 256 {
        Some(hex_value(digits) as u8)
    } else {
        None
    }
}

/// The key under which a sound bank keeps the sound of key `code` going
/// down (`press`) or up.
pub open spec fn bank_key(code: int, press: bool) -> int {
    if press {
        code + 256
    } else {
        code
    }
}

/// The sound-bank key that a file name stands for, if it is the name of a
/// key sound: an extension `wav` in any case (after the last dot, which is
/// not the first character), and before it `<code>-<p>`, where `<code>`
/// (up to the first `-`) is a hexadecimal byte and `<p>` is `0` (release)
/// or `1` (press).
pub open spec fn sound_key_of(name: Seq<char>) -> Option<u16> {
    let d = last_index_of(name, '.');
    if d > 0 && is_wav_extension(name.skip(d + 1)) {
        let stem = name.take(d);
        let h = first_index_of(stem, '-');
        if h < 0 {
            None
        } else {
            match parse_hex_byte(stem.take(h)) {
                Some(code) => {
                    let p = stem.skip(h + 1);
                    if p == seq!['0'] {
                        Some(bank_key(code as int, false) as u16)
                    } else if p == seq!['1'] {
                        Some(bank_key(code as int, true) as u16)
                    } else {
                        None
                    }
                },
                None => None,
            }
        }
    } else {
        None
    }
}

proof fn lemma_hex_value_grows(s: Seq<char>, k: int)
    requires
        0 <= k <= s.len(),
    ensures
        hex_value(s.take(k)) <= hex_value(s),
    decreases s.len(),
{
    if k < s.len() {
        assert(s.drop_last().take(k) =~= s.take(k));
        lemma_hex_value_grows(s.drop_last(), k);
    } else {
        assert(s.take(k) =~= s);
    }
}

/// The value of one hexadecimal digit.
fn hex_digit_value(c: char) -> (r: Option<u32>)
    ensures
        match r {
            Some(v) => hex_digit(c) == Some(v as nat),
            None => hex_digit(c) is None,
        },
{
    if '0' <= c && c <= '9' {
        Some(c as u32 - '0' as u32)
    } else if 'a' <= c && c <= 'f' {
        Some(c as u32 - 'a' as u32 + 10)
    } else if 'A' <= c && c <= 'F' {
        Some(c as u32 - 'A' as u32 + 10)
    } else {
        None
    }
}

/// Reads `s[from..to]` as `u8::from_str_radix(.., 16)` does.
fn parse_hex_byte_at(s: &[char], from: usize, to: usize) -> (r: Option<u8>)
    requires
        from <= to <= s@.len(),
    ensures
        r == parse_hex_byte(s@.subrange(from as int, to as int)),
{
    let ghost whole = s@.subrange(from as int, to as int);
    let mut start = from;
    if from < to && s[from] == '+' {
        start = from + 1;
    }
    let ghost digits = s@.subrange(start as int, to as int);
    assert(digits == if whole.len() > 0 && whole[0] == '+' {
        whole.drop_first()
    } else {
        whole
    });
    if start == to {
        return None;
    }
    let mut value: u32 = 0;
    let mut i = start;
    while i < to
        invariant
            start <= i <= to <= s@.len(),
            digits == s@.subrange(start as int, to as int),
            whole == s@.subrange(from as int, to as int),
            digits == (if whole.len() > 0 && whole[0] == '+' {
                whole.drop_first()
            } else {
                whole
            }),
            all_hex(digits.take(i - start)),
            value == hex_value(digits.take(i - start)),
            value < 256,
        decreases to - i,
    {
        let ghost pre = digits.take(i - start);
        let ghost post = digits.take(i + 1 - start);
        assert(post.drop_last() =~= pre);
        assert(post.last() == s@[i as int]);
        match hex_digit_value(s[i]) {
            Some(d) => {
                value = value * 16 + d;
                assert(value == hex_value(post));
                assert(all_hex(post)) by {
                    assert forall|j: int| 0 <= j < post.len() implies (#[trigger] hex_digit(post[j])) is Some by {
                        if j < pre.len() {
                            assert(post[j] == pre[j]);
                        }
                    }
                }
                if value >= 256 {
                    proof {
                        lemma_hex_value_grows(digits, i + 1 - start);
                    }
                    return None;
                }
            },
            None => {
                assert(!all_hex(digits)) by {
                    assert(digits[i - start] == s@[i as int]);
                    assert(hex_digit(digits[i - start]) is None);
                }
                return None;
            },
        }
        i += 1;
    }
    assert(digits.take(to - start) =~= digits);
    Some(value as u8)
}

/// The sound-bank key that the file name `name` stands for (see
/// `sound_key_of`): `<code>-1.wav` is the press of key `<code>`, kept under
/// `<code> + 256`, and `<code>-0.wav` its release, kept under `<code>`.
/// Any other name stands for no key.
pub fn sound_key(name: &str) -> (r: Option<u16>)
    ensures
        r == sound_key_of(name@),
        r matches Some(k) ==> k < 512,
{
    let cs = chars_of(name);
    let n = cs.len();
    // The last dot.
    let mut dot: Option<usize> = None;
    let mut i: usize = 0;
    while i < n
        invariant
            n == cs@.len(),
            i <= n,
            match dot {
                Some(d) => d < i && last_index_of(cs@.take(i as int), '.') == d,
                None => last_index_of(cs@.take(i as int), '.') == -1,
            },
        decreases n - i,
    {
        let ghost pre = cs@.take(i as int);
        let ghost post = cs@.take(i + 1);
        assert(post.drop_last() =~= pre);
        if cs[i] == '.' {
            dot = Some(i);
        }
        i += 1;
    }
    assert(cs@.take(n as int) =~= cs@);
    let d = match dot {
        Some(d) => d,
        None => {
            return None;
        },
    };
    if d == 0 {
        return None;
    }
    let ghost ext = cs@.skip(d + 1);
    if n - d != 4 {
        return None;
    }
    assert(ext.len() == 3 && ext[0] == cs@[d + 1] && ext[1] == cs@[d + 2] && ext[2] == cs@[d + 3]);
    let (e0, e1, e2) = (cs[d + 1], cs[d + 2], cs[d + 3]);
    if !((e0 == 'w' || e0 == 'W') && (e1 == 'a' || e1 == 'A') && (e2 == 'v' || e2 == 'V')) {
        return None;
    }
    let ghost stem = cs@.take(d as int);
    // The first dash of the stem.
    let mut dash: Option<usize> = None;
    let mut j: usize = 0;
    while j < d && dash.is_none()
        invariant
            d < n == cs@.len(),
            stem == cs@.take(d as int),
            j <= d,
            match dash {
                Some(h) => h < d && first_index_of(stem.take(j as int), '-') == h && j == h + 1,
                None => first_index_of(stem.take(j as int), '-') == -1,
            },
        decreases d - j,
    {
        let ghost pre = stem.take(j as int);
        let ghost post = stem.take(j + 1);
        assert(post.drop_last() =~= pre);
        assert(post.last() == cs@[j as int]);
        if cs[j] == '-' {
            dash = Some(j);
        }
        j += 1;
    }
    let h = match dash {
        Some(h) => h,
        None => {
            assert(stem.take(d as int) =~= stem);
            return None;
        },
    };
    proof {
        lemma_first_index_extends(stem, j as int, h as int);
    }
    assert(stem.take(h as int) =~= cs@.subrange(0, h as int));
    let code = match parse_hex_byte_at(cs.as_slice(), 0, h) {
        Some(c) => c,
        None => {
            return None;
        },
    };
    let ghost p = stem.skip(h + 1);
    if d - h == 2 && cs[h + 1] == '0' {
        assert(p =~= seq!['0']);
        Some(code as u16)
    } else if d - h == 2 && cs[h + 1] == '1' {
        assert(p =~= seq!['1']);
        Some(code as u16 + 256)
    } else {
        assert(p != seq!['0'] && p != seq!['1']) by {
            if d - h == 2 {
                assert(p[0] == cs@[h + 1]);
            } else {
                assert(p.len() != 1);
            }
        }
        None
    }
}

/// Where `c` occurs at `k` and nowhere after, `k` is its last index.
pub proof fn lemma_last_index_at(s: Seq<char>, c: char, k: int)
    requires
        0 <= k < s.len(),
        s[k] == c,
        forall|i: int| k < i < s.len() ==> s[i] != c,
    ensures
        last_index_of(s, c) == k,
    decreases s.len(),
{
    if k < s.len() - 1 {
        let t = s.drop_last();
        assert forall|i: int| k < i < t.len() implies t[i] != c by {
            assert(t[i] == s[i]);
        }
        lemma_last_index_at(t, c, k);
    }
}

/// Where `c` occurs at `k` and nowhere before, `k` is its first index.
pub proof fn lemma_first_index_at(s: Seq<char>, c: char, k: int)
    requires
        0 <= k < s.len(),
        s[k] == c,
        forall|i: int| 0 <= i < k ==> s[i] != c,
    ensures
        first_index_of(s, c) == k,
    decreases s.len(),
{
    if k == s.len() - 1 {
        lemma_no_index(s.drop_last(), c);
    } else {
        let t = s.drop_last();
        assert forall|i: int| 0 <= i < k implies t[i] != c by {
            assert(t[i] == s[i]);
        }
        lemma_first_index_at(t, c, k);
    }
}

/// A sequence without `c` has no first index of it.
pub proof fn lemma_no_index(s: Seq<char>, c: char)
    requires
        forall|i: int| 0 <= i < s.len() ==> s[i] != c,
    ensures
        first_index_of(s, c) == -1,
    decreases s.len(),
{
    if s.len() > 0 {
        let t = s.drop_last();
        assert forall|i: int| 0 <= i < t.len() implies t[i] != c by {
            assert(t[i] == s[i]);
        }
        lemma_no_index(t, c);
    }
}

/// The lower-case hexadecimal digit for `d` (below 16).
pub open spec fn hex_char(d: int) -> char {
    if d < 10 {
        (48 + d) as char
    } else {
        (87 + d) as char
    }
}

/// The name of the sound file of key `code` going down (`press`) or up:
/// two lower-case hexadecimal digits, a dash, `1` or `0`, and `.wav`.
pub open spec fn sound_file_name(code: u8, press: bool) -> Seq<char> {
    seq![
        hex_char(code as int / 16),
        hex_char(code as int % 16),
        '-',
        if press {
            '1'
        } else {
            '0'
        },
        '.',
        'w',
        'a',
        'v',
    ]
}

proof fn lemma_hex_char(d: int)
    requires
        0 <= d < 16,
    ensures
        hex_digit(hex_char(d)) == Some(d as nat),
        hex_char(d) != '.',
        hex_char(d) != '-',
        hex_char(d) != '+',
{
}

/// Every key's sound file is found under that key: the name made of a
/// key code in hexadecimal, `-1` or `-0`, and `.wav` stands for the key
/// that a press or release of that code is looked up under.
pub proof fn law_sound_file_name_roundtrip(code: u8, press: bool)
    ensures
        sound_key_of(sound_file_name(code, press)) == Some(bank_key(code as int, press) as u16),
{
    let name = sound_file_name(code, press);
    let hi = code as int / 16;
    let lo = code as int % 16;
    lemma_hex_char(hi);
    lemma_hex_char(lo);
    // The extension: after the dot at index 4, the last one.
    lemma_last_index_at(name, '.', 4);
    assert(name.skip(5) =~= seq!['w', 'a', 'v']);
    // The code: the two digits before the dash at index 2, the first one.
    let stem = name.take(4);
    lemma_first_index_at(stem, '-', 2);
    let digits = stem.take(2);
    let one = seq![hex_char(hi)];
    assert(digits.drop_last() =~= one);
    assert(one.drop_last() =~= Seq::<char>::empty());
    assert(one.last() == hex_char(hi));
    assert(hex_value(Seq::<char>::empty()) == 0);
    assert(hex_value(one) == hi);
    assert(digits.last() == hex_char(lo));
    assert(hex_value(digits) == hi * 16 + lo);
    assert(all_hex(digits));
    assert(parse_hex_byte(digits) == Some(code));
    // The direction: the one character after the dash.
    if press {
        assert(stem.skip(3) =~= seq!['1']);
        assert(stem.skip(3)[0] != seq!['0'][0]);
    } else {
        assert(stem.skip(3) =~= seq!['0']);
    }
}

/// Once the first `c` of `s` lies in a prefix, it is the first `c` of `s`.
proof fn lemma_first_index_extends(s: Seq<char>, j: int, h: int)
    requires
        0 <= h < j <= s.len(),
        first_index_of(s.take(j), '-') == h,
    ensures
        first_index_of(s, '-') == h,
    decreases s.len() - j,
{
    if j < s.len() {
        let post = s.take(j + 1);
        assert(post.drop_last() =~= s.take(j));
        lemma_first_index_extends(s, j + 1, h);
    } else {
        assert(s.take(j) =~= s);
    }
}

} // verus!
