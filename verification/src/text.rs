use vstd::prelude::*;

verus! {

/// Whether `s` begins with `p`.
pub open spec fn has_prefix(s: Seq<char>, p: Seq<char>) -> bool {
    p.len() <= s.len() && s.take(p.len() as int) == p
}

/// Whether the characters of `s` from index `from` on begin with `p`.
pub fn prefix_at(s: &[char], from: usize, p: &[char]) -> (r: bool)
    requires
        from <= s@.len(),
    ensures
        r == has_prefix(s@.skip(from as int), p@),
{
    if p.len() > s.len() - from {
        return false;
    }
    let mut j: usize = 0;
    while j < p.len()
        invariant
            from <= s@.len(),
            from + p@.len() <= s@.len() <= usize::MAX,
            j <= p@.len(),
            forall|k: int| 0 <= k < j ==> s@[from + k] == p@[k],
        decreases p@.len() - j,
    {
        if s[from + j] != p[j] {
            assert(s@.skip(from as int).take(p@.len() as int)[j as int] != p@[j as int]);
            return false;
        }
        j += 1;
    }
    assert(s@.skip(from as int).take(p@.len() as int) =~= p@);
    true
}

/// Unicode's `White_Space` property, which `char::is_whitespace` tests.
pub open spec fn is_white_space(c: char) -> bool {
    ||| c == ' '
    ||| ('\u{9}' <= c && c <= '\u{d}')
    ||| c == '\u{85}'
    ||| c == '\u{a0}'
    ||| c == '\u{1680}'
    ||| ('\u{2000}' <= c && c <= '\u{200a}')
    ||| c == '\u{2028}'
    ||| c == '\u{2029}'
    ||| c == '\u{202f}'
    ||| c == '\u{205f}'
    ||| c == '\u{3000}'
}

/// Whether `c` is white space in Unicode's sense.
pub fn is_whitespace(c: char) -> (r: bool)
    ensures
        r == is_white_space(c),
{
    c == ' ' || ('\u{9}' <= c && c <= '\u{d}') || c == '\u{85}' || c == '\u{a0}' || c
        == '\u{1680}' || ('\u{2000}' <= c && c <= '\u{200a}') || c == '\u{2028}' || c
        == '\u{2029}' || c == '\u{202f}' || c == '\u{205f}' || c == '\u{3000}'
}

/// The words of `s`: its maximal runs of characters that are not white
/// space, in order.
pub open spec fn words(s: Seq<char>) -> Seq<Seq<char>>
    decreases s.len(),
{
    if s.len() == 0 {
        seq![]
    } else {
        let rest = words(s.drop_last());
        let c = s.last();
        if is_white_space(c) {
            rest
        } else if s.len() >= 2 && !is_white_space(s[s.len() - 2]) {
            rest.drop_last().push(rest.last().push(c))
        } else {
            rest.push(seq![c])
        }
    }
}

/// The lines of `s`: the pieces between line feeds.
pub open spec fn split_lines(s: Seq<char>) -> Seq<Seq<char>>
    decreases s.len(),
{
    if s.len() == 0 {
        seq![seq![]]
    } else {
        let rest = split_lines(s.drop_last());
        if s.last() == '\n' {
            rest.push(seq![])
        } else {
            rest.drop_last().push(rest.last().push(s.last()))
        }
    }
}

/// `split_lines` never yields an empty list.
pub proof fn lemma_split_lines_nonempty(s: Seq<char>)
    ensures
        split_lines(s).len() >= 1,
    decreases s.len(),
{
    if s.len() > 0 {
        lemma_split_lines_nonempty(s.drop_last());
    }
}

/// The character sequences held by a list of character vectors.
pub open spec fn views(v: Seq<Vec<char>>) -> Seq<Seq<char>> {
    v.map_values(|w: Vec<char>| w@)
}

/// The characters of `s`, one by one.
pub fn chars_of(s: &str) -> (v: Vec<char>)
    ensures
        v@ == s@,
{
    let mut v: Vec<char> = Vec::new();
    for c in it: s.chars()
        invariant
            it.seq() == s@,
            v@ == it.seq().take(it.index() as int),
    {
        v.push(c);
        assert(it.seq().take(it.index() + 1) =~= v@);
    }
    assert(s@.take(s@.len() as int) =~= s@);
    v
}

/// Collects characters into a `String`.
///
/// Trusted: `String`'s `FromIterator<&char>` impl, which the std
/// documentation describes as appending each character in turn, so that the
/// result holds exactly these characters in this order.
#[verifier::external_body]
pub(crate) fn string_from_chars(chars: &[char]) -> (r: String)
    ensures
        r@ == chars@,
{
    String::from_iter(chars.iter())
}

/// The words of `s` from index `from` on, split at Unicode white space as
/// `str::split_whitespace` does.
pub fn split_whitespace(s: &[char], from: usize) -> (r: Vec<Vec<char>>)
    requires
        from <= s@.len(),
    ensures
        views(r@) == words(s@.skip(from as int)),
{
    let mut done: Vec<Vec<char>> = Vec::new();
    let mut cur: Vec<char> = Vec::new();
    let mut i: usize = from;
    while i < s.len()
        invariant
            from <= i <= s@.len(),
            words(s@.subrange(from as int, i as int)) == if cur@.len() > 0 {
                views(done@).push(cur@)
            } else {
                views(done@)
            },
            cur@.len() > 0 <==> (i > from && !is_white_space(s@[i - 1])),
        decreases s@.len() - i,
    {
        let c = s[i];
        let ghost t = s@.subrange(from as int, i as int);
        let ghost t2 = s@.subrange(from as int, i + 1);
        assert(t2.drop_last() =~= t);
        assert(t2.last() == c);
        if is_whitespace(c) {
            if cur.len() > 0 {
                let ghost before = views(done@);
                let ghost wv = cur@;
                done.push(cur);
                cur = Vec::new();
                assert(views(done@) =~= before.push(wv));
            }
        } else {
            let ghost prev = views(done@);
            let ghost oldcur = cur@;
            let ghost rest = words(t);
            if cur.len() > 0 {
                assert(t2.len() >= 2 && t2[t2.len() - 2] == s@[i - 1]);
                assert(rest == prev.push(oldcur));
                assert(rest.drop_last() =~= prev);
                assert(words(t2) == rest.drop_last().push(rest.last().push(c)));
            } else {
                assert(t2.len() >= 2 ==> t2[t2.len() - 2] == s@[i - 1]);
                assert(words(t2) == rest.push(seq![c]));
                assert(seq![c] =~= oldcur.push(c));
            }
            cur.push(c);
            assert(words(t2) =~= prev.push(cur@));
        }
        i += 1;
    }
    if cur.len() > 0 {
        let ghost before = views(done@);
        let ghost wv = cur@;
        done.push(cur);
        assert(views(done@) =~= before.push(wv));
    }
    assert(s@.subrange(from as int, s@.len() as int) =~= s@.skip(from as int));
    done
}

} // verus!
