// Characters and texts: white space, splitting, trimming, and the moves
// between strings and lists of characters.

use vstd::prelude::*;

verus! {

/// `String::push` of the standard library, which vstd leaves without a
/// specification. Its documentation says that it appends the character to
/// the end of the string: the string afterwards reads as before, with `ch`
/// as one more character at the end. Taken on trust.
pub assume_specification[ String::push ](s: &mut String, ch: char)
    ensures
        final(s)@ == old(s)@.push(ch),
;

/// Whether `c` is a white-space character: the characters that carry the
/// Unicode property `White_Space`.
pub open spec fn is_whitespace(c: char) -> bool {
    ||| '\u{9}' <= c <= '\u{D}'
    ||| c == ' '
    ||| c == '\u{85}'
    ||| c == '\u{A0}'
    ||| c == '\u{1680}'
    ||| '\u{2000}' <= c <= '\u{200A}'
    ||| c == '\u{2028}'
    ||| c == '\u{2029}'
    ||| c == '\u{202F}'
    ||| c == '\u{205F}'
    ||| c == '\u{3000}'
}

/// The character itself. An element of a text that is named through this
/// function is known to the solver as a character, with a character's range.
pub open spec fn as_char(c: char) -> char {
    c
}

/// Whether `c` is one of the letters `A` to `Z`.
pub open spec fn is_uppercase(c: char) -> bool {
    'A' <= c <= 'Z'
}

/// The text `s` with every white-space character taken out.
pub open spec fn without_whitespace(s: Seq<char>) -> Seq<char> {
    s.filter(|c: char| !is_whitespace(c))
}

/// The text `s` without the white space at its start.
pub open spec fn trim_start(s: Seq<char>) -> Seq<char>
    decreases s.len(),
{
    if s.len() > 0 && is_whitespace(s.first()) {
        trim_start(s.drop_first())
    } else {
        s
    }
}

/// The text `s` without the white space at its end.
pub open spec fn trim_end(s: Seq<char>) -> Seq<char>
    decreases s.len(),
{
    if s.len() > 0 && is_whitespace(s.last()) {
        trim_end(s.drop_last())
    } else {
        s
    }
}

/// The text `s` without the white space at either end.
pub open spec fn trim(s: Seq<char>) -> Seq<char> {
    trim_end(trim_start(s))
}

/// The pieces of `s` between the occurrences of `sep`, in order. A text
/// with `n` separators has `n + 1` pieces, some of which may be empty.
pub open spec fn split(s: Seq<char>, sep: char) -> Seq<Seq<char>>
    decreases s.len(),
{
    if s.len() == 0 {
        seq![Seq::empty()]
    } else {
        let before = split(s.drop_last(), sep);
        if s.last() == sep {
            before.push(Seq::empty())
        } else {
            before.update(before.len() - 1, before.last().push(s.last()))
        }
    }
}

/// Whether `c` is a white-space character.
pub fn is_whitespace_char(c: char) -> (r: bool)
    ensures
        r == is_whitespace(c),
{
    ('\u{9}' <= c && c <= '\u{D}') || c == ' ' || c == '\u{85}' || c == '\u{A0}' || c == '\u{1680}'
        || ('\u{2000}' <= c && c <= '\u{200A}') || c == '\u{2028}' || c == '\u{2029}' || c
        == '\u{202F}' || c == '\u{205F}' || c == '\u{3000}'
}

/// Whether `c` is one of the letters `A` to `Z`.
pub fn is_uppercase_char(c: char) -> (r: bool)
    ensures
        r == is_uppercase(c),
{
    'A' <= c && c <= 'Z'
}

/// The characters of `s`, in order.
pub fn chars_of(s: &str) -> (v: Vec<char>)
    ensures
        v@ == s@,
{
    let mut v: Vec<char> = Vec::new();
    for c in it: s.chars()
        invariant
            it.seq() == s@,
            v@ == it.seq().take(it.index()),
    {
        v.push(c);
    }
    v
}

/// A string made of the characters `v[lo..hi]`.
pub fn string_of(v: &Vec<char>, lo: usize, hi: usize) -> (s: String)
    requires
        lo <= hi <= v.len(),
    ensures
        s@ == v@.subrange(lo as int, hi as int),
{
    let mut s = String::new();
    let mut i: usize = lo;
    while i < hi
        invariant
            lo <= i <= hi <= v.len(),
            s@ == v@.subrange(lo as int, i as int),
        decreases hi - i,
    {
        s.push(v[i]);
        i += 1;
    }
    s
}

/// Removes every white-space character from `s`.
pub fn strip_whitespace(s: &str) -> (r: String)
    ensures
        r@ == without_whitespace(s@),
{
    let chars = chars_of(s);
    let mut r = String::new();
    let mut i: usize = 0;
    while i < chars.len()
        invariant
            i <= chars.len(),
            chars@ == s@,
            r@ == without_whitespace(chars@.take(i as int)),
        decreases chars.len() - i,
    {
        let c = chars[i];
        proof {
            let pred = |c: char| !is_whitespace(c);
            assert(chars@.take(i + 1) == chars@.take(i as int).push(c));
            Seq::lemma_filter_push(chars@.take(i as int), c, pred);
        }
        if !is_whitespace_char(c) {
            r.push(c);
        }
        i += 1;
    }
    proof {
        assert(chars@.take(i as int) == chars@);
    }
    r
}

/// The bounds of `v[lo..hi]` once the white space at its two ends is left
/// out.
pub fn trim_bounds(v: &Vec<char>, lo: usize, hi: usize) -> (r: (usize, usize))
    requires
        lo <= hi <= v.len(),
    ensures
        lo <= r.0 <= r.1 <= hi,
        v@.subrange(r.0 as int, r.1 as int) == trim(v@.subrange(lo as int, hi as int)),
{
    let mut a: usize = lo;
    while a < hi && is_whitespace_char(v[a])
        invariant
            lo <= a <= hi <= v.len(),
            trim_start(v@.subrange(lo as int, hi as int)) == trim_start(
                v@.subrange(a as int, hi as int),
            ),
        decreases hi - a,
    {
        proof {
            assert(v@.subrange(a as int, hi as int).drop_first() == v@.subrange(
                a + 1,
                hi as int,
            ));
        }
        a += 1;
    }
    let mut b: usize = hi;
    while a < b && is_whitespace_char(v[b - 1])
        invariant
            a <= b <= hi <= v.len(),
            trim_end(v@.subrange(a as int, hi as int)) == trim_end(v@.subrange(a as int, b as int)),
        decreases b - a,
    {
        proof {
            assert(v@.subrange(a as int, b as int).drop_last() == v@.subrange(a as int, b - 1));
        }
        b -= 1;
    }
    (a, b)
}

/// The bounds of the pieces of `chars` between the occurrences of `sep`:
/// piece `i` of the split is `chars[r[i].0..r[i].1]`.
pub fn split_bounds(chars: &Vec<char>, sep: char) -> (r: Vec<(usize, usize)>)
    ensures
        r@.len() == split(chars@, sep).len(),
        forall|i: int|
            0 <= i < r@.len() ==> (#[trigger] r@[i]).0 <= r@[i].1 <= chars@.len()
                && chars@.subrange(r@[i].0 as int, r@[i].1 as int) == split(chars@, sep)[i],
{
    let mut bounds: Vec<(usize, usize)> = Vec::new();
    let ghost mut done: Seq<Seq<char>> = Seq::empty();
    let mut start: usize = 0;
    let mut i: usize = 0;
    proof {
        assert(chars@.subrange(0, 0) =~= Seq::<char>::empty());
        assert(split(chars@.take(0), sep) =~= done.push(chars@.subrange(0, 0)));
    }
    while i < chars.len()
        invariant
            start <= i <= chars.len(),
            split(chars@.take(i as int), sep) == done.push(chars@.subrange(start as int, i as int)),
            bounds@.len() == done.len(),
            forall|j: int|
                0 <= j < bounds@.len() ==> (#[trigger] bounds@[j]).0 <= bounds@[j].1 <= chars@.len()
                    && chars@.subrange(bounds@[j].0 as int, bounds@[j].1 as int) == done[j],
        decreases chars.len() - i,
    {
        proof {
            assert(chars@.take(i + 1).drop_last() == chars@.take(i as int));
        }
        if chars[i] == sep {
            proof {
                done = done.push(chars@.subrange(start as int, i as int));
                assert(chars@.subrange(i + 1, i + 1) =~= Seq::<char>::empty());
            }
            bounds.push((start, i));
            start = i + 1;
        } else {
            proof {
                assert(chars@.subrange(start as int, i + 1) =~= chars@.subrange(
                    start as int,
                    i as int,
                ).push(chars@[i as int]));
                assert(done.push(chars@.subrange(start as int, i as int)).update(
                    done.len() as int,
                    chars@.subrange(start as int, i + 1),
                ) =~= done.push(chars@.subrange(start as int, i + 1)));
            }
        }
        i += 1;
    }
    proof {
        assert(chars@.take(i as int) == chars@);
    }
    bounds.push((start, i));
    bounds
}

/// Whether the characters of `suffix` stand at the end of `text`.
pub fn ends_with_chars(text: &Vec<char>, suffix: &Vec<char>) -> (r: bool)
    ensures
        r == suffix@.is_suffix_of(text@),
{
    if suffix.len() > text.len() {
        return false;
    }
    let off: usize = text.len() - suffix.len();
    let mut i: usize = 0;
    while i < suffix.len()
        invariant
            i <= suffix.len() <= text.len(),
            off == text.len() - suffix.len(),
            forall|j: int| 0 <= j < i ==> suffix@[j] == text@[off + j],
        decreases suffix.len() - i,
    {
        if suffix[i] != text[off + i] {
            proof {
                let tail = text@.subrange(text@.len() - suffix@.len(), text@.len() as int);
                assert(tail[i as int] == text@[off + i]);
            }
            return false;
        }
        i += 1;
    }
    proof {
        let tail = text@.subrange(text@.len() - suffix@.len(), text@.len() as int);
        assert(suffix@ =~= tail);
    }
    true
}

} // verus!
