//! Character-level helpers shared by the text parsers.
use vstd::prelude::*;

verus! {

broadcast use vstd::string::group_string_axioms;

/// The characters of a string slice, in order.
pub fn chars_of(s: &str) -> (v: Vec<char>)
    ensures
        v@ == s@,
{
    let mut v: Vec<char> = Vec::new();
    for c in it: s.chars()
        invariant
            it.seq() == s@,
            v@ == s@.take(it.index()),
    {
        v.push(c);
        assert(v@ == s@.take(it.index() + 1));
    }
    assert(v@ == s@);
    v
}

/// `char::is_whitespace`: the Unicode White_Space characters.
pub open spec fn spec_is_whitespace(c: char) -> bool {
    let v = c as int;
    ||| 9 <= v <= 13
    ||| v == 32
    ||| v == 0x85
    ||| v == 0xA0
    ||| v == 0x1680
    ||| 0x2000 <= v <= 0x200A
    ||| v == 0x2028
    ||| v == 0x2029
    ||| v == 0x202F
    ||| v == 0x205F
    ||| v == 0x3000
}

pub fn is_whitespace(c: char) -> (r: bool)
    ensures
        r == spec_is_whitespace(c),
{
    let v = c as u32;
    (9 <= v && v <= 13) || v == 32 || v == 0x85 || v == 0xA0 || v == 0x1680 || (0x2000 <= v && v
        <= 0x200A) || v == 0x2028 || v == 0x2029 || v == 0x202F || v == 0x205F || v == 0x3000
}

/// The character classes that text is trimmed by.
#[derive(Clone, Copy, Debug, PartialEq, Eq)]
pub enum CharClass {
    /// `char::is_whitespace`.
    Whitespace,
    /// Sentence punctuation: `.`, `,`, `!`, `?`, `。`, `！`, `？`.
    SentencePunct,
    /// One given character.
    Only(char),
}

pub open spec fn in_class(cls: CharClass, c: char) -> bool {
    match cls {
        CharClass::Whitespace => spec_is_whitespace(c),
        CharClass::SentencePunct => c == '.' || c == ',' || c == '!' || c == '?' || c == '。' || c
            == '！' || c == '？',
        CharClass::Only(x) => c == x,
    }
}

pub fn char_in_class(cls: CharClass, c: char) -> (r: bool)
    ensures
        r == in_class(cls, c),
{
    match cls {
        CharClass::Whitespace => is_whitespace(c),
        CharClass::SentencePunct => c == '.' || c == ',' || c == '!' || c == '?' || c == '。' || c
            == '！' || c == '？',
        CharClass::Only(x) => c == x,
    }
}

/// `s` without its leading characters of class `cls`.
pub open spec fn strip_front(s: Seq<char>, cls: CharClass) -> Seq<char>
    decreases s.len(),
{
    if s.len() > 0 && in_class(cls, s[0]) {
        strip_front(s.drop_first(), cls)
    } else {
        s
    }
}

/// `s` without its trailing characters of class `cls`.
pub open spec fn strip_back(s: Seq<char>, cls: CharClass) -> Seq<char>
    decreases s.len(),
{
    if s.len() > 0 && in_class(cls, s.last()) {
        strip_back(s.drop_last(), cls)
    } else {
        s
    }
}

/// `s` trimmed of characters of class `cls` at both ends
/// (`str::trim` for whitespace, `str::trim_matches` otherwise).
pub open spec fn strip(s: Seq<char>, cls: CharClass) -> Seq<char> {
    strip_back(strip_front(s, cls), cls)
}

/// Trims the window `[lo, hi)` of `v`, returning the window that remains.
pub fn strip_window(v: &Vec<char>, lo: usize, hi: usize, cls: CharClass) -> (r: (usize, usize))
    requires
        lo <= hi <= v@.len(),
    ensures
        lo <= r.0 <= r.1 <= hi,
        v@.subrange(r.0 as int, r.1 as int) == strip(v@.subrange(lo as int, hi as int), cls),
{
    let mut a = lo;
    while a < hi && char_in_class(cls, v[a])
        invariant
            lo <= a <= hi <= v@.len(),
            strip_front(v@.subrange(lo as int, hi as int), cls) == strip_front(
                v@.subrange(a as int, hi as int),
                cls,
            ),
        decreases hi - a,
    {
        assert(v@.subrange(a as int, hi as int).drop_first() =~= v@.subrange(a + 1, hi as int));
        a = a + 1;
    }
    let mut b = hi;
    while b > a && char_in_class(cls, v[b - 1])
        invariant
            lo <= a <= b <= hi <= v@.len(),
            strip_back(v@.subrange(a as int, hi as int), cls) == strip_back(
                v@.subrange(a as int, b as int),
                cls,
            ),
        decreases b - a,
    {
        assert(v@.subrange(a as int, b as int).drop_last() =~= v@.subrange(a as int, b - 1));
        b = b - 1;
    }
    (a, b)
}

/// Whether every character of `s` has class `cls`.
pub open spec fn all_in_class(s: Seq<char>, cls: CharClass) -> bool {
    forall|i: int| 0 <= i < s.len() ==> in_class(cls, #[trigger] s[i])
}

pub proof fn lemma_strip_empty_iff_all(s: Seq<char>, cls: CharClass)
    ensures
        strip_front(s, cls).len() == 0 <==> all_in_class(s, cls),
        strip_front(s, cls).len() > 0 ==> !in_class(cls, strip_front(s, cls)[0]),
        strip(s, cls).len() == 0 <==> all_in_class(s, cls),
    decreases s.len(),
{
    if s.len() > 0 {
        lemma_strip_empty_iff_all(s.drop_first(), cls);
        if in_class(cls, s[0]) {
            assert(all_in_class(s, cls) <==> all_in_class(s.drop_first(), cls)) by {
                if all_in_class(s.drop_first(), cls) {
                    assert forall|i: int| 0 <= i < s.len() implies in_class(cls, #[trigger] s[i]) by {
                        if i > 0 {
                            assert(s[i] == s.drop_first()[i - 1]);
                        }
                    }
                }
            }
        }
    }
    lemma_strip_back_keeps_nonempty(strip_front(s, cls), cls);
}

proof fn lemma_strip_back_keeps_nonempty(s: Seq<char>, cls: CharClass)
    requires
        s.len() > 0 ==> !in_class(cls, s[0]),
    ensures
        strip_back(s, cls).len() == 0 <==> s.len() == 0,
    decreases s.len(),
{
    if s.len() > 1 {
        lemma_strip_back_keeps_nonempty(s.drop_last(), cls);
    }
}

/// `String::push`: appends one character.
#[verifier::external_body]
pub(crate) fn push_char(s: &mut String, c: char)
    ensures
        final(s)@ == old(s)@.push(c),
{
    s.push(c);
}

/// A string holding `v[from..to]`.
pub fn string_of(v: &Vec<char>, from: usize, to: usize) -> (r: String)
    requires
        from <= to <= v@.len(),
    ensures
        r@ == v@.subrange(from as int, to as int),
{
    let mut s = String::new();
    let mut i = from;
    while i < to
        invariant
            from <= i <= to <= v@.len(),
            s@ == v@.subrange(from as int, i as int),
        decreases to - i,
    {
        push_char(&mut s, v[i]);
        i = i + 1;
        assert(s@ =~= v@.subrange(from as int, i as int));
    }
    s
}

/// Appends `v[from..to]` to `s`.
pub fn push_chars(s: &mut String, v: &Vec<char>, from: usize, to: usize)
    requires
        from <= to <= v@.len(),
    ensures
        final(s)@ == old(s)@ + v@.subrange(from as int, to as int),
{
    let mut i = from;
    while i < to
        invariant
            from <= i <= to <= v@.len(),
            s@ == old(s)@ + v@.subrange(from as int, i as int),
        decreases to - i,
    {
        push_char(s, v[i]);
        i = i + 1;
        assert(s@ =~= old(s)@ + v@.subrange(from as int, i as int));
    }
}

/// `substring`'s character slice: the characters at positions
/// `[start, end)`, clamped to the string; empty when `end <= start`.
pub open spec fn char_slice(s: Seq<char>, start: int, end: int) -> Seq<char> {
    if end <= start {
        Seq::empty()
    } else {
        let a = if start < s.len() { start } else { s.len() as int };
        let b = if end < s.len() { end } else { s.len() as int };
        s.subrange(a, b)
    }
}

/// The window of `v` that `char_slice` selects.
pub fn char_slice_window(len: usize, start: usize, end: usize) -> (r: (usize, usize))
    ensures
        r.0 <= r.1 <= len,
        forall|s: Seq<char>|
            s.len() == len ==> #[trigger] char_slice(s, start as int, end as int) == s.subrange(
                r.0 as int,
                r.1 as int,
            ),
{
    if end <= start {
        (0, 0)
    } else {
        let a = if start < len { start } else { len };
        let b = if end < len { end } else { len };
        (a, b)
    }
}

/// Drops the leading characters of class `cls` from the window `[lo, hi)`.
pub fn strip_front_window(v: &Vec<char>, lo: usize, hi: usize, cls: CharClass) -> (r: usize)
    requires
        lo <= hi <= v@.len(),
    ensures
        lo <= r <= hi,
        v@.subrange(r as int, hi as int) == strip_front(v@.subrange(lo as int, hi as int), cls),
{
    let mut a = lo;
    while a < hi && char_in_class(cls, v[a])
        invariant
            lo <= a <= hi <= v@.len(),
            strip_front(v@.subrange(lo as int, hi as int), cls) == strip_front(
                v@.subrange(a as int, hi as int),
                cls,
            ),
        decreases hi - a,
    {
        assert(v@.subrange(a as int, hi as int).drop_first() =~= v@.subrange(a + 1, hi as int));
        a = a + 1;
    }
    assert(!(a < hi) ==> v@.subrange(a as int, hi as int).len() == 0);
    a
}

} // verus!
