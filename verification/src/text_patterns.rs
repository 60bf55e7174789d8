//! Sentence and command-name patterns for streamed model output. Both are
//! decided by a left-to-right scan with no backtracking, so a chunk can be
//! re-scanned as more text streams in.
use crate::text::{
    all_in_class, chars_of, is_whitespace, lemma_strip_empty_iff_all, spec_is_whitespace, strip,
    strip_window, CharClass,
};
use vstd::prelude::*;

verus! {

/// Characters that close a sentence wherever they stand: line breaks,
/// ASCII `.`, `!`, `?` and the full-width `！`, `？`.
pub open spec fn is_hard_terminator(c: char) -> bool {
    c == '\n' || c == '\r' || c == '.' || c == '!' || c == '?' || c == '！' || c == '？'
}

/// Whether the character at `d` closes a sentence. The full-width full stop
/// `。` closes one too, unless whitespace follows it directly: then the text
/// goes on.
pub open spec fn closes_at(s: Seq<char>, d: int) -> bool {
    ||| is_hard_terminator(s[d])
    ||| s[d] == '。' && (d + 1 == s.len() || !spec_is_whitespace(s[d + 1]))
}

/// Where a sentence closed at `d` ends: `\r\n` is one delimiter.
pub open spec fn close_end(s: Seq<char>, d: int) -> int {
    if s[d] == '\r' && d + 1 < s.len() && s[d + 1] == '\n' {
        d + 2
    } else {
        d + 1
    }
}

/// The sentences of `s[start..]`, scanning from `d`: each runs from the end
/// of the previous one through the next closing character.
pub open spec fn sentence_ranges(s: Seq<char>, start: int, d: int) -> Seq<(int, int)>
    decreases s.len() - d,
{
    if d < 0 || d >= s.len() {
        Seq::empty()
    } else if closes_at(s, d) {
        let e = close_end(s, d);
        seq![(start, e)] + sentence_ranges(s, e, e)
    } else {
        sentence_ranges(s, start, d + 1)
    }
}

/// Where the unterminated tail begins, scanning as above.
pub open spec fn tail_start(s: Seq<char>, start: int, d: int) -> int
    decreases s.len() - d,
{
    if d < 0 || d >= s.len() {
        start
    } else if closes_at(s, d) {
        tail_start(s, close_end(s, d), close_end(s, d))
    } else {
        tail_start(s, start, d + 1)
    }
}

pub open spec fn spec_sentences(s: Seq<char>) -> Seq<Seq<char>> {
    sentence_ranges(s, 0, 0).map_values(|r: (int, int)| s.subrange(r.0, r.1))
}

pub open spec fn spec_tail(s: Seq<char>) -> Seq<char> {
    s.subrange(tail_start(s, 0, 0), s.len() as int)
}

pub open spec fn strs_view(v: Seq<&str>) -> Seq<Seq<char>> {
    v.map_values(|x: &str| x@)
}

/// Scans for sentence ranges, returning them and the tail start.
fn scan_sentences(v: &Vec<char>) -> (r: (Vec<(usize, usize)>, usize))
    ensures
        r.0@.len() == sentence_ranges(v@, 0, 0).len(),
        forall|i: int|
            0 <= i < r.0@.len() ==> r.0@[i].0 as int == sentence_ranges(v@, 0, 0)[i].0
                && r.0@[i].1 as int == sentence_ranges(v@, 0, 0)[i].1 && r.0@[i].0 <= r.0@[i].1
                <= v@.len(),
        r.1 as int == tail_start(v@, 0, 0),
        r.1 <= v@.len(),
{
    let n = v.len();
    let mut ranges: Vec<(usize, usize)> = Vec::new();
    let mut start: usize = 0;
    let mut d: usize = 0;
    while d < n
        invariant
            n == v@.len(),
            start <= d <= n,
            sentence_ranges(v@, 0, 0) == Seq::new(
                ranges@.len(),
                |i: int| (ranges@[i].0 as int, ranges@[i].1 as int),
            ) + sentence_ranges(v@, start as int, d as int),
            tail_start(v@, 0, 0) == tail_start(v@, start as int, d as int),
            forall|i: int| 0 <= i < ranges@.len() ==> #[trigger] ranges@[i].0 <= ranges@[i].1 <= n,
        decreases n - d,
    {
        let c = v[d];
        let closes = c == '\n' || c == '\r' || c == '.' || c == '!' || c == '?' || c == '！' || c
            == '？' || (c == '。' && (d + 1 == n || !is_whitespace(v[d + 1])));
        if closes {
            let e = if c == '\r' && d + 1 < n && v[d + 1] == '\n' {
                d + 2
            } else {
                d + 1
            };
            let ghost before = Seq::new(
                ranges@.len(),
                |i: int| (ranges@[i].0 as int, ranges@[i].1 as int),
            );
            ranges.push((start, e));
            assert(forall|i: int|
                0 <= i < ranges@.len() ==> #[trigger] ranges@[i].0 <= ranges@[i].1 <= n);
            assert(Seq::new(ranges@.len(), |i: int| (ranges@[i].0 as int, ranges@[i].1 as int))
                =~= before.push((start as int, e as int)));
            assert(sentence_ranges(v@, start as int, d as int) == seq![(start as int, e as int)]
                + sentence_ranges(v@, e as int, e as int));
            assert(before + sentence_ranges(v@, start as int, d as int) =~= before.push(
                (start as int, e as int),
            ) + sentence_ranges(v@, e as int, e as int));
            start = e;
            d = e;
        } else {
            d = d + 1;
        }
    }
    assert(Seq::new(ranges@.len(), |i: int| (ranges@[i].0 as int, ranges@[i].1 as int))
        =~= sentence_ranges(v@, 0, 0));
    (ranges, start)
}

/// The complete sentences of a streamed chunk, in order. An unterminated
/// stream tail is not a sentence.
pub fn find_sentences<'a>(input: &'a str) -> (r: Vec<&'a str>)
    ensures
        strs_view(r@) == spec_sentences(input@),
{
    let v = chars_of(input);
    let (ranges, _) = scan_sentences(&v);
    let mut out: Vec<&'a str> = Vec::new();
    let mut i: usize = 0;
    while i < ranges.len()
        invariant
            v@ == input@,
            i <= ranges@.len(),
            ranges@.len() == sentence_ranges(v@, 0, 0).len(),
            forall|j: int|
                0 <= j < ranges@.len() ==> ranges@[j].0 as int == sentence_ranges(v@, 0, 0)[j].0
                    && ranges@[j].1 as int == sentence_ranges(v@, 0, 0)[j].1 && ranges@[j].0
                    <= ranges@[j].1 <= v@.len(),
            strs_view(out@) == spec_sentences(input@).take(i as int),
        decreases ranges@.len() - i,
    {
        let (a, b) = ranges[i];
        let piece = input.substring_char(a, b);
        let ghost before = out@;
        out.push(piece);
        assert(spec_sentences(input@)[i as int] == input@.subrange(a as int, b as int));
        assert(strs_view(out@) =~= strs_view(before).push(piece@));
        assert(strs_view(out@) =~= spec_sentences(input@).take(i + 1));
        i = i + 1;
    }
    assert(spec_sentences(input@).take(i as int) =~= spec_sentences(input@));
    out
}

/// Splits a chunk into its complete sentences and the unterminated tail that
/// follows them, exactly as written.
pub fn split_sentences<'a>(input: &'a str) -> (r: (Vec<&'a str>, &'a str))
    ensures
        strs_view(r.0@) == spec_sentences(input@),
        r.1@ == spec_tail(input@),
{
    let sentences = find_sentences(input);
    let v = chars_of(input);
    let (_, t) = scan_sentences(&v);
    let tail = input.substring_char(t, v.len());
    (sentences, tail)
}

/// Sentences ready to speak. With `flush_tail` (the response is complete) a
/// tail holding anything but whitespace is spoken too, leaving no tail.
pub fn split_speech<'a>(input: &'a str, flush_tail: bool) -> (r: (Vec<&'a str>, &'a str))
    ensures
        ({
            let flush = flush_tail && !all_in_class(spec_tail(input@), CharClass::Whitespace);
            &&& strs_view(r.0@) == (if flush {
                spec_sentences(input@).push(spec_tail(input@))
            } else {
                spec_sentences(input@)
            })
            &&& r.1@ == (if flush {
                Seq::<char>::empty()
            } else {
                spec_tail(input@)
            })
        }),
{
    let mut sentences = find_sentences(input);
    let v = chars_of(input);
    let n = v.len();
    let (_, t) = scan_sentences(&v);
    let tail = input.substring_char(t, n);
    let (a, b) = strip_window(&v, t, n, CharClass::Whitespace);
    proof {
        assert(v@.subrange(t as int, n as int) == spec_tail(input@));
        lemma_strip_empty_iff_all(spec_tail(input@), CharClass::Whitespace);
    }
    if flush_tail && a < b {
        sentences.push(tail);
        assert(strs_view(sentences@) =~= spec_sentences(input@).push(spec_tail(input@)));
        (sentences, input.substring_char(n, n))
    } else {
        (sentences, tail)
    }
}

/// Whether a sentence has anything to say once whitespace and sentence
/// punctuation are trimmed from its ends.
pub fn is_speakable_sentence(sentence: &str) -> (r: bool)
    ensures
        r == (strip(
            strip(strip(sentence@, CharClass::Whitespace), CharClass::SentencePunct),
            CharClass::Whitespace,
        ).len() > 0),
{
    let v = chars_of(sentence);
    let (a1, b1) = strip_window(&v, 0, v.len(), CharClass::Whitespace);
    let (a2, b2) = strip_window(&v, a1, b1, CharClass::SentencePunct);
    let (a3, b3) = strip_window(&v, a2, b2, CharClass::Whitespace);
    assert(v@.subrange(0, v@.len() as int) =~= sentence@);
    a3 < b3
}

/// Index of the first `c` in `s` at or after `i`.
pub open spec fn first_index(s: Seq<char>, c: char, i: int) -> Option<int>
    decreases s.len() - i,
{
    if i < 0 || i >= s.len() {
        None
    } else if s[i] == c {
        Some(i)
    } else {
        first_index(s, c, i + 1)
    }
}

/// Start of the line that position `k` is on.
pub open spec fn line_start(s: Seq<char>, k: int) -> int
    decreases k,
{
    if k <= 0 {
        0
    } else if s[k - 1] == '\n' {
        k
    } else {
        line_start(s, k - 1)
    }
}

/// The command name before the first `(`: the text from the start of that
/// line up to the parenthesis.
pub open spec fn spec_command_name(s: Seq<char>) -> Option<Seq<char>> {
    match first_index(s, '(', 0) {
        None => None,
        Some(k) => Some(s.subrange(line_start(s, k), k)),
    }
}

proof fn lemma_first_index_bounds(s: Seq<char>, c: char, i: int)
    ensures
        first_index(s, c, i) matches Some(k) ==> i <= k < s.len() && s[k] == c,
    decreases s.len() - i,
{
    if 0 <= i < s.len() && s[i] != c {
        lemma_first_index_bounds(s, c, i + 1);
    }
}

proof fn lemma_line_start_bounds(s: Seq<char>, k: int)
    ensures
        k >= 0 ==> 0 <= line_start(s, k) <= k,
    decreases k,
{
    if k > 0 {
        lemma_line_start_bounds(s, k - 1);
    }
}

/// A command name is shorter than the text it was found in.
pub proof fn lemma_command_name_shorter(s: Seq<char>)
    ensures
        spec_command_name(s) matches Some(n) ==> n.len() < s.len(),
{
    lemma_first_index_bounds(s, '(', 0);
    if let Some(k) = first_index(s, '(', 0) {
        lemma_line_start_bounds(s, k);
    }
}

pub fn command_name<'a>(text: &'a str) -> (r: Option<&'a str>)
    ensures
        match r {
            None => spec_command_name(text@) is None,
            Some(n) => spec_command_name(text@) == Some(n@),
        },
{
    let v = chars_of(text);
    let n = v.len();
    let mut k: usize = 0;
    while k < n && v[k] != '('
        invariant
            v@ == text@,
            n == v@.len(),
            k <= n,
            first_index(v@, '(', 0) == first_index(v@, '(', k as int),
        decreases n - k,
    {
        k = k + 1;
    }
    if k == n {
        return None;
    }
    let mut ls: usize = k;
    while ls > 0 && v[ls - 1] != '\n'
        invariant
            v@ == text@,
            ls <= k < n == v@.len(),
            line_start(v@, k as int) == line_start(v@, ls as int),
        decreases ls,
    {
        ls = ls - 1;
    }
    Some(text.substring_char(ls, k))
}

/// The strings of `ss` one after another.
pub open spec fn concat_all(ss: Seq<Seq<char>>) -> Seq<char>
    decreases ss.len(),
{
    if ss.len() == 0 {
        Seq::empty()
    } else {
        ss[0] + concat_all(ss.drop_first())
    }
}

proof fn lemma_scan_is_exact(s: Seq<char>, start: int, d: int)
    requires
        0 <= start <= d <= s.len(),
    ensures
        concat_all(sentence_ranges(s, start, d).map_values(|r: (int, int)| s.subrange(r.0, r.1)))
            + s.subrange(tail_start(s, start, d), s.len() as int) == s.subrange(
            start,
            s.len() as int,
        ),
    decreases s.len() - d,
{
    let f = |r: (int, int)| s.subrange(r.0, r.1);
    if d >= s.len() {
        assert(sentence_ranges(s, start, d).map_values(f) =~= Seq::<Seq<char>>::empty());
        assert(concat_all(Seq::<Seq<char>>::empty()) =~= Seq::<char>::empty());
    } else if closes_at(s, d) {
        let e = close_end(s, d);
        lemma_scan_is_exact(s, e, e);
        let rest = sentence_ranges(s, e, e);
        let mapped = sentence_ranges(s, start, d).map_values(f);
        assert(mapped =~= seq![s.subrange(start, e)] + rest.map_values(f));
        assert(mapped.drop_first() =~= rest.map_values(f));
        assert(s.subrange(start, e) + s.subrange(e, s.len() as int) =~= s.subrange(
            start,
            s.len() as int,
        ));
    } else {
        lemma_scan_is_exact(s, start, d + 1);
    }
}

/// Splitting keeps the text exactly: the sentences, one after another, and
/// then the tail, are the input.
pub proof fn lemma_split_is_exact(s: Seq<char>)
    ensures
        concat_all(spec_sentences(s)) + spec_tail(s) == s,
{
    lemma_scan_is_exact(s, 0, 0);
    assert(s.subrange(0, s.len() as int) =~= s);
}

proof fn lemma_tail_after_start(s: Seq<char>, start: int, d: int)
    requires
        start <= d,
    ensures
        tail_start(s, start, d) >= start,
    decreases s.len() - d,
{
    if 0 <= d < s.len() {
        if closes_at(s, d) {
            lemma_tail_after_start(s, close_end(s, d), close_end(s, d));
        } else {
            lemma_tail_after_start(s, start, d + 1);
        }
    }
}

proof fn lemma_no_close_after(s: Seq<char>, start: int, d: int)
    requires
        0 <= start <= d,
    ensures
        forall|j: int| tail_start(s, start, d) <= j && d <= j < s.len() ==> !closes_at(s, j),
    decreases s.len() - d,
{
    if d < s.len() {
        if closes_at(s, d) {
            let e = close_end(s, d);
            lemma_no_close_after(s, e, e);
            lemma_tail_after_start(s, e, e);
        } else {
            lemma_no_close_after(s, start, d + 1);
        }
    }
}

/// The tail holds no sentence end: nothing in it closes a sentence, so it
/// is exactly what is still waiting for more text.
pub proof fn lemma_tail_has_no_sentence_end(s: Seq<char>)
    ensures
        forall|j: int| tail_start(s, 0, 0) <= j < s.len() ==> !closes_at(s, j),
{
    lemma_no_close_after(s, 0, 0);
    lemma_tail_after_start(s, 0, 0);
}

} // verus!
