//! Diarizer speaker labels and the rules that attach them to transcript spans.
use crate::timeline::{spec_overlap, SampleSpan};
use vstd::prelude::*;

verus! {

/// A provider-local speaker label: evidence scoped to one provider session,
/// never a durable identity.
#[derive(Debug, PartialEq, Eq, Hash)]
pub struct SpeakerLabel {
    pub provider: String,
    pub session: String,
    pub local: String,
}

pub type LabelView = (Seq<char>, Seq<char>, Seq<char>);

impl View for SpeakerLabel {
    type V = LabelView;

    open spec fn view(&self) -> LabelView {
        (self.provider@, self.session@, self.local@)
    }
}

impl Clone for SpeakerLabel {
    fn clone(&self) -> (r: Self)
        ensures
            r == *self,
    {
        SpeakerLabel {
            provider: self.provider.clone(),
            session: self.session.clone(),
            local: self.local.clone(),
        }
    }
}

impl SpeakerLabel {
    /// Whether two labels name the same provider, session and local speaker.
    pub fn same_as(&self, other: &SpeakerLabel) -> (r: bool)
        ensures
            r == (self@ == other@),
    {
        self.provider == other.provider && self.session == other.session && self.local
            == other.local
    }
}

pub open spec fn opt_label_view(l: Option<SpeakerLabel>) -> Option<LabelView> {
    match l {
        Some(l) => Some(l@),
        None => None,
    }
}

pub fn same_opt_label(a: &Option<SpeakerLabel>, b: &Option<SpeakerLabel>) -> (r: bool)
    ensures
        r == (opt_label_view(*a) == opt_label_view(*b)),
{
    match (a, b) {
        (Some(x), Some(y)) => x.same_as(y),
        (None, None) => true,
        _ => false,
    }
}

pub fn clone_opt_label(a: &Option<SpeakerLabel>) -> (r: Option<SpeakerLabel>)
    ensures
        r == *a,
{
    match a {
        Some(x) => Some(x.clone()),
        None => None,
    }
}

/// A finalized diarization turn. `overlap` marks a turn during which another
/// speaker was also talking.
#[derive(Debug)]
pub struct DiarizationSegment {
    pub label: SpeakerLabel,
    pub span: SampleSpan,
    pub overlap: bool,
}

impl Clone for DiarizationSegment {
    fn clone(&self) -> (r: Self)
        ensures
            r == *self,
    {
        DiarizationSegment { label: self.label.clone(), span: self.span, overlap: self.overlap }
    }
}

/// A segment takes part in labelling a span when it shares a sample with it.
pub open spec fn seg_matches(seg: DiarizationSegment, span: SampleSpan) -> bool {
    spec_overlap(seg.span, span) > 0
}

pub open spec fn strictly_increasing(s: Seq<u64>) -> bool {
    forall|i: int, j: int| 0 <= i < j < s.len() ==> s[i] < s[j]
}

pub open spec fn max_u64(a: u64, b: u64) -> u64 {
    if a >= b { a } else { b }
}

pub open spec fn min_u64(a: u64, b: u64) -> u64 {
    if a <= b { a } else { b }
}

/// The cut points of a span: its two ends and, for every segment sharing a
/// sample with it, that segment's ends clipped to the span.
pub open spec fn is_boundary(span: SampleSpan, segs: Seq<DiarizationSegment>, x: u64) -> bool {
    ||| x == span.start
    ||| x == span.end
    ||| exists|i: int|
        0 <= i < segs.len() && seg_matches(segs[i], span) && (x == max_u64(
            segs[i].span.start,
            span.start,
        ) || x == min_u64(segs[i].span.end, span.end))
}

/// The cut points in increasing order, each once.
pub open spec fn spec_boundaries(span: SampleSpan, segs: Seq<DiarizationSegment>) -> Seq<u64> {
    choose|b: Seq<u64>|
        strictly_increasing(b) && forall|x: u64| b.contains(x) <==> is_boundary(span, segs, x)
}

proof fn lemma_sorted_unique(a: Seq<u64>, b: Seq<u64>)
    requires
        strictly_increasing(a),
        strictly_increasing(b),
        forall|x: u64| a.contains(x) <==> b.contains(x),
    ensures
        a == b,
    decreases a.len() + b.len(),
{
    if a.len() == 0 {
        if b.len() > 0 {
            assert(b.contains(b[0]));
        }
        assert(a =~= b);
    } else if b.len() == 0 {
        assert(a.contains(a[0]));
    } else {
        assert(a.contains(a[0]));
        assert(b.contains(b[0]));
        let ia = choose|i: int| 0 <= i < a.len() && a[i] == b[0];
        let ib = choose|i: int| 0 <= i < b.len() && b[i] == a[0];
        assert(a[0] == b[0]) by {
            if a[0] < b[0] {
                assert(b[ib] == a[0]);
                if ib > 0 {
                    assert(b[0] < b[ib]);
                }
            } else if a[0] > b[0] {
                assert(a[ia] == b[0]);
                if ia > 0 {
                    assert(a[0] < a[ia]);
                }
            }
        }
        let a1 = a.drop_first();
        let b1 = b.drop_first();
        assert forall|x: u64| a1.contains(x) <==> b1.contains(x) by {
            if a1.contains(x) {
                let i = choose|i: int| 0 <= i < a1.len() && a1[i] == x;
                assert(a[i + 1] == x && a[0] < a[i + 1]);
                assert(b.contains(x));
                let j = choose|j: int| 0 <= j < b.len() && b[j] == x;
                assert(j != 0);
                assert(b1[j - 1] == x);
            }
            if b1.contains(x) {
                let i = choose|i: int| 0 <= i < b1.len() && b1[i] == x;
                assert(b[i + 1] == x && b[0] < b[i + 1]);
                assert(a.contains(x));
                let j = choose|j: int| 0 <= j < a.len() && a[j] == x;
                assert(j != 0);
                assert(a1[j - 1] == x);
            }
        }
        lemma_sorted_unique(a1, b1);
        assert(a =~= seq![a[0]] + a1);
        assert(b =~= seq![b[0]] + b1);
    }
}

/// Adds `x` to an increasing list of distinct values, keeping it so.
fn insert_sorted(v: &mut Vec<u64>, x: u64)
    requires
        strictly_increasing(old(v)@),
    ensures
        strictly_increasing(final(v)@),
        forall|y: u64| #[trigger] final(v)@.contains(y) <==> (old(v)@.contains(y) || y == x),
{
    let mut i: usize = 0;
    while i < v.len() && v[i] < x
        invariant
            v@ == old(v)@,
            strictly_increasing(v@),
            i <= v@.len(),
            forall|j: int| 0 <= j < i ==> v@[j] < x,
        decreases v@.len() - i,
    {
        i = i + 1;
    }
    if i < v.len() && v[i] == x {
        assert(v@[i as int] == x);
        return;
    }
    let ghost old_v = v@;
    v.insert(i, x);
    assert forall|y: u64| #[trigger] v@.contains(y) <==> (old_v.contains(y) || y == x) by {
        if v@.contains(y) {
            let j = choose|j: int| 0 <= j < v@.len() && v@[j] == y;
            if j < i {
                assert(old_v[j] == y);
            } else if j > i {
                assert(old_v[j - 1] == y);
            }
        }
        if old_v.contains(y) {
            let j = choose|j: int| 0 <= j < old_v.len() && old_v[j] == y;
            if j < i {
                assert(v@[j] == y);
            } else {
                assert(v@[j + 1] == y);
            }
        }
        if y == x {
            assert(v@[i as int] == x);
        }
    }
}

/// The cut points of `span`, increasing and distinct.
pub fn boundaries(span: SampleSpan, segments: &[DiarizationSegment]) -> (r: Vec<u64>)
    ensures
        r@ == spec_boundaries(span, segments@),
        strictly_increasing(r@),
        forall|x: u64| r@.contains(x) <==> is_boundary(span, segments@, x),
{
    let mut b: Vec<u64> = Vec::new();
    insert_sorted(&mut b, span.start);
    insert_sorted(&mut b, span.end);
    let mut i: usize = 0;
    while i < segments.len()
        invariant
            i <= segments@.len(),
            strictly_increasing(b@),
            forall|x: u64|
                b@.contains(x) <==> (x == span.start || x == span.end || exists|k: int|
                    0 <= k < i && seg_matches(segments@[k], span) && (x == max_u64(
                        segments@[k].span.start,
                        span.start,
                    ) || x == min_u64(segments@[k].span.end, span.end))),
        decreases segments@.len() - i,
    {
        let s = &segments[i];
        if s.span.overlap(span) > 0 {
            let lo = if s.span.start >= span.start { s.span.start } else { span.start };
            let hi = if s.span.end <= span.end { s.span.end } else { span.end };
            insert_sorted(&mut b, lo);
            insert_sorted(&mut b, hi);
        }
        i = i + 1;
    }
    proof {
        let c = spec_boundaries(span, segments@);
        assert(strictly_increasing(b@) && forall|x: u64|
            b@.contains(x) <==> is_boundary(span, segments@, x));
        lemma_sorted_unique(b@, c);
    }
    b
}

/// Whether some segment sharing a sample with `span` covers position `p`.
pub open spec fn covered_at(segs: Seq<DiarizationSegment>, span: SampleSpan, p: int) -> bool {
    exists|i: int|
        0 <= i < segs.len() && seg_matches(segs[i], span) && segs[i].span.start <= p
            < segs[i].span.end
}

/// The number of positions in `[lo, hi)` covered by segments sharing a
/// sample with `span`.
pub open spec fn count_covered(
    segs: Seq<DiarizationSegment>,
    span: SampleSpan,
    lo: int,
    hi: int,
) -> nat
    decreases hi - lo,
{
    if hi <= lo {
        0
    } else {
        count_covered(segs, span, lo, hi - 1) + (if covered_at(segs, span, hi - 1) {
            1nat
        } else {
            0nat
        })
    }
}

/// Index of the first segment sharing a sample with `span`, from `i` on.
pub open spec fn first_match_from(segs: Seq<DiarizationSegment>, span: SampleSpan, i: int) -> Option<
    int,
>
    decreases segs.len() - i,
{
    if i >= segs.len() {
        None
    } else if seg_matches(segs[i], span) {
        Some(i)
    } else {
        first_match_from(segs, span, i + 1)
    }
}

/// The label of a span: defined only when the segments that share a sample
/// with it all carry the same label, none of them was marked as overlapped
/// speech, and together they cover at least four fifths of the span.
pub open spec fn spec_label_span(span: SampleSpan, segs: Seq<DiarizationSegment>) -> Option<
    LabelView,
> {
    match first_match_from(segs, span, 0) {
        None => None,
        Some(f) => if exists|i: int|
            0 <= i < segs.len() && seg_matches(segs[i], span) && (segs[i].overlap
                || segs[i].label@ != segs[f].label@) {
            None
        } else if 5 * count_covered(segs, span, span.start as int, span.end as int) >= 4 * (
        span.end - span.start) {
            Some(segs[f].label@)
        } else {
            None
        },
    }
}

proof fn lemma_count_split(segs: Seq<DiarizationSegment>, span: SampleSpan, lo: int, mid: int, hi: int)
    requires
        lo <= mid <= hi,
    ensures
        count_covered(segs, span, lo, hi) == count_covered(segs, span, lo, mid) + count_covered(
            segs,
            span,
            mid,
            hi,
        ),
    decreases hi - mid,
{
    if hi > mid {
        lemma_count_split(segs, span, lo, mid, hi - 1);
    }
}

proof fn lemma_count_uniform(segs: Seq<DiarizationSegment>, span: SampleSpan, a: int, b: int, c: bool)
    requires
        a <= b,
        forall|p: int| a <= p < b ==> covered_at(segs, span, p) == c,
    ensures
        count_covered(segs, span, a, b) == (if c { (b - a) as nat } else { 0nat }),
    decreases b - a,
{
    if b > a {
        lemma_count_uniform(segs, span, a, b - 1, c);
    }
}

proof fn lemma_count_bound(segs: Seq<DiarizationSegment>, span: SampleSpan, a: int, b: int)
    requires
        a <= b,
    ensures
        count_covered(segs, span, a, b) <= b - a,
    decreases b - a,
{
    if b > a {
        lemma_count_bound(segs, span, a, b - 1);
    }
}

/// In a valid span the cut points run from its start to its end.
proof fn lemma_boundary_ends(span: SampleSpan, segs: Seq<DiarizationSegment>, b: Seq<u64>)
    requires
        span.start < span.end,
        strictly_increasing(b),
        forall|x: u64| b.contains(x) <==> is_boundary(span, segs, x),
    ensures
        b.len() >= 2,
        b[0] == span.start,
        b[b.len() - 1] == span.end,
        forall|i: int| 0 <= i < b.len() ==> span.start <= #[trigger] b[i] <= span.end,
{
    assert(is_boundary(span, segs, span.start));
    assert(is_boundary(span, segs, span.end));
    assert(b.contains(span.start));
    assert(b.contains(span.end));
    assert forall|i: int| 0 <= i < b.len() implies span.start <= #[trigger] b[i] <= span.end by {
        assert(b.contains(b[i]));
        assert(is_boundary(span, segs, b[i]));
    }
    let i0 = choose|i: int| 0 <= i < b.len() && b[i] == span.start;
    let i1 = choose|i: int| 0 <= i < b.len() && b[i] == span.end;
    assert(i0 != i1);
    if i0 > 0 {
        assert(b[0] < b[i0]);
    }
    if i1 < b.len() - 1 {
        assert(b[i1] < b[b.len() - 1]);
    }
}

/// No cut point lies strictly between two consecutive cut points.
proof fn lemma_no_gap(b: Seq<u64>, k: int, x: u64)
    requires
        strictly_increasing(b),
        0 <= k,
        k + 1 < b.len(),
        b.contains(x),
    ensures
        !(b[k] < x && x < b[k + 1]),
{
    let j = choose|j: int| 0 <= j < b.len() && b[j] == x;
    if j < k {
        assert(b[j] < b[k]);
    } else if j > k + 1 {
        assert(b[k + 1] < b[j]);
    }
}

/// Between two consecutive cut points coverage is all or nothing: a position
/// is covered exactly when some sharing segment spans the whole piece.
proof fn lemma_piece_uniform(
    span: SampleSpan,
    segs: Seq<DiarizationSegment>,
    b: Seq<u64>,
    k: int,
    p: int,
)
    requires
        span.start < span.end,
        strictly_increasing(b),
        forall|x: u64| b.contains(x) <==> is_boundary(span, segs, x),
        0 <= k,
        k + 1 < b.len(),
        b[k] <= p < b[k + 1],
    ensures
        covered_at(segs, span, p) <==> exists|i: int|
            0 <= i < segs.len() && seg_matches(segs[i], span) && segs[i].span.start <= b[k]
                && b[k + 1] <= segs[i].span.end,
{
    lemma_boundary_ends(span, segs, b);
    assert(span.start <= b[k]);
    assert(b[k + 1] <= span.end);
    if covered_at(segs, span, p) {
        let i = choose|i: int|
            0 <= i < segs.len() && seg_matches(segs[i], span) && segs[i].span.start <= p
                < segs[i].span.end;
        let lo = max_u64(segs[i].span.start, span.start);
        let hi = min_u64(segs[i].span.end, span.end);
        assert(is_boundary(span, segs, lo));
        assert(is_boundary(span, segs, hi));
        lemma_no_gap(b, k, lo);
        lemma_no_gap(b, k, hi);
        assert(segs[i].span.start <= b[k]);
        assert(b[k + 1] <= segs[i].span.end);
    }
}

/// Whether some segment sharing a sample with `span` spans all of `[a, c)`.
fn covers_piece(span: SampleSpan, segments: &[DiarizationSegment], a: u64, c: u64) -> (r: bool)
    ensures
        r == exists|i: int|
            0 <= i < segments@.len() && seg_matches(segments@[i], span) && segments@[i].span.start
                <= a && c <= segments@[i].span.end,
{
    let mut i: usize = 0;
    while i < segments.len()
        invariant
            i <= segments@.len(),
            forall|j: int|
                0 <= j < i ==> !(seg_matches(segments@[j], span) && segments@[j].span.start <= a
                    && c <= segments@[j].span.end),
        decreases segments@.len() - i,
    {
        let s = &segments[i];
        if s.span.overlap(span) > 0 && s.span.start <= a && c <= s.span.end {
            return true;
        }
        i = i + 1;
    }
    false
}

/// Pick a label only when one speaker covers most of the span and no
/// competing speaker overlaps it. Silence/uncovered words stay unknown.
pub fn label_span(span: SampleSpan, segments: &[DiarizationSegment]) -> (r: Option<SpeakerLabel>)
    ensures
        opt_label_view(r) == spec_label_span(span, segments@),
{
    let ghost segs = segments@;
    let mut f: usize = 0;
    while f < segments.len() && segments[f].span.overlap(span) == 0
        invariant
            f <= segs.len(),
            segs == segments@,
            first_match_from(segs, span, 0) == first_match_from(segs, span, f as int),
        decreases segs.len() - f,
    {
        f = f + 1;
    }
    if f == segments.len() {
        return None;
    }
    let first = &segments[f];
    assert(first_match_from(segs, span, 0) == Some(f as int));
    let mut i: usize = 0;
    while i < segments.len()
        invariant
            i <= segs.len(),
            segs == segments@,
            f < segs.len(),
            *first == segs[f as int],
            first_match_from(segs, span, 0) == Some(f as int),
            forall|j: int|
                0 <= j < i && seg_matches(segs[j], span) ==> !segs[j].overlap && segs[j].label@
                    == segs[f as int].label@,
        decreases segs.len() - i,
    {
        let s = &segments[i];
        assert(*s == segs[i as int]);
        assert(*first == segs[f as int]);
        if s.span.overlap(span) > 0 && (s.overlap || !s.label.same_as(&first.label)) {
            assert(seg_matches(segs[i as int], span) && (segs[i as int].overlap || segs[i as int].label@
                != segs[f as int].label@));
            return None;
        }
        i = i + 1;
    }
    assert(span.start < span.end);
    let b = boundaries(span, segments);
    proof {
        lemma_boundary_ends(span, segs, b@);
    }
    let n = b.len();
    let mut coverage: u64 = 0;
    let mut k: usize = 0;
    while k + 1 < n
        invariant
            n == b@.len(),
            n >= 2,
            k + 1 <= n,
            segs == segments@,
            span.start < span.end,
            b@ == spec_boundaries(span, segs),
            strictly_increasing(b@),
            forall|x: u64| b@.contains(x) <==> is_boundary(span, segs, x),
            b@[0] == span.start,
            forall|j: int| 0 <= j < b@.len() ==> span.start <= #[trigger] b@[j] <= span.end,
            coverage == count_covered(segs, span, span.start as int, b@[k as int] as int),
        decreases n - k,
    {
        let a = b[k];
        let c = b[k + 1];
        let cov = covers_piece(span, segments, a, c);
        proof {
            assert(b@[k as int] < b@[k + 1]);
            assert forall|p: int| a <= p < c implies covered_at(segs, span, p) == cov by {
                lemma_piece_uniform(span, segs, b@, k as int, p);
            }
            lemma_count_uniform(segs, span, a as int, c as int, cov);
            lemma_count_split(segs, span, span.start as int, a as int, c as int);
            lemma_count_bound(segs, span, span.start as int, c as int);
        }
        if cov {
            coverage = coverage + (c - a);
        }
        k = k + 1;
    }
    assert(b@[n - 1] == span.end);
    if 5 * (coverage as u128) >= 4 * ((span.end - span.start) as u128) {
        Some(first.label.clone())
    } else {
        None
    }
}

pub type PieceView = (SampleSpan, Option<LabelView>);

pub open spec fn pieces_view(v: Seq<(SampleSpan, Option<SpeakerLabel>)>) -> Seq<PieceView> {
    Seq::new(v.len(), |i: int| (v[i].0, opt_label_view(v[i].1)))
}

/// The pieces between the first `k + 1` cut points, each labelled on its
/// own, with neighbours that carry the same label joined into one piece.
pub open spec fn merged_pieces(b: Seq<u64>, segs: Seq<DiarizationSegment>, k: nat) -> Seq<
    PieceView,
>
    decreases k,
{
    if k == 0 {
        Seq::empty()
    } else {
        let prev = merged_pieces(b, segs, (k - 1) as nat);
        let piece = SampleSpan { start: b[k - 1], end: b[k as int] };
        let lab = spec_label_span(piece, segs);
        if prev.len() > 0 && prev.last().1 == lab {
            prev.update(
                prev.len() - 1,
                (SampleSpan { start: prev.last().0.start, end: piece.end }, lab),
            )
        } else {
            prev.push((piece, lab))
        }
    }
}

/// The annotation of a multi-speaker transcript span: the whole span when it
/// has a label of its own; otherwise its pieces between cut points, merged
/// while the label stays the same; a single unlabelled span when that yields
/// more than eight pieces.
pub open spec fn spec_split_speaker_span(span: SampleSpan, segs: Seq<DiarizationSegment>) -> Seq<
    PieceView,
> {
    match spec_label_span(span, segs) {
        Some(l) => seq![(span, Some(l))],
        None => {
            let b = spec_boundaries(span, segs);
            let m = merged_pieces(b, segs, (b.len() - 1) as nat);
            if m.len() > 8 {
                seq![(span, None::<LabelView>)]
            } else {
                m
            }
        },
    }
}

/// Partition a multi-speaker transcript by finalized diarization boundaries.
/// The text remains one utterance; annotations identify its audio ranges.
pub fn split_speaker_span(span: SampleSpan, segments: &[DiarizationSegment]) -> (r: Vec<
    (SampleSpan, Option<SpeakerLabel>),
>)
    ensures
        pieces_view(r@) == spec_split_speaker_span(span, segments@),
{
    let whole = label_span(span, segments);
    if whole.is_some() {
        let mut one: Vec<(SampleSpan, Option<SpeakerLabel>)> = Vec::new();
        one.push((span, whole));
        assert(pieces_view(one@) =~= spec_split_speaker_span(span, segments@));
        return one;
    }
    let b = boundaries(span, segments);
    assert(b@.contains(span.start)) by {
        assert(is_boundary(span, segments@, span.start));
    }
    let n = b.len();
    let mut result: Vec<(SampleSpan, Option<SpeakerLabel>)> = Vec::new();
    let mut k: usize = 1;
    while k < n
        invariant
            1 <= k <= n,
            n == b@.len(),
            b@ == spec_boundaries(span, segments@),
            pieces_view(result@) == merged_pieces(b@, segments@, (k - 1) as nat),
        decreases n - k,
    {
        let piece = SampleSpan { start: b[k - 1], end: b[k] };
        let label = label_span(piece, segments);
        let ghost prev = pieces_view(result@);
        let rl = result.len();
        if rl > 0 && same_opt_label(&result[rl - 1].1, &label) {
            let last = result.pop().unwrap();
            result.push((SampleSpan { start: last.0.start, end: piece.end }, label));
            assert(pieces_view(result@) =~= merged_pieces(b@, segments@, k as nat));
        } else {
            result.push((piece, label));
            assert(pieces_view(result@) =~= merged_pieces(b@, segments@, k as nat));
        }
        k = k + 1;
    }
    if result.len() > 8 {
        let mut one: Vec<(SampleSpan, Option<SpeakerLabel>)> = Vec::new();
        one.push((span, None));
        assert(pieces_view(one@) =~= spec_split_speaker_span(span, segments@));
        one
    } else {
        result
    }
}

spec fn spec_insert(s: Seq<u64>, x: u64) -> Seq<u64>
    decreases s.len(),
{
    if s.len() == 0 {
        seq![x]
    } else if x < s[0] {
        seq![x] + s
    } else if x == s[0] {
        s
    } else {
        seq![s[0]] + spec_insert(s.drop_first(), x)
    }
}

proof fn lemma_spec_insert(s: Seq<u64>, x: u64)
    requires
        strictly_increasing(s),
    ensures
        strictly_increasing(spec_insert(s, x)),
        forall|y: u64| #[trigger] spec_insert(s, x).contains(y) <==> (s.contains(y) || y == x),
    decreases s.len(),
{
    let r = spec_insert(s, x);
    if s.len() == 0 {
        assert forall|y: u64| #[trigger] r.contains(y) <==> (s.contains(y) || y == x) by {
            if y == x {
                assert(r[0] == x);
            }
        }
    } else if x < s[0] {
        assert forall|y: u64| #[trigger] r.contains(y) <==> (s.contains(y) || y == x) by {
            if r.contains(y) {
                let j = choose|j: int| 0 <= j < r.len() && r[j] == y;
                if j > 0 {
                    assert(s[j - 1] == y);
                }
            }
            if s.contains(y) {
                let j = choose|j: int| 0 <= j < s.len() && s[j] == y;
                assert(r[j + 1] == y);
            }
            if y == x {
                assert(r[0] == x);
            }
        }
        assert forall|i: int, j: int| 0 <= i < j < r.len() implies r[i] < r[j] by {
            if i > 0 {
                assert(s[i - 1] < s[j - 1]);
            } else if j > 1 {
                assert(s[0] < s[j - 1]);
            }
        }
    } else if x == s[0] {
        assert forall|y: u64| #[trigger] r.contains(y) <==> (s.contains(y) || y == x) by {
            if y == x {
                assert(s[0] == x);
            }
        }
    } else {
        let t = s.drop_first();
        assert(strictly_increasing(t)) by {
            assert forall|i: int, j: int| 0 <= i < j < t.len() implies t[i] < t[j] by {
                assert(s[i + 1] < s[j + 1]);
            }
        }
        lemma_spec_insert(t, x);
        let u = spec_insert(t, x);
        assert(r == seq![s[0]] + u);
        assert forall|y: u64| #[trigger] r.contains(y) <==> (s.contains(y) || y == x) by {
            if r.contains(y) {
                let j = choose|j: int| 0 <= j < r.len() && r[j] == y;
                if j == 0 {
                    assert(s[0] == y);
                } else {
                    assert(u[j - 1] == y);
                    assert(u.contains(y));
                    if t.contains(y) {
                        let k = choose|k: int| 0 <= k < t.len() && t[k] == y;
                        assert(s[k + 1] == y);
                    }
                }
            }
            if s.contains(y) {
                let j = choose|j: int| 0 <= j < s.len() && s[j] == y;
                if j == 0 {
                    assert(r[0] == y);
                } else {
                    assert(t[j - 1] == y);
                    assert(u.contains(y));
                    let k = choose|k: int| 0 <= k < u.len() && u[k] == y;
                    assert(r[k + 1] == y);
                }
            }
            if y == x {
                assert(u.contains(x));
                let k = choose|k: int| 0 <= k < u.len() && u[k] == x;
                assert(r[k + 1] == x);
            }
        }
        assert forall|i: int, j: int| 0 <= i < j < r.len() implies r[i] < r[j] by {
            if i > 0 {
                assert(r[i] == u[i - 1] && r[j] == u[j - 1]);
            } else {
                assert(r[j] == u[j - 1]);
                assert(u.contains(u[j - 1]));
                if t.contains(u[j - 1]) {
                    let k = choose|k: int| 0 <= k < t.len() && t[k] == u[j - 1];
                    assert(s[0] < s[k + 1]);
                }
            }
        }
    }
}

spec fn build_boundaries(span: SampleSpan, segs: Seq<DiarizationSegment>, i: int) -> Seq<u64>
    decreases i,
{
    if i <= 0 {
        spec_insert(seq![span.start], span.end)
    } else {
        let prev = build_boundaries(span, segs, i - 1);
        if seg_matches(segs[i - 1], span) {
            spec_insert(
                spec_insert(prev, max_u64(segs[i - 1].span.start, span.start)),
                min_u64(segs[i - 1].span.end, span.end),
            )
        } else {
            prev
        }
    }
}

proof fn lemma_build_boundaries(span: SampleSpan, segs: Seq<DiarizationSegment>, i: int)
    requires
        0 <= i <= segs.len(),
    ensures
        strictly_increasing(build_boundaries(span, segs, i)),
        forall|x: u64|
            #[trigger] build_boundaries(span, segs, i).contains(x) <==> (x == span.start || x
                == span.end || exists|k: int|
                0 <= k < i && seg_matches(segs[k], span) && (x == max_u64(
                    segs[k].span.start,
                    span.start,
                ) || x == min_u64(segs[k].span.end, span.end))),
    decreases i,
{
    if i == 0 {
        let one = seq![span.start];
        assert(one[0] == span.start);
        assert(one.contains(span.start));
        lemma_spec_insert(one, span.end);
        assert forall|x: u64| #[trigger] one.contains(x) <==> x == span.start by {
            if one.contains(x) {
                let j = choose|j: int| 0 <= j < one.len() && one[j] == x;
            }
        }
    } else {
        lemma_build_boundaries(span, segs, i - 1);
        let prev = build_boundaries(span, segs, i - 1);
        if seg_matches(segs[i - 1], span) {
            let lo = max_u64(segs[i - 1].span.start, span.start);
            let hi = min_u64(segs[i - 1].span.end, span.end);
            lemma_spec_insert(prev, lo);
            lemma_spec_insert(spec_insert(prev, lo), hi);
        }
        let cur = build_boundaries(span, segs, i);
        assert forall|x: u64| #[trigger] cur.contains(x) <==> (x == span.start || x == span.end
            || exists|k: int|
            0 <= k < i && seg_matches(segs[k], span) && (x == max_u64(
                segs[k].span.start,
                span.start,
            ) || x == min_u64(segs[k].span.end, span.end))) by {
            if exists|k: int|
                0 <= k < i && seg_matches(segs[k], span) && (x == max_u64(
                    segs[k].span.start,
                    span.start,
                ) || x == min_u64(segs[k].span.end, span.end)) {
                let k = choose|k: int|
                    0 <= k < i && seg_matches(segs[k], span) && (x == max_u64(
                        segs[k].span.start,
                        span.start,
                    ) || x == min_u64(segs[k].span.end, span.end));
                if k < i - 1 {
                    assert(prev.contains(x));
                }
            }
        }
    }
}

/// Every span has an increasing, duplicate-free list of its cut points.
proof fn lemma_boundary_set_exists(span: SampleSpan, segs: Seq<DiarizationSegment>)
    ensures
        strictly_increasing(spec_boundaries(span, segs)),
        forall|x: u64|
            spec_boundaries(span, segs).contains(x) <==> is_boundary(span, segs, x),
{
    let c = build_boundaries(span, segs, segs.len() as int);
    lemma_build_boundaries(span, segs, segs.len() as int);
    assert(forall|x: u64| c.contains(x) <==> is_boundary(span, segs, x));
}

/// Mixed or overlapping speakers never receive one label: when a span gets
/// a label, every segment sharing a sample with it carries that label and
/// none of them was marked as overlapped speech.
pub proof fn lemma_label_is_unanimous(span: SampleSpan, segs: Seq<DiarizationSegment>, i: int)
    requires
        spec_label_span(span, segs) is Some,
        0 <= i < segs.len(),
        seg_matches(segs[i], span),
    ensures
        !segs[i].overlap,
        Some(segs[i].label@) == spec_label_span(span, segs),
{
}

proof fn lemma_merged_shape(b: Seq<u64>, segs: Seq<DiarizationSegment>, k: nat)
    requires
        strictly_increasing(b),
        1 <= k < b.len(),
    ensures
        ({
            let m = merged_pieces(b, segs, k);
            &&& 1 <= m.len() <= k
            &&& m[0].0.start == b[0]
            &&& m.last().0.end == b[k as int]
            &&& forall|i: int| 0 <= i < m.len() ==> #[trigger] m[i].0.start < m[i].0.end
            &&& forall|i: int| 0 <= i < m.len() - 1 ==> #[trigger] m[i].0.end == m[i + 1].0.start
            &&& forall|i: int| 0 <= i < m.len() - 1 ==> #[trigger] m[i].1 != m[i + 1].1
        }),
    decreases k,
{
    if k > 1 {
        lemma_merged_shape(b, segs, (k - 1) as nat);
    }
    let prev = merged_pieces(b, segs, (k - 1) as nat);
    let m = merged_pieces(b, segs, k);
    assert(b[k - 1] < b[k as int]);
    if k > 1 {
        assert(prev.last().0.end == b[k - 1]);
        let lab = spec_label_span(SampleSpan { start: b[k - 1], end: b[k as int] }, segs);
        if prev.last().1 == lab {
            assert forall|i: int| 0 <= i < m.len() - 1 implies #[trigger] m[i].0.end == m[i
                + 1].0.start by {
                if i < m.len() - 2 {
                    assert(m[i] == prev[i] && m[i + 1] == prev[i + 1]);
                }
            }
            assert forall|i: int| 0 <= i < m.len() - 1 implies #[trigger] m[i].1 != m[i + 1].1 by {
                if i < m.len() - 2 {
                    assert(m[i] == prev[i] && m[i + 1] == prev[i + 1]);
                } else {
                    assert(m[i] == prev[i]);
                }
            }
            assert forall|i: int| 0 <= i < m.len() implies #[trigger] m[i].0.start < m[i].0.end by {
                if i < m.len() - 1 {
                    assert(m[i] == prev[i]);
                } else {
                    assert(prev[i].0.start < prev[i].0.end);
                }
            }
        } else {
            assert forall|i: int| 0 <= i < m.len() - 1 implies #[trigger] m[i].0.end == m[i
                + 1].0.start by {
                if i < m.len() - 2 {
                    assert(m[i] == prev[i] && m[i + 1] == prev[i + 1]);
                }
            }
            assert forall|i: int| 0 <= i < m.len() - 1 implies #[trigger] m[i].1 != m[i + 1].1 by {
                if i < m.len() - 2 {
                    assert(m[i] == prev[i] && m[i + 1] == prev[i + 1]);
                }
            }
            assert forall|i: int| 0 <= i < m.len() implies #[trigger] m[i].0.start < m[i].0.end by {
                if i < m.len() - 1 {
                    assert(m[i] == prev[i]);
                }
            }
        }
    }
}

/// The annotation of a valid span partitions it: at most eight non-empty
/// pieces that follow one another without gap from the span's start to its
/// end, and no two neighbouring pieces carry the same label.
pub proof fn lemma_split_partitions_span(span: SampleSpan, segs: Seq<DiarizationSegment>)
    requires
        span.start < span.end,
    ensures
        ({
            let r = spec_split_speaker_span(span, segs);
            &&& 1 <= r.len() <= 8
            &&& r[0].0.start == span.start
            &&& r.last().0.end == span.end
            &&& forall|i: int| 0 <= i < r.len() ==> #[trigger] r[i].0.start < r[i].0.end
            &&& forall|i: int| 0 <= i < r.len() - 1 ==> #[trigger] r[i].0.end == r[i + 1].0.start
            &&& forall|i: int| 0 <= i < r.len() - 1 ==> #[trigger] r[i].1 != r[i + 1].1
        }),
{
    if spec_label_span(span, segs) is None {
        let b = spec_boundaries(span, segs);
        lemma_boundary_set_exists(span, segs);
        lemma_boundary_ends(span, segs, b);
        lemma_merged_shape(b, segs, (b.len() - 1) as nat);
    }
}

/// The positions of `[lo, hi)` that a segment sharing a sample with `span`
/// covers.
pub open spec fn covered_positions(
    segs: Seq<DiarizationSegment>,
    span: SampleSpan,
    lo: int,
    hi: int,
) -> Set<int> {
    Set::new(
        |p: int|
            lo <= p < hi && exists|i: int|
                0 <= i < segs.len() && spec_overlap(segs[i].span, span) > 0 && segs[i].span.start
                    <= p < segs[i].span.end,
    )
}

proof fn lemma_count_is_cardinality(
    segs: Seq<DiarizationSegment>,
    span: SampleSpan,
    lo: int,
    hi: int,
)
    ensures
        covered_positions(segs, span, lo, hi).finite(),
        count_covered(segs, span, lo, hi) == covered_positions(segs, span, lo, hi).len(),
    decreases hi - lo,
{
    let c = covered_positions(segs, span, lo, hi);
    if hi <= lo {
        assert(c =~= Set::<int>::empty());
    } else {
        lemma_count_is_cardinality(segs, span, lo, hi - 1);
        let b = covered_positions(segs, span, lo, hi - 1);
        if covered_at(segs, span, hi - 1) {
            assert(c =~= b.insert(hi - 1));
            assert(!b.contains(hi - 1));
        } else {
            assert(c =~= b);
        }
    }
}

proof fn lemma_first_match(segs: Seq<DiarizationSegment>, span: SampleSpan, i: int)
    requires
        0 <= i,
    ensures
        match first_match_from(segs, span, i) {
            Some(f) => i <= f < segs.len() && seg_matches(segs[f], span),
            None => forall|j: int| i <= j < segs.len() ==> !seg_matches(#[trigger] segs[j], span),
        },
    decreases segs.len() - i,
{
    if i < segs.len() && !seg_matches(segs[i], span) {
        lemma_first_match(segs, span, i + 1);
    }
}

/// A span gets a speaker's label exactly when some segment shares a sample
/// with it, every such segment carries that label and none of them was
/// marked as overlapped speech, and together they cover at least four
/// fifths of the span's samples.
pub proof fn lemma_label_needs_coverage(span: SampleSpan, segs: Seq<DiarizationSegment>, l: LabelView)
    ensures
        spec_label_span(span, segs) == Some(l) <==> {
            &&& exists|i: int|
                0 <= i < segs.len() && spec_overlap(segs[i].span, span) > 0 && segs[i].label@ == l
            &&& forall|i: int|
                0 <= i < segs.len() && spec_overlap(segs[i].span, span) > 0 ==> !segs[i].overlap
                    && segs[i].label@ == l
            &&& 5 * covered_positions(segs, span, span.start as int, span.end as int).len() >= 4 * (
            span.end - span.start)
        },
{
    lemma_count_is_cardinality(segs, span, span.start as int, span.end as int);
    lemma_first_match(segs, span, 0);
}

} // verus!

