//! The live diarizer's turn protocol: speaker start and end events become
//! finalized, session-scoped diarization segments.
use crate::diarization::{DiarizationSegment, LabelView, SpeakerLabel};
use crate::keyed::{key_get, lemma_key_get_found, lemma_key_get_push, lemma_key_get_remove, unique_keys};
use crate::timeline::{AudioFrame, SampleSpan};
use std::collections::VecDeque;
use vstd::prelude::*;

verus! {

broadcast use vstd::std_specs::vecdeque::group_vec_dequeue_axioms;

/// At most this many speakers may be talking at once.
pub const MAX_OPEN_SPEAKERS: usize = 8;

/// A protocol event of the live diarizer, with its time already placed on
/// the source timeline as a sample position.
#[derive(Debug)]
pub enum LiveEvent {
    /// `speaker` started talking.
    Start { speaker: String, at: u64 },
    /// `speaker` stopped talking.
    End { speaker: String, at: u64 },
    /// The service reported a protocol error.
    Error,
    /// Anything else; ignored.
    Other,
}

/// Why a live event was refused.
#[derive(Clone, Copy, Debug, PartialEq, Eq, Structural)]
pub enum LiveError {
    /// A start while too many speakers talk, or for a speaker already talking.
    InvalidStart,
    /// An end for a speaker that is not talking.
    EndWithoutStart,
    /// An end that is not after its start.
    InvalidSpan,
    /// The service reported an error.
    ProtocolError,
}

/// The open turns: speaker, start position, and whether someone else
/// talked during the turn so far.
pub type OpenView = Seq<(Seq<char>, (u64, bool))>;

pub type SegmentView = (LabelView, SampleSpan, bool);

pub open spec fn live_provider() -> Seq<char> {
    "pyannote-live-1"@
}

pub open spec fn segment_view(s: DiarizationSegment) -> SegmentView {
    (s.label@, s.span, s.overlap)
}

pub open spec fn taint_all(s: OpenView) -> OpenView {
    s.map_values(|e: (Seq<char>, (u64, bool))| (e.0, (e.1.0, true)))
}

/// Position of the open turn of `k`.
pub open spec fn key_index(s: OpenView, k: Seq<char>) -> int
    decreases s.len(),
{
    if s.len() == 0 {
        -1
    } else if s[0].0 == k {
        0
    } else {
        let r = key_index(s.drop_first(), k);
        if r < 0 {
            -1
        } else {
            r + 1
        }
    }
}

/// One protocol event: a start opens a turn (marking every open turn, and
/// the new one if others are open, as overlapped); an end closes the
/// speaker's turn into a segment labelled with the provider, the live
/// session and the speaker.
pub open spec fn spec_live_event(open: OpenView, ev: LiveEvent, session: Seq<char>) -> (
    OpenView,
    Result<Option<SegmentView>, LiveError>,
) {
    match ev {
        LiveEvent::Start { speaker, at } => if open.len() < MAX_OPEN_SPEAKERS && key_get(
            open,
            speaker@,
        ) is None {
            (taint_all(open).push((speaker@, (at, open.len() > 0))), Ok(None))
        } else {
            (open, Err(LiveError::InvalidStart))
        },
        LiveEvent::End { speaker, at } => match key_get(open, speaker@) {
            None => (open, Err(LiveError::EndWithoutStart)),
            Some((start, overlap)) => {
                let rest = open.remove(key_index(open, speaker@));
                if start < at {
                    (
                        rest,
                        Ok(
                            Some(
                                (
                                    (live_provider(), session, speaker@),
                                    SampleSpan { start, end: at },
                                    overlap,
                                ),
                            ),
                        ),
                    )
                } else {
                    (rest, Err(LiveError::InvalidSpan))
                }
            },
        },
        LiveEvent::Error => (open, Err(LiveError::ProtocolError)),
        LiveEvent::Other => (open, Ok(None)),
    }
}

proof fn lemma_key_index(s: OpenView, k: Seq<char>)
    ensures
        key_get(s, k) is None <==> key_index(s, k) < 0,
        key_index(s, k) >= 0 ==> key_index(s, k) < s.len() && s[key_index(s, k)].0 == k
            && key_get(s, k) == Some(s[key_index(s, k)].1),
    decreases s.len(),
{
    if s.len() > 0 && s[0].0 != k {
        lemma_key_index(s.drop_first(), k);
    }
}

/// The speakers of one live session who are talking now.
pub struct LiveTurns {
    open: Vec<(String, (u64, bool))>,
}

impl View for LiveTurns {
    type V = OpenView;

    closed spec fn view(&self) -> OpenView {
        self.open@.map_values(|e: (String, (u64, bool))| (e.0@, e.1))
    }
}

impl LiveTurns {
    pub closed spec fn wf(&self) -> bool {
        &&& unique_keys(self@)
        &&& self@.len() <= MAX_OPEN_SPEAKERS
    }

    /// At most `MAX_OPEN_SPEAKERS` turns are open, one per speaker.
    pub proof fn lemma_bounds(&self)
        requires
            self.wf(),
        ensures
            self@.len() <= MAX_OPEN_SPEAKERS,
            unique_keys(self@),
    {
    }

    pub fn new() -> (r: LiveTurns)
        ensures
            r.wf(),
            r@ == Seq::<(Seq<char>, (u64, bool))>::empty(),
    {
        let r = LiveTurns { open: Vec::new() };
        assert(r@ =~= Seq::<(Seq<char>, (u64, bool))>::empty());
        r
    }

    fn index_of(&self, speaker: &String) -> (r: Option<usize>)
        ensures
            match r {
                Some(i) => i == key_index(self@, speaker@) && i < self@.len(),
                None => key_index(self@, speaker@) < 0,
            },
    {
        let mut i: usize = 0;
        assert(self@.skip(0) =~= self@);
        while i < self.open.len()
            invariant
                i <= self.open@.len() == self@.len(),
                key_index(self@, speaker@) == if key_index(self@.skip(i as int), speaker@) < 0 {
                    -1
                } else {
                    key_index(self@.skip(i as int), speaker@) + i
                },
            decreases self.open@.len() - i,
        {
            let ghost rest = self@.skip(i as int);
            assert(rest[0] == self@[i as int]);
            assert(rest.drop_first() =~= self@.skip(i + 1));
            if self.open[i].0 == *speaker {
                return Some(i);
            }
            i = i + 1;
        }
        assert(self@.skip(i as int).len() == 0);
        None
    }

    fn taint(&mut self)
        requires
            old(self).wf(),
        ensures
            final(self).wf(),
            final(self)@ == taint_all(old(self)@),
    {
        let ghost before = self@;
        let mut i: usize = 0;
        assert(forall|j: int| 0 <= j < before.len() ==> before[j] == (self.open@[j].0@, self.open@[j].1));
        while i < self.open.len()
            invariant
                i <= self.open@.len() == before.len(),
                unique_keys(before),
                before.len() <= MAX_OPEN_SPEAKERS,
                forall|j: int|
                    0 <= j < i ==> (#[trigger] self.open@[j]).0@ == before[j].0 && self.open@[j].1
                        == (before[j].1.0, true),
                forall|j: int|
                    i <= j < before.len() ==> (#[trigger] self.open@[j]).0@ == before[j].0
                        && self.open@[j].1 == before[j].1,
            decreases self.open@.len() - i,
        {
            let e = (self.open[i].0.clone(), (self.open[i].1.0, true));
            self.open.set(i, e);
            i = i + 1;
        }
        assert(self@ =~= taint_all(before)) by {
            assert forall|j: int| 0 <= j < self@.len() implies self@[j] == taint_all(before)[j] by {
                assert(self@[j] == (self.open@[j].0@, self.open@[j].1));
            }
        }
        assert(unique_keys(self@)) by {
            assert forall|a: int, b: int| 0 <= a < b < self@.len() implies self@[a].0
                != self@[b].0 by {
                assert(self@[a].0 == before[a].0);
                assert(self@[b].0 == before[b].0);
            }
        }
    }

    /// Applies one protocol event of session `session`.
    pub fn event(&mut self, ev: LiveEvent, session: &String) -> (r: Result<
        Option<DiarizationSegment>,
        LiveError,
    >)
        requires
            old(self).wf(),
        ensures
            final(self).wf(),
            ({
                let (open, res) = spec_live_event(old(self)@, ev, session@);
                &&& final(self)@ == open
                &&& match (r, res) {
                    (Ok(Some(s)), Ok(Some(v))) => segment_view(s) == v,
                    (Ok(None), Ok(None)) => true,
                    (Err(e), Err(f)) => e == f,
                    _ => false,
                }
            }),
    {
        match ev {
            LiveEvent::Start { speaker, at } => {
                let found = self.index_of(&speaker);
                proof {
                    lemma_key_index(self@, speaker@);
                }
                if !(self.open.len() < MAX_OPEN_SPEAKERS && found.is_none()) {
                    return Err(LiveError::InvalidStart);
                }
                let overlap = self.open.len() > 0;
                self.taint();
                let ghost tainted = self@;
                let ghost k = speaker@;
                self.open.push((speaker, (at, overlap)));
                proof {
                    assert(self@ =~= tainted.push((k, (at, overlap))));
                    lemma_key_get_found(old(self)@, k);
                    assert forall|a: int, b: int| 0 <= a < b < self@.len() implies self@[a].0
                        != self@[b].0 by {
                        if b == tainted.len() {
                            assert(tainted[a].0 == old(self)@[a].0);
                        }
                    }
                }
                Ok(None)
            },
            LiveEvent::End { speaker, at } => {
                proof {
                    lemma_key_index(self@, speaker@);
                }
                match self.index_of(&speaker) {
                    None => Err(LiveError::EndWithoutStart),
                    Some(i) => {
                        let ghost before = self@;
                        let (_, (start, overlap)) = self.open.remove(i);
                        proof {
                            assert(self@ =~= before.remove(i as int));
                            lemma_key_get_remove(before, i as int, speaker@);
                        }
                        if start < at {
                            let provider = String::from_str("pyannote-live-1");
                            let label = SpeakerLabel {
                                provider,
                                session: session.clone(),
                                local: speaker,
                            };
                            Ok(
                                Some(
                                    DiarizationSegment {
                                        label,
                                        span: SampleSpan { start, end: at },
                                        overlap,
                                    },
                                ),
                            )
                        } else {
                            Err(LiveError::InvalidSpan)
                        }
                    },
                }
            },
            LiveEvent::Error => Err(LiveError::ProtocolError),
            LiveEvent::Other => Ok(None),
        }
    }
}

proof fn lemma_key_get_taint(s: OpenView, k: Seq<char>)
    ensures
        key_get(taint_all(s), k) == (match key_get(s, k) {
            Some((a, _)) => Some((a, true)),
            None => None,
        }),
    decreases s.len(),
{
    if s.len() > 0 {
        assert(taint_all(s).drop_first() =~= taint_all(s.drop_first()));
        lemma_key_get_taint(s.drop_first(), k);
    }
}

/// Overlap is marked: when a speaker starts while another is talking, the
/// other's turn becomes overlapped and keeps its start, the new turn is
/// overlapped too, and when the other ends, its segment says so.
pub proof fn lemma_overlap_is_marked(
    v: OpenView,
    a: Seq<char>,
    b: String,
    at: u64,
    a_end: String,
    end: u64,
    session: Seq<char>,
)
    requires
        unique_keys(v),
        v.len() < MAX_OPEN_SPEAKERS,
        key_get(v, a) is Some,
        key_get(v, b@) is None,
        a_end@ == a,
        key_get(v, a).unwrap().0 < end,
    ensures
        ({
            let (v1, r1) = spec_live_event(v, LiveEvent::Start { speaker: b, at }, session);
            let (v2, r2) = spec_live_event(v1, LiveEvent::End { speaker: a_end, at: end }, session);
            &&& r1 == Ok::<Option<SegmentView>, LiveError>(None)
            &&& key_get(v1, b@) == Some((at, true))
            &&& r2 == Ok::<Option<SegmentView>, LiveError>(
                Some(
                    (
                        (live_provider(), session, a),
                        SampleSpan { start: key_get(v, a).unwrap().0, end },
                        true,
                    ),
                ),
            )
        }),
{
    let t = taint_all(v);
    let v1 = t.push((b@, (at, v.len() > 0)));
    lemma_key_get_found(v, a);
    lemma_key_get_taint(v, a);
    lemma_key_get_taint(v, b@);
    lemma_key_get_push(t, (b@, (at, v.len() > 0)), a);
    lemma_key_get_push(t, (b@, (at, v.len() > 0)), b@);
    lemma_key_index(v1, a);
}

/// Bytes of PCM16 sent per chunk: 100 ms at 16 kHz.
pub const LIVE_CHUNK_BYTES: usize = 3200;

/// Samples per chunk.
pub const LIVE_CHUNK_SAMPLES: u64 = 1600;

/// Audio is read from the source only while less than this many bytes
/// (four seconds) wait to be sent.
pub const LIVE_BUFFER_BYTES: usize = 128000;

/// The longest frame accepted: one second of PCM16.
pub const LIVE_FRAME_BYTES: usize = 32000;

/// Why audio was refused by a live session.
#[derive(Clone, Copy, Debug, PartialEq, Eq, Structural)]
pub enum PaceError {
    /// The first frame is empty, longer than a second, or has an odd byte.
    InvalidFirstFrame,
    /// A frame does not continue the previous one, or has an odd byte; a
    /// new session must be started.
    Discontinuity,
    /// A frame is longer than a second.
    FrameTooLong,
}

pub struct PacerView {
    pub origin: u64,
    pub expected: u64,
    pub buffered: Seq<u8>,
    pub sent: u64,
    pub valid_sent: u64,
    pub ending: bool,
}

/// The next chunk: the first `min(len, 3200)` buffered bytes, padded with
/// zeros to a full chunk.
pub open spec fn chunk_of(buffered: Seq<u8>) -> Seq<u8> {
    let valid = if buffered.len() < LIVE_CHUNK_BYTES {
        buffered.len() as int
    } else {
        LIVE_CHUNK_BYTES as int
    };
    buffered.take(valid) + Seq::new((LIVE_CHUNK_BYTES - valid) as nat, |i: int| 0u8)
}

/// Whether a chunk is due: a full chunk is buffered, or the input has
/// ended and something is left.
pub open spec fn chunk_due(v: PacerView) -> bool {
    v.buffered.len() >= LIVE_CHUNK_BYTES || (v.ending && v.buffered.len() > 0)
}

/// Paces one live session's audio: frames must continue each other, are
/// buffered up to a bound, and leave in fixed 100 ms chunks; the last
/// chunk is padded with silence. It counts the samples sent, padding
/// included, and the real samples among them.
pub struct LivePacer {
    origin: u64,
    expected: u64,
    buffered: VecDeque<u8>,
    sent: u64,
    valid_sent: u64,
    ending: bool,
}

impl View for LivePacer {
    type V = PacerView;

    closed spec fn view(&self) -> PacerView {
        PacerView {
            origin: self.origin,
            expected: self.expected,
            buffered: self.buffered@,
            sent: self.sent,
            valid_sent: self.valid_sent,
            ending: self.ending,
        }
    }
}

impl LivePacer {
    /// Starts a session at the first frame.
    pub fn new(first: &AudioFrame) -> (r: Result<LivePacer, PaceError>)
        requires
            first.spec_end() <= u64::MAX,
        ensures
            match r {
                Ok(p) => first.pcm16@.len() > 0 && first.pcm16@.len() <= LIVE_FRAME_BYTES
                    && first.pcm16@.len() % 2 == 0 && p@ == (PacerView {
                    origin: first.start_sample,
                    expected: first.spec_end() as u64,
                    buffered: first.pcm16@,
                    sent: 0,
                    valid_sent: 0,
                    ending: false,
                }),
                Err(e) => e == PaceError::InvalidFirstFrame && !(first.pcm16@.len() > 0
                    && first.pcm16@.len() <= LIVE_FRAME_BYTES && first.pcm16@.len() % 2 == 0),
            },
    {
        let n = first.pcm16.len();
        if !(n > 0 && n <= LIVE_FRAME_BYTES && n % 2 == 0) {
            return Err(PaceError::InvalidFirstFrame);
        }
        let mut p = LivePacer {
            origin: first.start_sample,
            expected: first.end_sample(),
            buffered: VecDeque::new(),
            sent: 0,
            valid_sent: 0,
            ending: false,
        };
        p.extend(&first.pcm16);
        Ok(p)
    }

    fn extend(&mut self, bytes: &Vec<u8>)
        ensures
            final(self)@ == (PacerView { buffered: old(self)@.buffered + bytes@, ..old(self)@ }),
    {
        let mut i: usize = 0;
        while i < bytes.len()
            invariant
                i <= bytes@.len(),
                self@ == (PacerView {
                    buffered: old(self)@.buffered + bytes@.take(i as int),
                    ..old(self)@
                }),
            decreases bytes@.len() - i,
        {
            self.buffered.push_back(bytes[i]);
            assert(old(self)@.buffered + bytes@.take(i + 1) =~= (old(self)@.buffered + bytes@.take(
                i as int,
            )).push(bytes@[i as int]));
            i = i + 1;
        }
        assert(bytes@.take(i as int) =~= bytes@);
    }

    /// Whether the session reads more audio: the input has not ended and
    /// less than four seconds wait to be sent.
    pub fn wants_audio(&self) -> (r: bool)
        ensures
            r == (!self@.ending && self@.buffered.len() < LIVE_BUFFER_BYTES),
    {
        !self.ending && self.buffered.len() < LIVE_BUFFER_BYTES
    }

    /// Takes the next frame of the source.
    pub fn accept(&mut self, frame: &AudioFrame) -> (r: Result<(), PaceError>)
        requires
            frame.spec_end() <= u64::MAX,
        ensures
            match r {
                Ok(()) => frame.start_sample == old(self)@.expected && frame.pcm16@.len() % 2
                    == 0 && frame.pcm16@.len() <= LIVE_FRAME_BYTES && final(self)@ == (PacerView {
                    expected: frame.spec_end() as u64,
                    buffered: old(self)@.buffered + frame.pcm16@,
                    ..old(self)@
                }),
                Err(e) => final(self)@ == old(self)@ && if !(frame.start_sample
                    == old(self)@.expected && frame.pcm16@.len() % 2 == 0) {
                    e == PaceError::Discontinuity
                } else {
                    e == PaceError::FrameTooLong && frame.pcm16@.len() > LIVE_FRAME_BYTES
                },
            },
    {
        if !(frame.start_sample == self.expected && frame.pcm16.len() % 2 == 0) {
            return Err(PaceError::Discontinuity);
        }
        if frame.pcm16.len() > LIVE_FRAME_BYTES {
            return Err(PaceError::FrameTooLong);
        }
        self.expected = frame.end_sample();
        self.extend(&frame.pcm16);
        Ok(())
    }

    /// The source has ended (or the session was cancelled): what is
    /// buffered is still sent.
    pub fn finish_input(&mut self)
        ensures
            final(self)@ == (PacerView { ending: true, ..old(self)@ }),
    {
        self.ending = true;
    }

    /// Whether the input has ended and everything has been sent.
    pub fn drained(&self) -> (r: bool)
        ensures
            r == (self@.ending && self@.buffered.len() == 0),
    {
        self.ending && self.buffered.len() == 0
    }

    /// Samples sent so far, padding included.
    pub fn sent(&self) -> (r: u64)
        ensures
            r == self@.sent,
    {
        self.sent
    }

    /// The next 100 ms chunk to send, if one is due.
    pub fn next_chunk(&mut self) -> (r: Option<Vec<u8>>)
        requires
            old(self)@.sent + LIVE_CHUNK_SAMPLES <= u64::MAX,
            old(self)@.valid_sent + LIVE_CHUNK_SAMPLES <= u64::MAX,
        ensures
            if chunk_due(old(self)@) {
                let valid = if old(self)@.buffered.len() < LIVE_CHUNK_BYTES {
                    old(self)@.buffered.len() as int
                } else {
                    LIVE_CHUNK_BYTES as int
                };
                &&& r matches Some(c) && c@ == chunk_of(old(self)@.buffered)
                &&& final(self)@ == (PacerView {
                    buffered: old(self)@.buffered.skip(valid),
                    sent: (old(self)@.sent + LIVE_CHUNK_SAMPLES) as u64,
                    valid_sent: (old(self)@.valid_sent + valid / 2) as u64,
                    ..old(self)@
                })
            } else {
                r is None && final(self)@ == old(self)@
            },
    {
        let n = self.buffered.len();
        if !(n >= LIVE_CHUNK_BYTES || (self.ending && n > 0)) {
            return None;
        }
        let valid = if n < LIVE_CHUNK_BYTES {
            n
        } else {
            LIVE_CHUNK_BYTES
        };
        let ghost before = self@.buffered;
        let mut chunk: Vec<u8> = Vec::new();
        let mut i: usize = 0;
        while i < valid
            invariant
                i <= valid <= LIVE_CHUNK_BYTES,
                valid <= before.len(),
                self.origin == old(self)@.origin,
                self.expected == old(self)@.expected,
                self.sent == old(self)@.sent,
                self.valid_sent == old(self)@.valid_sent,
                self.ending == old(self)@.ending,
                chunk@ == before.take(i as int),
                self.buffered@ == before.skip(i as int),
            decreases valid - i,
        {
            let b = self.buffered.pop_front();
            match b {
                Some(x) => {
                    assert(before.skip(i as int)[0] == before[i as int]);
                    chunk.push(x);
                },
                None => {
                    assert(false);
                },
            }
            assert(before.take(i + 1) =~= before.take(i as int).push(before[i as int]));
            assert(before.skip(i + 1) =~= before.skip(i as int).drop_first());
            i = i + 1;
        }
        while i < LIVE_CHUNK_BYTES
            invariant
                valid <= i <= LIVE_CHUNK_BYTES,
                valid <= before.len(),
                self.origin == old(self)@.origin,
                self.expected == old(self)@.expected,
                self.sent == old(self)@.sent,
                self.valid_sent == old(self)@.valid_sent,
                self.ending == old(self)@.ending,
                self.buffered@ == before.skip(valid as int),
                chunk@ == before.take(valid as int) + Seq::new((i - valid) as nat, |k: int| 0u8),
            decreases LIVE_CHUNK_BYTES - i,
        {
            chunk.push(0u8);
            assert(before.take(valid as int) + Seq::new((i + 1 - valid) as nat, |k: int| 0u8)
                =~= (before.take(valid as int) + Seq::new((i - valid) as nat, |k: int| 0u8)).push(
                0u8,
            ));
            i = i + 1;
        }
        self.sent = self.sent + LIVE_CHUNK_SAMPLES;
        self.valid_sent = self.valid_sent + (valid / 2) as u64;
        Some(chunk)
    }

    /// A finished segment, cut at the last real sample sent; `None` when
    /// nothing of it remains.
    pub fn clamp(&self, seg: DiarizationSegment) -> (r: Option<DiarizationSegment>)
        requires
            self@.origin + self@.valid_sent <= u64::MAX,
        ensures
            ({
                let limit = self@.origin + self@.valid_sent;
                let end = if seg.span.end < limit {
                    seg.span.end as int
                } else {
                    limit
                };
                if end <= seg.span.start {
                    r is None
                } else {
                    r matches Some(s) && s.label == seg.label && s.overlap == seg.overlap
                        && s.span == SampleSpan { start: seg.span.start, end: end as u64 }
                }
            }),
    {
        let limit = self.origin + self.valid_sent;
        let end = if seg.span.end < limit {
            seg.span.end
        } else {
            limit
        };
        if end <= seg.span.start {
            None
        } else {
            Some(
                DiarizationSegment {
                    label: seg.label,
                    span: SampleSpan { start: seg.span.start, end },
                    overlap: seg.overlap,
                },
            )
        }
    }
}

} // verus!
