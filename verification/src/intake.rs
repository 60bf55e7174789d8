//! What the speaker pipeline keeps of incoming audio: the recorded
//! timeline, the bounded list of finished diarization segments, and the
//! generation that ties a live diarizer session to the audio it may label.
use crate::diarization::{
    opt_label_view, pieces_view, spec_split_speaker_span, split_speaker_span, DiarizationSegment,
    SpeakerLabel,
};
use crate::timeline::{spec_push, AudioFrame, AudioTimeline, TimelineError, TimelineView, SampleSpan, spec_clip, SAMPLE_RATE};
use crate::live::{segment_view, SegmentView};
use std::collections::VecDeque;
use vstd::prelude::*;

verus! {

broadcast use vstd::std_specs::vecdeque::group_vec_dequeue_axioms;

/// At most this many finished segments are kept; the oldest goes first.
pub const SEGMENT_CAPACITY: usize = 256;

/// The longest frame the pipeline takes: one second of PCM16.
pub const MAX_FRAME_BYTES: usize = 32000;

/// Seconds of audio history the pipeline keeps.
pub const HISTORY_SECONDS: usize = 60;

#[derive(Clone, Copy, Debug, PartialEq, Eq)]
pub enum IntakeError {
    /// A frame must hold 1 to 32000 bytes.
    FrameSize,
    /// The timeline refused the frame.
    Timeline(TimelineError),
}

pub struct IntakeView {
    pub timeline: TimelineView,
    pub segments: Seq<SegmentView>,
    pub generation: u64,
    pub live: bool,
    pub external: bool,
}

pub open spec fn segments_view(s: Seq<DiarizationSegment>) -> Seq<SegmentView> {
    s.map_values(|d: DiarizationSegment| segment_view(d))
}

/// The intake after a frame that does not continue the recorded audio.
pub open spec fn after_discontinuity(v: IntakeView) -> IntakeView {
    IntakeView { segments: Seq::empty(), generation: (v.generation + 1) as u64, live: false, ..v }
}

/// Offering a finished segment of the session of `generation`.
pub open spec fn spec_add_segment(v: IntakeView, generation: u64, s: SegmentView) -> (IntakeView, bool) {
    if generation == v.generation {
        (
            IntakeView {
                segments: if v.segments.len() >= SEGMENT_CAPACITY {
                    v.segments.drop_first()
                } else {
                    v.segments
                }.push(s),
                ..v
            },
            true,
        )
    } else {
        (v, false)
    }
}

/// A discontinuity cuts off the live session that was labelling the old
/// audio: none of its segments is kept afterwards, and none of those kept
/// before remains.
pub proof fn lemma_discontinuity_drops_old_session(v: IntakeView, s: SegmentView)
    requires
        v.generation < u64::MAX,
    ensures
        after_discontinuity(v).segments.len() == 0,
        !spec_add_segment(after_discontinuity(v), v.generation, s).1,
        spec_add_segment(after_discontinuity(v), v.generation, s).0 == after_discontinuity(v),
{
}

/// Audio intake of one speaker pipeline. `external` tells whether a live
/// diarizer labels the audio; `live` whether its session is running.
pub struct Intake {
    timeline: AudioTimeline,
    segments: VecDeque<DiarizationSegment>,
    generation: u64,
    live: bool,
    external: bool,
}

impl View for Intake {
    type V = IntakeView;

    closed spec fn view(&self) -> IntakeView {
        IntakeView {
            timeline: self.timeline@,
            segments: segments_view(self.segments@),
            generation: self.generation,
            live: self.live,
            external: self.external,
        }
    }
}

impl Intake {
    pub closed spec fn wf(&self) -> bool {
        &&& self.timeline.wf()
        &&& self.segments@.len() <= SEGMENT_CAPACITY
    }

    /// The intake stays bounded: its audio history within its capacity of
    /// at most two minutes, and at most `SEGMENT_CAPACITY` segments.
    pub proof fn lemma_bounds(&self)
        requires
            self.wf(),
        ensures
            self@.timeline.samples.len() <= self@.timeline.capacity <= 120 * SAMPLE_RATE,
            self@.segments.len() <= SEGMENT_CAPACITY,
    {
        self.timeline.lemma_bounds();
    }

    pub fn new(external: bool) -> (r: Intake)
        ensures
            r.wf(),
            r@.timeline.start == 0,
            r@.timeline.samples.len() == 0,
            r@.timeline.capacity == HISTORY_SECONDS * 16000,
            r@.segments.len() == 0,
            r@.generation == 0,
            !r@.live,
            r@.external == external,
    {
        let timeline = match AudioTimeline::new(HISTORY_SECONDS) {
            Ok(t) => t,
            Err(_) => vstd::pervasive::unreached(),
        };
        let r = Intake { timeline, segments: VecDeque::new(), generation: 0, live: false, external };
        assert(r@.segments =~= Seq::<SegmentView>::empty());
        r
    }

    /// Whether a live diarizer labels this pipeline's audio.
    pub fn uses_external_diarizer(&self) -> (r: bool)
        ensures
            r == self@.external,
    {
        self.external
    }

    /// Where the recorded audio ends.
    pub fn end_sample(&self) -> (r: u64)
        requires
            self.wf(),
        ensures
            r == self@.timeline.end(),
    {
        self.timeline.end_sample()
    }

    /// Checks a frame's size: 1 to 32000 bytes.
    pub fn check_frame(frame: &AudioFrame) -> (r: Result<(), IntakeError>)
        ensures
            r is Ok <==> 0 < frame.pcm16@.len() <= MAX_FRAME_BYTES,
            r matches Err(e) ==> e == IntakeError::FrameSize,
    {
        if frame.pcm16.len() > 0 && frame.pcm16.len() <= MAX_FRAME_BYTES {
            Ok(())
        } else {
            Err(IntakeError::FrameSize)
        }
    }

    /// The generation of the current (or next) live diarizer session.
    pub fn generation(&self) -> (r: u64)
        ensures
            r == self@.generation,
    {
        self.generation
    }

    /// A frame that does not continue the recorded audio invalidates the
    /// finished segments and the live session, which must be cancelled and
    /// restarted; identity state must be reset. Returns whether it did.
    pub fn begin_frame(&mut self, frame: &AudioFrame) -> (r: bool)
        requires
            old(self).wf(),
            old(self)@.generation < u64::MAX,
        ensures
            final(self).wf(),
            r == (old(self)@.timeline.end() != frame.start_sample),
            final(self)@ == if r {
                after_discontinuity(old(self)@)
            } else {
                old(self)@
            },
    {
        if self.timeline.end_sample() != frame.start_sample {
            self.live = false;
            self.segments = VecDeque::new();
            self.generation = self.generation + 1;
            assert(self@.segments =~= Seq::<SegmentView>::empty());
            true
        } else {
            false
        }
    }

    /// Records a frame. With a live diarizer, a closed session is dropped
    /// and, when none runs, a new one is due: its generation is returned.
    pub fn record(&mut self, frame: &AudioFrame, live_closed: bool) -> (r: Result<Option<u64>, TimelineError>)
        requires
            old(self).wf(),
            old(self)@.generation < u64::MAX,
        ensures
            final(self).wf(),
            match r {
                Err(e) => final(self)@ == old(self)@ && e == (if frame.spec_end() > u64::MAX {
                    TimelineError::ClockOverflow
                } else if frame.pcm16@.len() % 2 != 0 {
                    TimelineError::IncompleteSample
                } else {
                    TimelineError::FrameTooLong
                }),
                Ok(start) => {
                    let recorded = spec_push(old(self)@.timeline, frame.start_sample as int, frame.pcm16@);
                    let running = old(self)@.live && !live_closed;
                    if !old(self)@.external {
                        start is None && final(self)@ == (IntakeView { timeline: recorded, ..old(self)@ })
                    } else if running {
                        start is None && final(self)@ == (IntakeView { timeline: recorded, ..old(self)@ })
                    } else {
                        start == Some((old(self)@.generation + 1) as u64) && final(self)@ == (IntakeView {
                            timeline: recorded,
                            generation: (old(self)@.generation + 1) as u64,
                            live: true,
                            ..old(self)@
                        })
                    }
                },
            },
    {
        match self.timeline.push(frame) {
            Err(e) => return Err(e),
            Ok(()) => {},
        }
        if !self.external {
            return Ok(None);
        }
        if self.live && live_closed {
            self.live = false;
        }
        if !self.live {
            self.generation = self.generation + 1;
            self.live = true;
            Ok(Some(self.generation))
        } else {
            Ok(None)
        }
    }

    /// The live session could not take a frame: it is cancelled and a new
    /// one starts with the next frame.
    pub fn live_failed(&mut self)
        requires
            old(self).wf(),
            old(self)@.generation < u64::MAX,
        ensures
            final(self).wf(),
            final(self)@ == (IntakeView {
                live: false,
                generation: (old(self)@.generation + 1) as u64,
                ..old(self)@
            }),
    {
        self.live = false;
        self.generation = self.generation + 1;
    }

    /// The live session of `generation` ended; if it is the current one, a
    /// new one starts with the next frame.
    pub fn live_ended(&mut self, generation: u64)
        requires
            old(self).wf(),
        ensures
            final(self).wf(),
            final(self)@ == if generation == old(self)@.generation {
                IntakeView { live: false, ..old(self)@ }
            } else {
                old(self)@
            },
    {
        if self.generation == generation {
            self.live = false;
        }
    }

    /// A finished segment from the live session of `generation`: kept only
    /// when that session is still current, dropping the oldest segments
    /// beyond capacity. Returns whether it was kept.
    pub fn add_segment(&mut self, generation: u64, segment: DiarizationSegment) -> (r: bool)
        requires
            old(self).wf(),
        ensures
            final(self).wf(),
            (final(self)@, r) == spec_add_segment(old(self)@, generation, segment_view(segment)),
    {
        if self.generation != generation {
            return false;
        }
        let ghost before = self@.segments;
        if self.segments.len() >= SEGMENT_CAPACITY {
            let _ = self.segments.pop_front();
            assert(segments_view(self.segments@) =~= before.drop_first());
        }
        let ghost mid = self@.segments;
        let ghost sv = segment_view(segment);
        self.segments.push_back(segment);
        assert(self@.segments =~= mid.push(sv));
        true
    }

    /// The finished segments, oldest first.
    pub fn segments(&self) -> (r: Vec<DiarizationSegment>)
        ensures
            segments_view(r@) == self@.segments,
    {
        let mut out: Vec<DiarizationSegment> = Vec::new();
        let mut i: usize = 0;
        while i < self.segments.len()
            invariant
                i <= self.segments@.len(),
                segments_view(out@) == segments_view(self.segments@).take(i as int),
            decreases self.segments@.len() - i,
        {
            let s = self.segments[i].clone();
            let ghost before = out@;
            out.push(s);
            assert(segments_view(out@) =~= segments_view(before).push(segment_view(s)));
            assert(segments_view(self.segments@).take(i + 1) =~= segments_view(self.segments@).take(
                i as int,
            ).push(segment_view(self.segments@[i as int])));
            i = i + 1;
        }
        assert(segments_view(self.segments@).take(i as int) =~= segments_view(self.segments@));
        out
    }

    /// The recorded samples of `span`.
    pub fn clip(&self, span: SampleSpan) -> (r: Result<Vec<i16>, TimelineError>)
        requires
            self.wf(),
        ensures
            r is Ok <==> spec_clip(self@.timeline, span) is Some,
            r matches Ok(v) ==> Some(v@) == spec_clip(self@.timeline, span),
    {
        self.timeline.clip(span)
    }
}

/// The parts of a turn to identify: with a live diarizer, the turn split
/// where its speakers change; otherwise the whole turn with the label the
/// transcriber gave it.
pub fn turn_parts(
    span: SampleSpan,
    label: Option<SpeakerLabel>,
    external: bool,
    segments: &[DiarizationSegment],
) -> (r: Vec<(SampleSpan, Option<SpeakerLabel>)>)
    ensures
        pieces_view(r@) == if external {
            spec_split_speaker_span(span, segments@)
        } else {
            seq![(span, opt_label_view(label))]
        },
{
    if external {
        split_speaker_span(span, segments)
    } else {
        let ghost l = opt_label_view(label);
        let mut v: Vec<(SampleSpan, Option<SpeakerLabel>)> = Vec::new();
        v.push((span, label));
        assert(pieces_view(v@) =~= seq![(span, l)]);
        v
    }
}

/// The samples of `part` taken from the samples of the turn `turn`.
pub fn part_samples<T: Copy>(samples: &Vec<T>, turn: SampleSpan, part: SampleSpan) -> (r: Vec<T>)
    requires
        turn.start <= part.start <= part.end <= turn.end,
        samples@.len() == turn.end - turn.start,
    ensures
        r@ == samples@.subrange(part.start - turn.start, part.end - turn.start),
{
    let n = samples.len();
    assert(part.end - turn.start <= n);
    let from = (part.start - turn.start) as usize;
    let to = (part.end - turn.start) as usize;
    let mut out: Vec<T> = Vec::new();
    let mut i = from;
    while i < to
        invariant
            from <= i <= to <= samples@.len(),
            out@ == samples@.subrange(from as int, i as int),
        decreases to - i,
    {
        out.push(samples[i]);
        i = i + 1;
        assert(out@ =~= samples@.subrange(from as int, i as int));
    }
    out
}

} // verus!
