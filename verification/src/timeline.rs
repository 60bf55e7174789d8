//! Sample spans, PCM16 frames and the bounded audio history that identity
//! clips are read from.
use std::collections::VecDeque;
use vstd::prelude::*;

verus! {

broadcast use vstd::std_specs::vecdeque::group_vec_dequeue_axioms;

/// Samples per second of every source timeline.
pub const SAMPLE_RATE: u32 = 16000;

/// Thirty seconds of samples: the longest clip or frame accepted.
pub const MAX_CLIP_SAMPLES: usize = 480000;

/// A half-open range `[start, end)` of sample positions.
#[derive(Clone, Copy, Debug, PartialEq, Eq, Structural)]
pub struct SampleSpan {
    pub start: u64,
    pub end: u64,
}

#[derive(Clone, Copy, Debug, PartialEq, Eq)]
pub enum SpanError {
    EmptyOrInverted,
}

/// Number of samples that two half-open spans share.
pub open spec fn spec_overlap(a: SampleSpan, b: SampleSpan) -> int {
    let lo = if a.start >= b.start { a.start as int } else { b.start as int };
    let hi = if a.end <= b.end { a.end as int } else { b.end as int };
    if hi > lo { hi - lo } else { 0 }
}

impl SampleSpan {
    pub fn new(start: u64, end: u64) -> (r: Result<SampleSpan, SpanError>)
        ensures
            start < end <==> r is Ok,
            r matches Ok(s) ==> s.start == start && s.end == end,
    {
        if start < end {
            Ok(SampleSpan { start, end })
        } else {
            Err(SpanError::EmptyOrInverted)
        }
    }

    pub fn overlap(self, other: SampleSpan) -> (r: u64)
        ensures
            r == spec_overlap(self, other),
    {
        let hi = if self.end <= other.end { self.end } else { other.end };
        let lo = if self.start >= other.start { self.start } else { other.start };
        hi.saturating_sub(lo)
    }
}

/// A little-endian PCM16 chunk placed at an explicit position of the source.
#[derive(Clone, Debug)]
pub struct AudioFrame {
    pub start_sample: u64,
    pub pcm16: Vec<u8>,
}

impl AudioFrame {
    pub open spec fn spec_end(&self) -> int {
        self.start_sample + self.pcm16@.len() / 2
    }

    pub fn end_sample(&self) -> (r: u64)
        requires
            self.spec_end() <= u64::MAX,
        ensures
            r == self.spec_end(),
    {
        self.start_sample + (self.pcm16.len() / 2) as u64
    }
}

/// The signed value of a little-endian two-byte sample.
pub open spec fn spec_le_i16(lo: u8, hi: u8) -> i16 {
    let v = lo as int + 256 * hi as int;
    (if v < 32768 { v } else { v - 65536 }) as i16
}

/// Decodes PCM16 little-endian bytes; a trailing odd byte is ignored.
pub open spec fn decode_pcm16(bytes: Seq<u8>) -> Seq<i16> {
    Seq::new(bytes.len() / 2, |i: int| spec_le_i16(bytes[2 * i], bytes[2 * i + 1]))
}

pub fn le_i16(lo: u8, hi: u8) -> (r: i16)
    ensures
        r == spec_le_i16(lo, hi),
{
    let v: u32 = lo as u32 + 256 * (hi as u32);
    if v < 32768 {
        v as i16
    } else {
        (v as i32 - 65536) as i16
    }
}

/// The last `cap` elements of `s` (all of them when it is shorter).
pub open spec fn keep_last<T>(s: Seq<T>, cap: nat) -> Seq<T> {
    if s.len() > cap {
        s.subrange(s.len() - cap, s.len() as int)
    } else {
        s
    }
}

/// What the history holds: the sample at position `p` is
/// `samples[p - start]`, and at most `capacity` samples are kept.
pub struct TimelineView {
    pub start: int,
    pub samples: Seq<i16>,
    pub capacity: nat,
}

impl TimelineView {
    pub open spec fn end(self) -> int {
        self.start + self.samples.len()
    }
}

/// The history after a frame has been accepted: a frame that does not begin
/// where the history ends discards it, and only the newest `capacity` samples
/// stay.
pub open spec fn spec_push(v: TimelineView, frame_start: int, pcm16: Seq<u8>) -> TimelineView {
    let base = if v.end() == frame_start { v.samples } else { Seq::<i16>::empty() };
    let all = base + decode_pcm16(pcm16);
    let kept = keep_last(all, v.capacity);
    TimelineView {
        start: frame_start + pcm16.len() / 2 - kept.len(),
        samples: kept,
        capacity: v.capacity,
    }
}

/// The samples of a span, when the whole span is still held and it is at
/// most thirty seconds long.
pub open spec fn spec_clip(v: TimelineView, span: SampleSpan) -> Option<Seq<i16>> {
    if span.end > span.start && span.start >= v.start && span.end <= v.end() && span.end
        - span.start <= MAX_CLIP_SAMPLES {
        Some(v.samples.subrange(span.start - v.start, span.end - v.start))
    } else {
        None
    }
}

#[derive(Clone, Copy, Debug, PartialEq, Eq)]
pub enum TimelineError {
    /// The history length must be 1 to 120 seconds.
    InvalidDuration,
    /// The frame's end position does not fit the sample clock.
    ClockOverflow,
    /// The frame holds an odd number of bytes.
    IncompleteSample,
    /// The frame is longer than thirty seconds.
    FrameTooLong,
    /// The span is empty, evicted, not yet received or inverted.
    AudioUnavailable,
    /// The span is longer than thirty seconds.
    ClipTooLong,
}

/// History is recorded before provider fanout, never by consuming an STT
/// receiver. Only contiguous complete spans may be read. Audio is never
/// persisted here.
pub struct AudioTimeline {
    samples: VecDeque<i16>,
    start: u64,
    end: u64,
    capacity: usize,
}

impl View for AudioTimeline {
    type V = TimelineView;

    closed spec fn view(&self) -> TimelineView {
        TimelineView {
            start: self.start as int,
            samples: self.samples@,
            capacity: self.capacity as nat,
        }
    }
}

impl AudioTimeline {
    /// The history keeps its shape: at most `capacity` samples, ending at the
    /// recorded end position, with a capacity of whole seconds.
    pub closed spec fn wf(&self) -> bool {
        &&& self.samples@.len() <= self.capacity
        &&& self.start + self.samples@.len() == self.end
        &&& SAMPLE_RATE <= self.capacity <= 120 * SAMPLE_RATE
    }

    /// The history stays bounded: at most `capacity` samples, and a capacity
    /// between one second and two minutes.
    pub proof fn lemma_bounds(&self)
        requires
            self.wf(),
        ensures
            self@.samples.len() <= self@.capacity,
            SAMPLE_RATE <= self@.capacity <= 120 * SAMPLE_RATE,
    {
    }

    pub fn new(seconds: usize) -> (r: Result<AudioTimeline, TimelineError>)
        ensures
            1 <= seconds <= 120 <==> r is Ok,
            r matches Ok(t) ==> {
                &&& t.wf()
                &&& t@.start == 0
                &&& t@.samples.len() == 0
                &&& t@.capacity == seconds * SAMPLE_RATE
            },
    {
        if 1 <= seconds && seconds <= 120 {
            Ok(AudioTimeline {
                samples: VecDeque::new(),
                start: 0,
                end: 0,
                capacity: seconds * 16000,
            })
        } else {
            Err(TimelineError::InvalidDuration)
        }
    }

    pub fn end_sample(&self) -> (r: u64)
        requires
            self.wf(),
        ensures
            r == self@.end(),
    {
        self.end
    }

    /// Records a frame. A frame that does not continue the history starts a
    /// new contiguous run; the oldest samples are evicted beyond capacity.
    pub fn push(&mut self, frame: &AudioFrame) -> (r: Result<(), TimelineError>)
        requires
            old(self).wf(),
        ensures
            final(self).wf(),
            r is Err ==> final(self)@ == old(self)@,
            r == (if frame.spec_end() > u64::MAX {
                Err::<(), TimelineError>(TimelineError::ClockOverflow)
            } else if frame.pcm16@.len() % 2 != 0 {
                Err(TimelineError::IncompleteSample)
            } else if frame.pcm16@.len() > 2 * MAX_CLIP_SAMPLES {
                Err(TimelineError::FrameTooLong)
            } else {
                Ok(())
            }),
            r is Ok ==> final(self)@ == spec_push(
                old(self)@,
                frame.start_sample as int,
                frame.pcm16@,
            ),
    {
        let n = frame.pcm16.len() / 2;
        if frame.start_sample > u64::MAX - (n as u64) {
            return Err(TimelineError::ClockOverflow);
        }
        if frame.pcm16.len() % 2 != 0 {
            return Err(TimelineError::IncompleteSample);
        }
        if frame.pcm16.len() > 2 * MAX_CLIP_SAMPLES {
            return Err(TimelineError::FrameTooLong);
        }
        let ghost old_view = self@;
        if self.end != frame.start_sample {
            self.samples.clear();
            self.start = frame.start_sample;
        }
        let ghost base = self.samples@;
        let ghost cap = self.capacity;
        assert(base.len() <= frame.start_sample);
        assert(base == (if old_view.end() == frame.start_sample as int {
            old_view.samples
        } else {
            Seq::<i16>::empty()
        }));
        let ghost decoded = decode_pcm16(frame.pcm16@);
        let mut i: usize = 0;
        while i < n
            invariant
                n == frame.pcm16@.len() / 2,
                n <= MAX_CLIP_SAMPLES,
                decoded == decode_pcm16(frame.pcm16@),
                i <= n,
                self.samples@ == base + decoded.take(i as int),
                base.len() <= self.capacity,
                self.capacity == cap,
                SAMPLE_RATE <= cap <= 120 * SAMPLE_RATE,
            decreases n - i,
        {
            let s = le_i16(frame.pcm16[2 * i], frame.pcm16[2 * i + 1]);
            self.samples.push_back(s);
            i = i + 1;
            assert(decoded.take(i as int) == decoded.take(i - 1).push(s));
        }
        assert(decoded.take(n as int) == decoded);
        let ghost all = base + decoded;
        let ghost mut k: int = 0;
        while self.samples.len() > self.capacity
            invariant
                0 <= k <= all.len(),
                self.samples@ == all.subrange(k, all.len() as int),
                k > 0 ==> all.len() - k >= self.capacity,
                self.capacity == cap,
                SAMPLE_RATE <= cap <= 120 * SAMPLE_RATE,
            decreases self.samples@.len(),
        {
            self.samples.pop_front();
            proof {
                k = k + 1;
            }
        }
        assert(self.samples@ == keep_last(all, self.capacity as nat));
        self.end = frame.start_sample + n as u64;
        self.start = self.end - self.samples.len() as u64;
        Ok(())
    }

    /// Reads a complete span that is still held.
    pub fn clip(&self, span: SampleSpan) -> (r: Result<Vec<i16>, TimelineError>)
        requires
            self.wf(),
        ensures
            r is Ok <==> spec_clip(self@, span) is Some,
            r matches Ok(v) ==> Some(v@) == spec_clip(self@, span),
            r matches Err(e) ==> (e == TimelineError::AudioUnavailable <==> !(span.end > span.start
                && span.start >= self@.start && span.end <= self@.end())),
    {
        if !(span.end > span.start && span.start >= self.start && span.end <= self.end) {
            return Err(TimelineError::AudioUnavailable);
        }
        if span.end - span.start > MAX_CLIP_SAMPLES as u64 {
            return Err(TimelineError::ClipTooLong);
        }
        let from = (span.start - self.start) as usize;
        let to = (span.end - self.start) as usize;
        let mut out: Vec<i16> = Vec::new();
        let mut i = from;
        while i < to
            invariant
                self.wf(),
                from <= i <= to <= self.samples@.len(),
                out@ == self.samples@.subrange(from as int, i as int),
            decreases to - i,
        {
            out.push(self.samples[i]);
            i = i + 1;
        }
        Ok(out)
    }
}

/// Reading back what was written: right after a frame is accepted, every
/// complete span of it that the capacity still holds reads back as exactly
/// the frame's own samples.
pub proof fn lemma_clip_reads_pushed_frame(
    v: TimelineView,
    frame_start: int,
    pcm16: Seq<u8>,
    span: SampleSpan,
)
    requires
        pcm16.len() % 2 == 0,
        frame_start >= 0,
        frame_start <= span.start,
        span.start < span.end,
        span.end <= frame_start + pcm16.len() / 2,
        span.start >= spec_push(v, frame_start, pcm16).start,
        span.end - span.start <= MAX_CLIP_SAMPLES,
    ensures
        spec_clip(spec_push(v, frame_start, pcm16), span) == Some(
            decode_pcm16(pcm16).subrange(span.start - frame_start, span.end - frame_start),
        ),
{
    let w = spec_push(v, frame_start, pcm16);
    let base = if v.end() == frame_start { v.samples } else { Seq::<i16>::empty() };
    let d = decode_pcm16(pcm16);
    let all = base + d;
    let kept = keep_last(all, v.capacity);
    let drop = all.len() - kept.len();
    assert(w.end() == frame_start + d.len());
    let got = w.samples.subrange(span.start - w.start, span.end - w.start);
    let want = d.subrange(span.start - frame_start, span.end - frame_start);
    assert forall|i: int| 0 <= i < got.len() implies got[i] == want[i] by {
        assert(kept[span.start - w.start + i] == all[drop + span.start - w.start + i]);
        assert(drop + span.start - w.start + i == base.len() + span.start - frame_start + i);
    }
    assert(got =~= want);
}

} // verus!
