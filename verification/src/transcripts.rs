//! From the host's audio and transcripts to identity turns: the source
//! clock that places every audio chunk on one timeline, the text a
//! transcript is announced with, and the turn a final transcript becomes.
use crate::diarization::SpeakerLabel;
use crate::text::{chars_of, strip_window, CharClass, strip};
use crate::timeline::{AudioFrame, SampleSpan};
use crate::turns::TranscriptTurn;
use vstd::prelude::*;

verus! {

/// Audio is handed on in chunks of at most this many bytes (20 ms).
pub const INGEST_CHUNK_BYTES: usize = 640;

pub struct ClockView {
    pub offset: u64,
    pub valid: bool,
}

/// The `k`-th chunk of `bytes`.
pub open spec fn chunk_at(bytes: Seq<u8>, k: int) -> Seq<u8> {
    let lo = k * INGEST_CHUNK_BYTES;
    let hi = if lo + INGEST_CHUNK_BYTES < bytes.len() {
        lo + INGEST_CHUNK_BYTES
    } else {
        bytes.len() as int
    };
    bytes.subrange(lo, hi)
}

/// Number of chunks `bytes` is cut into.
pub open spec fn chunk_count(bytes: Seq<u8>) -> int {
    let n = bytes.len() as int;
    (n + 639) / 640
}

/// Samples that `n` bytes advance the clock by: full chunks, then the
/// whole samples of the last chunk.
pub open spec fn ingest_samples(n: int) -> int {
    (n / 640) * 320 + (n % 640) / 2
}

/// The position of the host's audio stream. Once a byte may have been
/// lost or a sample split, positions can no longer be trusted and the
/// clock stays invalid: text still flows, identities abstain.
pub struct IngestClock {
    offset: u64,
    valid: bool,
}

impl View for IngestClock {
    type V = ClockView;

    closed spec fn view(&self) -> ClockView {
        ClockView { offset: self.offset, valid: self.valid }
    }
}

impl IngestClock {
    pub fn new() -> (r: IngestClock)
        ensures
            r@ == (ClockView { offset: 0, valid: true }),
    {
        IngestClock { offset: 0, valid: true }
    }

    /// Some audio was lost; its length is unknowable.
    pub fn note_lost(&mut self)
        ensures
            final(self)@ == (ClockView { valid: false, ..old(self)@ }),
    {
        self.valid = false;
    }

    /// Whether positions can still be trusted.
    pub fn is_valid(&self) -> (r: bool)
        ensures
            r == self@.valid,
    {
        self.valid
    }

    /// The stream position, in samples, of the next byte.
    pub fn offset(&self) -> (r: u64)
        ensures
            r == self@.offset,
    {
        self.offset
    }

    /// Cuts a batch of PCM16 bytes into chunks placed on the timeline. A
    /// batch with an odd number of bytes makes the clock invalid.
    pub fn ingest(&mut self, bytes: &Vec<u8>) -> (r: Vec<AudioFrame>)
        requires
            old(self)@.offset + bytes@.len() <= u64::MAX,
        ensures
            final(self)@.valid == (old(self)@.valid && bytes@.len() % 2 == 0),
            r@.len() == chunk_count(bytes@),
            forall|k: int|
                0 <= k < r@.len() ==> (#[trigger] r@[k]).start_sample == old(self)@.offset + k
                    * (INGEST_CHUNK_BYTES / 2) && r@[k].pcm16@ == chunk_at(bytes@, k),
            final(self)@.offset == old(self)@.offset + ingest_samples(bytes@.len() as int),
    {
        if bytes.len() % 2 != 0 {
            self.valid = false;
        }
        let n = bytes.len();
        let start_offset = self.offset;
        let mut frames: Vec<AudioFrame> = Vec::new();
        let mut lo: usize = 0;
        let mut k: usize = 0;
        while lo < n
            invariant
                n == bytes@.len(),
                lo < n ==> lo == k * INGEST_CHUNK_BYTES,
                lo >= n ==> k == chunk_count(bytes@),
                lo == 0 ==> k == 0,
                start_offset + n <= u64::MAX,
                lo < n ==> self.offset == start_offset + k * 320,
                lo >= n ==> self.offset == start_offset + ingest_samples(n as int),
                lo < n ==> self.offset + n - lo <= u64::MAX,
                lo <= n,
                self.valid == (old(self)@.valid && n % 2 == 0),
                start_offset == old(self)@.offset,
                frames@.len() == k,
                forall|j: int|
                    0 <= j < k ==> (#[trigger] frames@[j]).start_sample == start_offset + j * 320
                        && frames@[j].pcm16@ == chunk_at(bytes@, j),
            decreases n - lo,
        {
            let hi = if n - lo > INGEST_CHUNK_BYTES {
                lo + INGEST_CHUNK_BYTES
            } else {
                n
            };
            let mut pcm16: Vec<u8> = Vec::new();
            let mut i = lo;
            while i < hi
                invariant
                    lo <= i <= hi <= n == bytes@.len(),
                    pcm16@ == bytes@.subrange(lo as int, i as int),
                decreases hi - i,
            {
                pcm16.push(bytes[i]);
                assert(pcm16@ =~= bytes@.subrange(lo as int, i + 1));
                i = i + 1;
            }
            let frame = AudioFrame { start_sample: self.offset, pcm16 };
            frames.push(frame);
            self.offset = self.offset + ((hi - lo) / 2) as u64;
            proof {
                if hi == n {
                    let kk = k as int;
                    let nn = n as int;
                    assert((nn + 639) / 640 == kk + 1) by (nonlinear_arith)
                        requires
                            kk * 640 < nn,
                            nn <= kk * 640 + 640,
                    ;
                    assert(kk * 320 + (nn - kk * 640) / 2 == ingest_samples(nn)) by (nonlinear_arith)
                        requires
                            kk * 640 < nn,
                            nn <= kk * 640 + 640,
                            kk >= 0,
                    ;
                }
            }
            lo = hi;
            k = k + 1;
        }
        proof {
            if n == 0 {
                assert(chunk_count(bytes@) == 0);
                assert(ingest_samples(0) == 0);
            }
        }
        frames
    }
}

/// The chunks tile the batch: every chunk but the last is full, and the
/// clock advances to exactly where the last chunk ends, so the next batch
/// starts where this one stopped.
pub proof fn lemma_chunks_tile(bytes: Seq<u8>, k: int)
    requires
        0 <= k < chunk_count(bytes),
    ensures
        k < chunk_count(bytes) - 1 ==> chunk_at(bytes, k).len() == INGEST_CHUNK_BYTES,
        k == chunk_count(bytes) - 1 ==> k * 320 + chunk_at(bytes, k).len() / 2 == ingest_samples(
            bytes.len() as int,
        ),
{
    let n = bytes.len() as int;
    assert(k * 640 < n) by (nonlinear_arith)
        requires
            0 <= k < (n + 639) / 640,
            n >= 0,
    ;
    if k < chunk_count(bytes) - 1 {
        assert(k * 640 + 640 < n) by (nonlinear_arith)
            requires
                0 <= k < (n + 639) / 640 - 1,
                n >= 0,
        ;
    } else {
        assert(n <= k * 640 + 640) by (nonlinear_arith)
            requires
                k == (n + 639) / 640 - 1,
                n >= 0,
        ;
        assert(k * 320 + (n - k * 640) / 2 == ingest_samples(n)) by (nonlinear_arith)
            requires
                k * 640 < n,
                n <= k * 640 + 640,
                k >= 0,
        ;
    }
}

/// The text a transcript is announced with:
/// `[Utterance:<id> Speaker:<label or Unknown>] <transcript>`.
pub open spec fn spec_utterance_text(utterance: Seq<char>, local: Option<Seq<char>>, transcript: Seq<
    char,
>) -> Seq<char> {
    "[Utterance:"@ + utterance + " Speaker:"@ + match local {
        Some(l) => l,
        None => "Unknown"@,
    } + "] "@ + transcript
}

pub fn utterance_text(utterance: &str, local: &Option<String>, transcript: &str) -> (r: String)
    ensures
        r@ == spec_utterance_text(
            utterance@,
            match local {
                Some(l) => Some(l@),
                None => None,
            },
            transcript@,
        ),
{
    let mut s = String::from_str("[Utterance:");
    s.append(utterance);
    s.append(" Speaker:");
    match local {
        Some(l) => s.append(l.as_str()),
        None => s.append("Unknown"),
    }
    s.append("] ");
    s.append(transcript);
    s
}

/// Whether a transcript holds nothing but whitespace (such transcripts are
/// skipped).
pub fn is_blank(transcript: &str) -> (r: bool)
    ensures
        r == (strip(transcript@, CharClass::Whitespace).len() == 0),
{
    let v = chars_of(transcript);
    let (a, b) = strip_window(&v, 0, v.len(), CharClass::Whitespace);
    assert(v@.subrange(0, v@.len() as int) =~= transcript@);
    a == b
}

/// Whether a transcript goes on to speaker identification: only a final one,
/// while the ingest clock is still valid, and only when the transcriber gave
/// its timing, stream origin and session.
pub fn should_submit(is_final: bool, clock_valid: bool, parts_present: bool) -> (r: bool)
    ensures
        r == (is_final && clock_valid && parts_present),
{
    is_final && clock_valid && parts_present
}

/// The identity turn of a final transcript whose span, relative to the
/// start of its stream at `origin`, is `relative`; `None` when the
/// absolute positions do not fit. A transcriber's own speaker label is
/// scoped to its session.
pub fn turn_for(
    utterance: String,
    session: String,
    origin: u64,
    relative: SampleSpan,
    local: Option<String>,
) -> (r: Option<TranscriptTurn>)
    ensures
        match r {
            Some(t) => origin + relative.end <= u64::MAX && origin + relative.start <= u64::MAX
                && t.utterance_id@ == utterance@ && t.source_session@ == session@ && t.span
                == (SampleSpan {
                start: (origin + relative.start) as u64,
                end: (origin + relative.end) as u64,
            }) && match local {
                Some(l) => t.label matches Some(x) && x@ == ("transcriber"@, session@, l@),
                None => t.label is None,
            },
            None => origin + relative.start > u64::MAX || origin + relative.end > u64::MAX,
        },
{
    let start = match origin.checked_add(relative.start) {
        Some(v) => v,
        None => return None,
    };
    let end = match origin.checked_add(relative.end) {
        Some(v) => v,
        None => return None,
    };
    let label = match local {
        Some(l) => Some(
            SpeakerLabel {
                provider: String::from_str("transcriber"),
                session: session.clone(),
                local: l,
            },
        ),
        None => None,
    };
    Some(
        TranscriptTurn {
            utterance_id: utterance,
            source_session: session,
            span: SampleSpan { start, end },
            label,
        },
    )
}

} // verus!
