//! Transcript turns and the ledger every identity turn is checked against: session
//! scoping, replay protection and ordering, and the labels and hints that
//! later turns may refer to.
use crate::diarization::{opt_label_view, LabelView, SpeakerLabel};
use crate::timeline::SampleSpan;
use std::collections::VecDeque;
use vstd::prelude::*;

verus! {

broadcast use vstd::std_specs::vecdeque::group_vec_dequeue_axioms;

/// A final transcript turn. Its span refers to the exact PCM16 stream the
/// audio timeline recorded.
#[derive(Debug)]
pub struct TranscriptTurn {
    pub utterance_id: String,
    pub source_session: String,
    pub span: SampleSpan,
    pub label: Option<SpeakerLabel>,
}

impl Clone for TranscriptTurn {
    fn clone(&self) -> (r: Self)
        ensures
            r == *self,
    {
        TranscriptTurn {
            utterance_id: self.utterance_id.clone(),
            source_session: self.source_session.clone(),
            span: self.span,
            label: match &self.label {
                Some(l) => Some(l.clone()),
                None => None,
            },
        }
    }
}

/// How many evidence ids are remembered for replay protection.
pub const SEEN_CAPACITY: usize = 1024;

/// How many recent turn labels hints may refer to.
pub const LABEL_CAPACITY: usize = 64;

/// Hints older than this (in nanoseconds) no longer apply.
pub const HINT_WINDOW_NS: u64 = 45_000_000_000;

pub type EvidenceId = (Seq<char>, u64, u64);

/// Whether a reset happened before the turn was accepted, or why it was
/// refused.
pub type Admission = Result<bool, TurnError>;

pub type HintResult = Result<(), HintError>;

/// The hinted user and when the hint was given.
pub type TakenHint = Option<(String, u64)>;

pub struct LedgerView {
    pub turn_labels: Seq<(Seq<char>, LabelView)>,
    pub pending_hint: Option<(LabelView, Seq<char>, u64)>,
    pub last_label_session: Option<(Seq<char>, Seq<char>)>,
    pub seen: Seq<EvidenceId>,
    pub session: Option<Seq<char>>,
    pub last_end: Option<u64>,
}

pub open spec fn empty_ledger() -> LedgerView {
    LedgerView {
        turn_labels: Seq::empty(),
        pending_hint: None,
        last_label_session: None,
        seen: Seq::empty(),
        session: None,
        last_end: None,
    }
}

pub open spec fn bounded_push<T>(s: Seq<T>, x: T, cap: nat) -> Seq<T> {
    if s.len() >= cap && s.len() > 0 {
        s.drop_first().push(x)
    } else {
        s.push(x)
    }
}

#[derive(Clone, Copy, Debug, PartialEq, Eq, Structural)]
pub enum TurnError {
    /// The span is empty or does not match the number of audio samples.
    AudioSpanMismatch,
    /// This evidence was already resolved.
    DuplicateTurn,
    /// The turn starts before the previous turn ended.
    OutOfOrder,
}

#[derive(Clone, Copy, Debug, PartialEq, Eq, Structural)]
pub enum HintError {
    /// The hinted user is not among the enrolled candidates.
    NotEnrolled,
    /// No recent labelled turn has that utterance id.
    UnknownUtterance,
}

pub open spec fn label_session_of(l: Option<LabelView>) -> Option<(Seq<char>, Seq<char>)> {
    match l {
        Some(l) => Some((l.0, l.1)),
        None => None,
    }
}

/// The ledger after a turn is offered: a change of source session or of
/// diarizer session (an unlabelled turn in between does not hide it) first
/// resets it; the turn is then refused if it was
/// already seen or starts before the previous one ended, and otherwise
/// remembered. The flag tells whether a reset happened.
pub open spec fn spec_accept(
    v: LedgerView,
    utterance: Seq<char>,
    source: Seq<char>,
    span: SampleSpan,
    label: Option<LabelView>,
    audio_len: nat,
) -> (LedgerView, Result<bool, TurnError>) {
    if !(span.end > span.start && span.end - span.start == audio_len) {
        (v, Err(TurnError::AudioSpanMismatch))
    } else {
        let r1 = v.session is Some && v.session != Some(source);
        let v1 = if r1 { empty_ledger() } else { v };
        let ls = label_session_of(label);
        let r2 = v1.last_label_session is Some && ls is Some && v1.last_label_session != ls;
        let v2 = if r2 { empty_ledger() } else { v1 };
        let v3 = LedgerView {
            last_label_session: if ls is Some {
                ls
            } else {
                v2.last_label_session
            },
            session: Some(source),
            ..v2
        };
        let id = (utterance, span.start, span.end);
        if v3.seen.contains(id) {
            (v3, Err(TurnError::DuplicateTurn))
        } else if v3.last_end matches Some(e) && span.start < e {
            (v3, Err(TurnError::OutOfOrder))
        } else {
            (
                LedgerView {
                    last_end: Some(span.end),
                    seen: bounded_push(v3.seen, id, SEEN_CAPACITY as nat),
                    ..v3
                },
                Ok(r1 || r2),
            )
        }
    }
}

/// Session scoping, replay protection and hint bookkeeping for one
/// identity session.
pub struct TurnLedger {
    turn_labels: VecDeque<(String, SpeakerLabel)>,
    pending_hint: Option<(SpeakerLabel, String, u64)>,
    last_label_session: Option<(String, String)>,
    seen: VecDeque<(String, u64, u64)>,
    session: Option<String>,
    last_end: Option<u64>,
}

impl View for TurnLedger {
    type V = LedgerView;

    closed spec fn view(&self) -> LedgerView {
        LedgerView {
            turn_labels: self.turn_labels@.map_values(|p: (String, SpeakerLabel)| (p.0@, p.1@)),
            pending_hint: match self.pending_hint {
                Some(h) => Some((h.0@, h.1@, h.2)),
                None => None,
            },
            last_label_session: match self.last_label_session {
                Some(p) => Some((p.0@, p.1@)),
                None => None,
            },
            seen: self.seen@.map_values(|p: (String, u64, u64)| (p.0@, p.1, p.2)),
            session: match self.session {
                Some(s) => Some(s@),
                None => None,
            },
            last_end: self.last_end,
        }
    }
}

impl TurnLedger {
    pub closed spec fn wf(&self) -> bool {
        &&& self.seen@.len() <= SEEN_CAPACITY
        &&& self.turn_labels@.len() <= LABEL_CAPACITY
    }

    /// The ledger stays bounded: at most `SEEN_CAPACITY` recent turns and
    /// `LABEL_CAPACITY` turn labels.
    pub proof fn lemma_bounds(&self)
        requires
            self.wf(),
        ensures
            self@.seen.len() <= SEEN_CAPACITY,
            self@.turn_labels.len() <= LABEL_CAPACITY,
    {
    }

    pub fn new() -> (r: TurnLedger)
        ensures
            r.wf(),
            r@ == empty_ledger(),
    {
        let r = TurnLedger {
            turn_labels: VecDeque::new(),
            pending_hint: None,
            last_label_session: None,
            seen: VecDeque::new(),
            session: None,
            last_end: None,
        };
        assert(r@.turn_labels =~= Seq::<(Seq<char>, LabelView)>::empty());
        assert(r@.seen =~= Seq::<EvidenceId>::empty());
        r
    }

    /// Forgets everything: sessions, replay history, labels and hints.
    pub fn reset(&mut self)
        ensures
            final(self).wf(),
            final(self)@ == empty_ledger(),
    {
        *self = TurnLedger::new();
    }

    /// Forgets labels and hints after a failed resolution while keeping the
    /// session scope and replay protection, so that the failed turn cannot
    /// be offered again.
    pub fn reset_evidence(&mut self)
        requires
            old(self).wf(),
        ensures
            final(self).wf(),
            final(self)@ == (LedgerView {
                turn_labels: Seq::empty(),
                pending_hint: None,
                ..old(self)@
            }),
    {
        self.turn_labels = VecDeque::new();
        self.pending_hint = None;
        assert(self@.turn_labels =~= Seq::<(Seq<char>, LabelView)>::empty());
    }

    fn seen_contains(&self, utterance: &String, start: u64, end: u64) -> (r: bool)
        ensures
            r == self@.seen.contains((utterance@, start, end)),
    {
        let mut i: usize = 0;
        while i < self.seen.len()
            invariant
                i <= self.seen@.len(),
                forall|j: int|
                    0 <= j < i ==> self@.seen[j] != (utterance@, start, end),
            decreases self.seen@.len() - i,
        {
            let e = &self.seen[i];
            if e.1 == start && e.2 == end && e.0 == *utterance {
                assert(self@.seen[i as int] == (utterance@, start, end));
                return true;
            }
            i = i + 1;
        }
        false
    }

    /// Offers a turn whose audio holds `audio_len` samples.
    pub fn accept_turn(&mut self, turn: &TranscriptTurn, audio_len: usize) -> (r: Admission)
        requires
            old(self).wf(),
        ensures
            final(self).wf(),
            (final(self)@, r) == spec_accept(
                old(self)@,
                turn.utterance_id@,
                turn.source_session@,
                turn.span,
                opt_label_view(turn.label),
                audio_len as nat,
            ),
    {
        let span = turn.span;
        if !(span.end > span.start && span.end - span.start == audio_len as u64) {
            return Err(TurnError::AudioSpanMismatch);
        }
        let mut reset = false;
        let session_changed = match &self.session {
            Some(s) => *s != turn.source_session,
            None => false,
        };
        if session_changed {
            self.reset();
            reset = true;
        }
        let label_session = match &turn.label {
            Some(l) => Some((l.provider.clone(), l.session.clone())),
            None => None,
        };
        let label_session_changed = match (&self.last_label_session, &label_session) {
            (Some(a), Some(b)) => !(a.0 == b.0 && a.1 == b.1),
            _ => false,
        };
        if label_session_changed {
            self.reset();
            reset = true;
        }
        if label_session.is_some() {
            self.last_label_session = label_session;
        }
        self.session = Some(turn.source_session.clone());
        if self.seen_contains(&turn.utterance_id, span.start, span.end) {
            return Err(TurnError::DuplicateTurn);
        }
        match self.last_end {
            Some(e) => {
                if span.start < e {
                    return Err(TurnError::OutOfOrder);
                }
            },
            None => {},
        }
        self.last_end = Some(span.end);
        let ghost before = self@.seen;
        if self.seen.len() >= SEEN_CAPACITY {
            self.seen.pop_front();
        }
        self.seen.push_back((turn.utterance_id.clone(), span.start, span.end));
        assert(self@.seen =~= bounded_push(
            before,
            (turn.utterance_id@, span.start, span.end),
            SEEN_CAPACITY as nat,
        ));
        Ok(reset)
    }

    /// Remembers the label of a labelled turn, keeping the most recent ones.
    pub fn note_label(&mut self, utterance: String, label: SpeakerLabel)
        requires
            old(self).wf(),
        ensures
            final(self).wf(),
            final(self)@ == (LedgerView {
                turn_labels: bounded_push(
                    old(self)@.turn_labels,
                    (utterance@, label@),
                    LABEL_CAPACITY as nat,
                ),
                ..old(self)@
            }),
    {
        let ghost before = self@.turn_labels;
        let ghost u = utterance@;
        let ghost l = label@;
        if self.turn_labels.len() >= LABEL_CAPACITY {
            self.turn_labels.pop_front();
        }
        self.turn_labels.push_back((utterance, label));
        assert(self@.turn_labels =~= bounded_push(before, (u, l), LABEL_CAPACITY as nat));
    }

    /// The label of the most recent remembered turn with this utterance id.
    pub closed spec fn latest_label(&self, utterance: Seq<char>) -> Option<LabelView> {
        latest_label_in(self@.turn_labels, utterance, self@.turn_labels.len() as int)
    }

    /// Records a hint that `user` spoke `utterance`. The user must be an
    /// enrolled candidate and the utterance a recent labelled turn; one hint
    /// replaces the previous one.
    pub fn hint(&mut self, utterance: &String, user: &String, enrolled: bool, now_ns: u64) -> (r:
        HintResult)
        requires
            old(self).wf(),
        ensures
            final(self).wf(),
            (if !enrolled {
                r == Err::<(), HintError>(HintError::NotEnrolled) && final(self)@ == old(self)@
            } else {
                match latest_label_in(
                    old(self)@.turn_labels,
                    utterance@,
                    old(self)@.turn_labels.len() as int,
                ) {
                    None => r == Err::<(), HintError>(HintError::UnknownUtterance)
                        && final(self)@ == old(self)@,
                    Some(l) => r is Ok && final(self)@ == (LedgerView {
                        pending_hint: Some((l, user@, now_ns)),
                        ..old(self)@
                    }),
                }
            }),
    {
        if !enrolled {
            return Err(HintError::NotEnrolled);
        }
        match self.find_label(utterance) {
            Some(label) => {
                self.pending_hint = Some((label, user.clone(), now_ns));
                Ok(())
            },
            None => Err(HintError::UnknownUtterance),
        }
    }

    fn find_label(&self, utterance: &String) -> (r: Option<SpeakerLabel>)
        ensures
            opt_label_view(r) == latest_label_in(
                self@.turn_labels,
                utterance@,
                self@.turn_labels.len() as int,
            ),
    {
        let mut i = self.turn_labels.len();
        while i > 0
            invariant
                self.turn_labels@.len() == self@.turn_labels.len(),
                i <= self@.turn_labels.len(),
                latest_label_in(self@.turn_labels, utterance@, self@.turn_labels.len() as int)
                    == latest_label_in(self@.turn_labels, utterance@, i as int),
            decreases i,
        {
            assert(self@.turn_labels[i - 1] == (self.turn_labels@[i - 1].0@,
                self.turn_labels@[i - 1].1@));
            if self.turn_labels[i - 1].0 == *utterance {
                return Some(self.turn_labels[i - 1].1.clone());
            }
            i = i - 1;
        }
        None
    }

    /// Consumes the pending hint. It applies to this turn when the turn has
    /// the hinted label and the hint is less than the hint window old.
    pub fn take_hint(&mut self, label: &Option<SpeakerLabel>, now_ns: u64) -> (r: TakenHint)
        requires
            old(self).wf(),
        ensures
            final(self).wf(),
            final(self)@ == (LedgerView { pending_hint: None, ..old(self)@ }),
            (match old(self)@.pending_hint {
                Some(h) => if opt_label_view(*label) == Some(h.0) && (if now_ns >= h.2 {
                    now_ns - h.2
                } else {
                    0
                }) < HINT_WINDOW_NS {
                    (r matches Some(p) && p.0@ == h.1 && p.1 == h.2)
                } else {
                    r is None
                },
                None => r is None,
            }),
    {
        let h = self.pending_hint.take();
        match h {
            Some((hl, user, at)) => {
                let matches = match label {
                    Some(l) => l.same_as(&hl),
                    None => false,
                };
                if matches && now_ns.saturating_sub(at) < HINT_WINDOW_NS {
                    Some((user, at))
                } else {
                    None
                }
            },
            None => None,
        }
    }
}

/// The label of the latest of the first `i` remembered turns with this
/// utterance id.
pub open spec fn latest_label_in(
    labels: Seq<(Seq<char>, LabelView)>,
    utterance: Seq<char>,
    i: int,
) -> Option<LabelView>
    decreases i,
{
    if i <= 0 || i > labels.len() {
        None
    } else if labels[i - 1].0 == utterance {
        Some(labels[i - 1].1)
    } else {
        latest_label_in(labels, utterance, i - 1)
    }
}

/// Replay protection: a turn that was just accepted is refused when offered
/// again, and it stays refused however often it is offered.
pub proof fn lemma_replay_refused(
    v: LedgerView,
    utterance: Seq<char>,
    source: Seq<char>,
    span: SampleSpan,
    label: Option<LabelView>,
    audio_len: nat,
)
    requires
        spec_accept(v, utterance, source, span, label, audio_len).1 is Ok,
    ensures
        ({
            let v1 = spec_accept(v, utterance, source, span, label, audio_len).0;
            let (v2, r2) = spec_accept(v1, utterance, source, span, label, audio_len);
            &&& r2 == Err::<bool, TurnError>(TurnError::DuplicateTurn)
            &&& spec_accept(v2, utterance, source, span, label, audio_len).1 == Err::<
                bool,
                TurnError,
            >(TurnError::DuplicateTurn)
        }),
{
    let v1 = spec_accept(v, utterance, source, span, label, audio_len).0;
    let id = (utterance, span.start, span.end);
    assert(v1.seen.last() == id);
    assert(v1.seen.contains(id));
    let v2 = spec_accept(v1, utterance, source, span, label, audio_len).0;
    assert(v2.seen == v1.seen);
}

/// Turns move forward: once a turn is accepted, a turn of the same sessions
/// that starts before it ended is refused.
pub proof fn lemma_out_of_order_refused(
    v: LedgerView,
    utterance: Seq<char>,
    source: Seq<char>,
    span: SampleSpan,
    label: Option<LabelView>,
    audio_len: nat,
    next_utterance: Seq<char>,
    next_span: SampleSpan,
    next_audio_len: nat,
)
    requires
        spec_accept(v, utterance, source, span, label, audio_len).1 is Ok,
        next_span.end > next_span.start,
        next_span.end - next_span.start == next_audio_len,
        next_span.start < span.end,
    ensures
        spec_accept(
            spec_accept(v, utterance, source, span, label, audio_len).0,
            next_utterance,
            source,
            next_span,
            label,
            next_audio_len,
        ).1 is Err,
{
}

/// An unlabelled turn does not hide a change of diarizer session: after it,
/// a turn labelled by another diarizer session still resets the ledger.
pub proof fn lemma_unlabelled_turn_keeps_session(
    v: LedgerView,
    u1: Seq<char>,
    source: Seq<char>,
    span1: SampleSpan,
    u2: Seq<char>,
    span2: SampleSpan,
    label2: LabelView,
    len1: nat,
    len2: nat,
)
    requires
        v.last_label_session matches Some(p) && p != (label2.0, label2.1),
        v.session == Some(source),
        span1.end > span1.start && span1.end - span1.start == len1,
        span2.end > span2.start && span2.end - span2.start == len2,
    ensures
        ({
            let (v1, _) = spec_accept(v, u1, source, span1, None, len1);
            spec_accept(v1, u2, source, span2, Some(label2), len2).1 matches Ok(reset) ==> reset
        }),
        ({
            let (v1, _) = spec_accept(v, u1, source, span1, None, len1);
            v1.last_label_session == v.last_label_session
        }),
{
}

/// What a turn is refused for, within one source session and one diarizer
/// session: it is refused exactly when its span is empty or does not match
/// its audio, when it was already seen among the remembered turns, or when
/// it starts before the previous accepted turn ended. Otherwise it is
/// accepted, without a reset, and remembered with its end.
pub proof fn lemma_turn_refusals(
    v: LedgerView,
    utterance: Seq<char>,
    source: Seq<char>,
    span: SampleSpan,
    label: Option<LabelView>,
    audio_len: nat,
)
    requires
        v.session == Some(source),
        label_session_of(label) is None || v.last_label_session is None
            || v.last_label_session == label_session_of(label),
    ensures
        ({
            let (v1, r) = spec_accept(v, utterance, source, span, label, audio_len);
            let mismatch = !(span.end > span.start && span.end - span.start == audio_len);
            let duplicate = v.seen.contains((utterance, span.start, span.end));
            let early = v.last_end matches Some(e) && span.start < e;
            &&& (r is Err <==> mismatch || duplicate || early)
            &&& (mismatch ==> r == Err::<bool, TurnError>(TurnError::AudioSpanMismatch))
            &&& (!mismatch && duplicate ==> r == Err::<bool, TurnError>(TurnError::DuplicateTurn))
            &&& (!mismatch && !duplicate && early ==> r == Err::<bool, TurnError>(
                TurnError::OutOfOrder,
            ))
            &&& (r is Ok ==> r == Ok::<bool, TurnError>(false) && v1.last_end == Some(span.end)
                && v1.seen.contains((utterance, span.start, span.end)))
        }),
{
    let (v1, r) = spec_accept(v, utterance, source, span, label, audio_len);
    if r is Ok {
        assert(v1.seen.last() == (utterance, span.start, span.end));
    }
}

} // verus!
