use ragent::diarization::SpeakerLabel;
use ragent::timeline::SampleSpan;
use ragent::turns::{HintError, TranscriptTurn, TurnError, TurnLedger};

fn label(session: &str, local: &str) -> Option<SpeakerLabel> {
    Some(SpeakerLabel { provider: "p".into(), session: session.into(), local: local.into() })
}

fn turn(id: &str, session: &str, start: u64, end: u64, label: Option<SpeakerLabel>) -> TranscriptTurn {
    TranscriptTurn {
        utterance_id: id.into(),
        source_session: session.into(),
        span: SampleSpan { start, end },
        label,
    }
}

#[test]
fn replayed_and_out_of_order_turns_are_refused() {
    let mut l = TurnLedger::new();
    let t = turn("u1", "src", 0, 16000, label("d", "0"));
    assert_eq!(l.accept_turn(&t, 16000), Ok(false));
    assert_eq!(l.accept_turn(&t, 16000), Err(TurnError::DuplicateTurn));
    assert_eq!(l.accept_turn(&turn("u2", "src", 100, 200, None), 100), Err(TurnError::OutOfOrder));
    assert_eq!(l.accept_turn(&turn("u3", "src", 16000, 16010, None), 9), Err(TurnError::AudioSpanMismatch));
    assert_eq!(l.accept_turn(&turn("u3", "src", 16000, 16010, None), 10), Ok(false));
}

#[test]
fn a_new_source_or_diarizer_session_resets_the_ledger() {
    let mut l = TurnLedger::new();
    assert_eq!(l.accept_turn(&turn("u1", "a", 0, 10, label("d1", "0")), 10), Ok(false));
    assert_eq!(l.accept_turn(&turn("u1", "b", 0, 10, None), 10), Ok(true));
    assert_eq!(l.accept_turn(&turn("u2", "b", 10, 20, label("d1", "0")), 10), Ok(false));
    assert_eq!(l.accept_turn(&turn("u3", "b", 20, 30, label("d2", "0")), 10), Ok(true));
}

#[test]
fn failed_resolution_keeps_replay_protection() {
    let mut l = TurnLedger::new();
    let t = turn("same-turn", "source", 0, 16000, label("d", "0"));
    assert_eq!(l.accept_turn(&t, 16000), Ok(false));
    l.reset_evidence();
    assert_eq!(l.accept_turn(&t, 16000), Err(TurnError::DuplicateTurn));
    l.reset();
    assert_eq!(l.accept_turn(&t, 16000), Ok(false));
}

#[test]
fn hints_name_a_recent_labelled_turn_and_an_enrolled_user() {
    let mut l = TurnLedger::new();
    let s = |x: &str| x.to_string();
    assert_eq!(l.hint(&s("u1"), &s("alice"), false, 0), Err(HintError::NotEnrolled));
    assert_eq!(l.hint(&s("u1"), &s("alice"), true, 0), Err(HintError::UnknownUtterance));
    l.note_label(s("u1"), label("d", "0").unwrap());
    assert_eq!(l.hint(&s("u1"), &s("alice"), true, 0), Ok(()));
    assert_eq!(l.take_hint(&label("d", "0"), 44_000_000_000), Some((s("alice"), 0)));
    assert_eq!(l.take_hint(&label("d", "0"), 0), None);
    assert_eq!(l.hint(&s("u1"), &s("alice"), true, 0), Ok(()));
    assert_eq!(l.take_hint(&label("d", "1"), 1), None);
    assert_eq!(l.hint(&s("u1"), &s("alice"), true, 0), Ok(()));
    assert_eq!(l.take_hint(&label("d", "0"), 45_000_000_000), None);
}

#[test]
fn unlabeled_turn_does_not_hide_a_diarizer_session_change() {
    let mut l = TurnLedger::new();
    assert_eq!(l.accept_turn(&turn("old", "src", 0, 4, label("session", "0")), 4), Ok(false));
    assert_eq!(l.accept_turn(&turn("gap", "src", 64000, 64001, None), 1), Ok(false));
    assert_eq!(
        l.accept_turn(&turn("new", "src", 80000, 80004, label("new-connection", "0")), 4),
        Ok(true)
    );
}
