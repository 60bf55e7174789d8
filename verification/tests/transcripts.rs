use ragent::timeline::SampleSpan;
use ragent::transcripts::{is_blank, should_submit, turn_for, utterance_text, IngestClock};

#[test]
fn audio_is_cut_into_placed_chunks() {
    let mut c = IngestClock::new();
    let frames = c.ingest(&vec![1u8; 1500]);
    assert_eq!(frames.len(), 3);
    assert_eq!(frames[0].start_sample, 0);
    assert_eq!(frames[1].start_sample, 320);
    assert_eq!(frames[2].start_sample, 640);
    assert_eq!(frames[0].pcm16.len(), 640);
    assert_eq!(frames[2].pcm16.len(), 220);
    assert!(c.is_valid());
    assert_eq!(c.offset(), 750);
    let next = c.ingest(&vec![0u8; 2]);
    assert_eq!(next[0].start_sample, 750);
}

#[test]
fn a_split_sample_or_lost_audio_invalidates_the_clock() {
    let mut c = IngestClock::new();
    let frames = c.ingest(&vec![0u8; 3]);
    assert_eq!(frames.len(), 1);
    assert!(!c.is_valid());
    let mut c = IngestClock::new();
    c.note_lost();
    assert!(!c.is_valid());
    assert!(c.ingest(&vec![]).is_empty());
}

#[test]
fn transcripts_are_announced_with_utterance_and_speaker() {
    assert_eq!(
        utterance_text("u1", &Some("2".into()), "Hello"),
        "[Utterance:u1 Speaker:2] Hello"
    );
    assert_eq!(utterance_text("u1", &None, "Hi"), "[Utterance:u1 Speaker:Unknown] Hi");
    assert!(is_blank(" \n\t"));
    assert!(!is_blank(" a "));
}

#[test]
fn final_transcripts_become_absolute_turns() {
    let t = turn_for(
        "u".into(),
        "sess".into(),
        1000,
        SampleSpan { start: 10, end: 20 },
        Some("0".into()),
    )
    .unwrap();
    assert_eq!(t.span, SampleSpan { start: 1010, end: 1020 });
    let l = t.label.unwrap();
    assert_eq!((l.provider.as_str(), l.session.as_str(), l.local.as_str()), ("transcriber", "sess", "0"));
    assert!(turn_for("u".into(), "s".into(), u64::MAX, SampleSpan { start: 0, end: 1 }, None).is_none());
    let t = turn_for("u".into(), "s".into(), 5, SampleSpan { start: 0, end: 1 }, None).unwrap();
    assert!(t.label.is_none());
}

#[test]
fn only_final_timed_transcripts_on_a_valid_clock_are_submitted() {
    assert!(should_submit(true, true, true));
    assert!(!should_submit(false, true, true));
    assert!(!should_submit(true, false, true));
    assert!(!should_submit(true, true, false));
}
