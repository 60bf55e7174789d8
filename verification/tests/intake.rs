use ragent::diarization::{DiarizationSegment, SpeakerLabel};
use ragent::intake::{Intake, IntakeError};
use ragent::timeline::{AudioFrame, SampleSpan};

fn seg(start: u64, end: u64) -> DiarizationSegment {
    DiarizationSegment {
        label: SpeakerLabel { provider: "p".into(), session: "s".into(), local: "0".into() },
        span: SampleSpan { start, end },
        overlap: false,
    }
}

#[test]
fn frames_must_hold_one_second_at_most() {
    assert_eq!(Intake::check_frame(&AudioFrame { start_sample: 0, pcm16: vec![] }), Err(IntakeError::FrameSize));
    assert_eq!(Intake::check_frame(&AudioFrame { start_sample: 0, pcm16: vec![0; 32002] }), Err(IntakeError::FrameSize));
    assert_eq!(Intake::check_frame(&AudioFrame { start_sample: 0, pcm16: vec![0; 32000] }), Ok(()));
}

#[test]
fn a_live_session_starts_with_the_first_frame_and_after_a_gap() {
    let mut i = Intake::new(true);
    let f = AudioFrame { start_sample: 0, pcm16: vec![0; 3200] };
    assert!(!i.begin_frame(&f));
    assert_eq!(i.record(&f, false), Ok(Some(1)));
    let f2 = AudioFrame { start_sample: 1600, pcm16: vec![0; 3200] };
    assert!(!i.begin_frame(&f2));
    assert_eq!(i.record(&f2, false), Ok(None));
    assert!(i.add_segment(1, seg(0, 100)));
    assert_eq!(i.segments().len(), 1);
    let gap = AudioFrame { start_sample: 9000, pcm16: vec![0; 3200] };
    assert!(i.begin_frame(&gap));
    assert!(i.segments().is_empty());
    assert!(!i.add_segment(1, seg(0, 100)));
    assert_eq!(i.record(&gap, false), Ok(Some(3)));
    assert_eq!(i.end_sample(), 10600);
    assert_eq!(i.clip(SampleSpan { start: 9000, end: 9100 }).unwrap().len(), 100);
    assert!(i.clip(SampleSpan { start: 0, end: 100 }).is_err());
}

#[test]
fn closed_or_failed_sessions_are_replaced() {
    let mut i = Intake::new(true);
    let f = AudioFrame { start_sample: 0, pcm16: vec![0; 2] };
    assert_eq!(i.record(&f, false), Ok(Some(1)));
    let f = AudioFrame { start_sample: 1, pcm16: vec![0; 2] };
    assert_eq!(i.record(&f, true), Ok(Some(2)));
    i.live_failed();
    let f = AudioFrame { start_sample: 2, pcm16: vec![0; 2] };
    assert_eq!(i.record(&f, false), Ok(Some(4)));
    i.live_ended(3);
    let f = AudioFrame { start_sample: 3, pcm16: vec![0; 2] };
    assert_eq!(i.record(&f, false), Ok(None));
    i.live_ended(4);
    let f = AudioFrame { start_sample: 4, pcm16: vec![0; 2] };
    assert_eq!(i.record(&f, false), Ok(Some(5)));
}

#[test]
fn without_a_diarizer_no_session_is_started_and_segments_are_bounded() {
    let mut i = Intake::new(false);
    assert!(!i.uses_external_diarizer());
    assert_eq!(i.record(&AudioFrame { start_sample: 0, pcm16: vec![0; 2] }, false), Ok(None));
    for k in 0..300u64 {
        assert!(i.add_segment(0, seg(k, k + 1)));
    }
    let s = i.segments();
    assert_eq!(s.len(), 256);
    assert_eq!(s[0].span.start, 44);
}

#[test]
fn turn_parts_follow_the_diarizer_when_there_is_one() {
    let span = SampleSpan { start: 0, end: 100 };
    let own = Some(SpeakerLabel { provider: "transcriber".into(), session: "s".into(), local: "1".into() });
    let parts = ragent::intake::turn_parts(span, own.clone(), false, &[]);
    assert_eq!(parts.len(), 1);
    assert_eq!(parts[0].0, span);
    assert_eq!(parts[0].1, own);
    let segs = vec![seg(0, 100)];
    let parts = ragent::intake::turn_parts(span, None, true, &segs);
    assert_eq!(parts.len(), 1);
    assert_eq!(parts[0].1.as_ref().map(|l| l.local.as_str()), Some("0"));
}

#[test]
fn part_samples_are_cut_from_the_turn() {
    let samples: Vec<f32> = (0..10).map(|x| x as f32).collect();
    let part = ragent::intake::part_samples(&samples, SampleSpan { start: 100, end: 110 }, SampleSpan { start: 103, end: 106 });
    assert_eq!(part, vec![3.0, 4.0, 5.0]);
}

#[test]
fn a_new_intake_starts_at_generation_zero() {
    let intake = Intake::new(false);
    assert_eq!(intake.generation(), 0);
}
