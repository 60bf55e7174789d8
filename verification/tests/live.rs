use ragent::diarization::DiarizationSegment;
use ragent::live::{LiveError, LiveEvent, LivePacer, LiveTurns, PaceError};
use ragent::timeline::{AudioFrame, SampleSpan};

/// The event a Live-1 JSON message carries, with its timestamp placed on
/// the source timeline as the live diarizer client does.
fn event(text: &str, origin: u64, sent: u64) -> LiveEvent {
    let v: serde_json::Value = serde_json::from_str(text).unwrap();
    let kind = v["type"].as_str().unwrap_or("");
    let at = |v: &serde_json::Value| {
        let t = v["data"]["timestamp"].as_f64().unwrap();
        assert!(t.is_finite() && t >= 0. && t * 16000.0 <= sent as f64 + 1.);
        origin + (t * 16000.0).round() as u64
    };
    match kind {
        "diarization_speaker_start" => LiveEvent::Start {
            speaker: v["data"]["speaker"].as_str().unwrap().to_string(),
            at: at(&v),
        },
        "diarization_speaker_end" => LiveEvent::End {
            speaker: v["data"]["speaker"].as_str().unwrap().to_string(),
            at: at(&v),
        },
        "error" => LiveEvent::Error,
        _ => LiveEvent::Other,
    }
}

#[test]
fn live_overlap_is_marked_and_session_scoped() {
    let mut p = LiveTurns::new();
    let session = "session".to_string();
    p.event(
        event(r#"{"type":"diarization_speaker_start","data":{"speaker":"S0","timestamp":0.0}}"#, 100, 32000),
        &session,
    )
    .unwrap();
    p.event(
        event(r#"{"type":"diarization_speaker_start","data":{"speaker":"S1","timestamp":0.5}}"#, 100, 32000),
        &session,
    )
    .unwrap();
    let e = p
        .event(
            event(r#"{"type":"diarization_speaker_end","data":{"speaker":"S0","timestamp":1.0}}"#, 100, 32000),
            &session,
        )
        .unwrap()
        .unwrap();
    assert!(e.overlap);
    assert_eq!(e.span, SampleSpan { start: 100, end: 16100 });
    assert_eq!(e.label.session, "session");
}

#[test]
fn live_protocol_errors_are_reported() {
    let mut p = LiveTurns::new();
    let session = "s".to_string();
    assert_eq!(
        p.event(LiveEvent::End { speaker: "A".into(), at: 5 }, &session).unwrap_err(),
        LiveError::EndWithoutStart
    );
    p.event(LiveEvent::Start { speaker: "A".into(), at: 5 }, &session).unwrap();
    assert_eq!(
        p.event(LiveEvent::Start { speaker: "A".into(), at: 6 }, &session).unwrap_err(),
        LiveError::InvalidStart
    );
    assert_eq!(
        p.event(LiveEvent::End { speaker: "A".into(), at: 5 }, &session).unwrap_err(),
        LiveError::InvalidSpan
    );
    assert_eq!(p.event(LiveEvent::Error, &session).unwrap_err(), LiveError::ProtocolError);
    assert!(p.event(LiveEvent::Other, &session).unwrap().is_none());
    let seg = p.event(LiveEvent::Start { speaker: "B".into(), at: 7 }, &session);
    assert!(seg.unwrap().is_none());
    let e = p.event(LiveEvent::End { speaker: "B".into(), at: 9 }, &session).unwrap().unwrap();
    assert!(!e.overlap);
    assert_eq!(e.label.provider, "pyannote-live-1");
    assert_eq!(e.label.local, "B");
}

#[test]
fn at_most_eight_speakers_talk_at_once() {
    let mut p = LiveTurns::new();
    let session = "s".to_string();
    for i in 0..8 {
        p.event(LiveEvent::Start { speaker: format!("S{i}"), at: i }, &session).unwrap();
    }
    assert_eq!(
        p.event(LiveEvent::Start { speaker: "S8".into(), at: 9 }, &session).unwrap_err(),
        LiveError::InvalidStart
    );
}

#[test]
fn pacer_sends_full_chunks_then_a_padded_tail() {
    let first = AudioFrame {
        start_sample: 32000,
        pcm16: (0..1700).flat_map(|_| 16384i16.to_le_bytes()).collect(),
    };
    let mut p = LivePacer::new(&first).unwrap();
    assert!(p.wants_audio());
    let c = p.next_chunk().unwrap();
    assert_eq!(c.len(), 3200);
    assert_eq!(p.sent(), 1600);
    assert!(p.next_chunk().is_none());
    p.finish_input();
    assert!(!p.wants_audio());
    let c = p.next_chunk().unwrap();
    assert_eq!(c.len(), 3200);
    assert_eq!(&c[0..2], &16384i16.to_le_bytes());
    assert_eq!(&c[200..204], &[0, 0, 0, 0]);
    assert_eq!(p.sent(), 3200);
    assert!(p.drained());
    let seg = DiarizationSegment {
        label: ragent::diarization::SpeakerLabel {
            provider: "pyannote-live-1".into(),
            session: "live-session".into(),
            local: "S0".into(),
        },
        span: SampleSpan { start: 32000, end: 32000 + 3200 },
        overlap: false,
    };
    let seg = p.clamp(seg).unwrap();
    assert_eq!(seg.span, SampleSpan { start: 32000, end: 33700 });
}

#[test]
fn pacer_refuses_bad_frames() {
    assert_eq!(
        LivePacer::new(&AudioFrame { start_sample: 0, pcm16: vec![] }).err(),
        Some(PaceError::InvalidFirstFrame)
    );
    assert_eq!(
        LivePacer::new(&AudioFrame { start_sample: 0, pcm16: vec![0; 3] }).err(),
        Some(PaceError::InvalidFirstFrame)
    );
    let mut p = LivePacer::new(&AudioFrame { start_sample: 10, pcm16: vec![0; 4] }).unwrap();
    assert_eq!(
        p.accept(&AudioFrame { start_sample: 11, pcm16: vec![0; 4] }),
        Err(PaceError::Discontinuity)
    );
    assert_eq!(
        p.accept(&AudioFrame { start_sample: 12, pcm16: vec![0; 32002] }),
        Err(PaceError::FrameTooLong)
    );
    assert_eq!(p.accept(&AudioFrame { start_sample: 12, pcm16: vec![0; 4] }), Ok(()));
}

#[test]
fn segments_after_the_last_real_sample_are_dropped() {
    let p = LivePacer::new(&AudioFrame { start_sample: 100, pcm16: vec![0; 4] }).unwrap();
    let seg = DiarizationSegment {
        label: ragent::diarization::SpeakerLabel {
            provider: "p".into(),
            session: "s".into(),
            local: "l".into(),
        },
        span: SampleSpan { start: 100, end: 200 },
        overlap: false,
    };
    assert!(p.clamp(seg).is_none());
}
