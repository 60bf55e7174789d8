use ragent::diarization::{label_span, split_speaker_span, DiarizationSegment, SpeakerLabel};
use ragent::timeline::{AudioFrame, AudioTimeline, SampleSpan};

fn label(local: &str) -> SpeakerLabel {
    SpeakerLabel {
        provider: "test".into(),
        session: "session".into(),
        local: local.into(),
    }
}

#[test]
fn timeline_rejects_missing_evicted_and_overflowed_audio() {
    let mut t = AudioTimeline::new(1).unwrap();
    t.push(&AudioFrame {
        start_sample: 0,
        pcm16: vec![0; 32000],
    })
    .unwrap();
    assert_eq!(t.clip(SampleSpan::new(0, 16000).unwrap()).unwrap().len(), 16000);
    t.push(&AudioFrame {
        start_sample: 20000,
        pcm16: vec![0; 32000],
    })
    .unwrap();
    assert!(t.clip(SampleSpan::new(15000, 21000).unwrap()).is_err());
    assert!(t
        .push(&AudioFrame {
            start_sample: u64::MAX,
            pcm16: vec![0; 2]
        })
        .is_err());
}

#[test]
fn mixed_or_overlapping_speakers_never_receive_one_identity() {
    let span = SampleSpan::new(0, 32000).unwrap();
    let mut segments = vec![DiarizationSegment {
        label: label("0"),
        span,
        overlap: false,
    }];
    assert_eq!(label_span(span, &segments), Some(label("0")));
    segments.push(DiarizationSegment {
        label: label("1"),
        span: SampleSpan::new(10000, 11000).unwrap(),
        overlap: false,
    });
    assert_eq!(label_span(span, &segments), None);
    segments.pop();
    segments[0].overlap = true;
    assert_eq!(label_span(span, &segments), None);
}

#[test]
fn split_multi_speaker_transcript_preserves_unknown_overlap() {
    let segments = vec![
        DiarizationSegment {
            label: label("a"),
            span: SampleSpan {
                start: 0,
                end: 32000,
            },
            overlap: false,
        },
        DiarizationSegment {
            label: label("b"),
            span: SampleSpan {
                start: 32000,
                end: 64000,
            },
            overlap: false,
        },
    ];
    let parts = split_speaker_span(
        SampleSpan {
            start: 0,
            end: 64000,
        },
        &segments,
    );
    assert_eq!(parts.len(), 2);
    assert_eq!(parts[0].1, Some(label("a")));
    assert_eq!(parts[1].1, Some(label("b")));
}
