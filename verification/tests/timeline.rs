use ragent::timeline::{AudioFrame, AudioTimeline, SampleSpan, TimelineError};

fn frame(start: u64, samples: &[i16]) -> AudioFrame {
    AudioFrame {
        start_sample: start,
        pcm16: samples.iter().flat_map(|s| s.to_le_bytes()).collect(),
    }
}

#[test]
fn clip_reads_back_pushed_samples() {
    let mut t = AudioTimeline::new(1).unwrap();
    t.push(&frame(100, &[1, -1, 32767, -32768, 5])).unwrap();
    assert_eq!(t.end_sample(), 105);
    assert_eq!(t.clip(SampleSpan::new(101, 104).unwrap()).unwrap(), vec![-1, 32767, -32768]);
    t.push(&frame(105, &[7, 8])).unwrap();
    assert_eq!(t.clip(SampleSpan::new(104, 107).unwrap()).unwrap(), vec![5, 7, 8]);
}

#[test]
fn discontinuity_discards_history() {
    let mut t = AudioTimeline::new(1).unwrap();
    t.push(&frame(0, &[1, 2, 3])).unwrap();
    t.push(&frame(10, &[4])).unwrap();
    assert_eq!(
        t.clip(SampleSpan::new(0, 3).unwrap()),
        Err(TimelineError::AudioUnavailable)
    );
    assert_eq!(t.clip(SampleSpan::new(10, 11).unwrap()).unwrap(), vec![4]);
}

#[test]
fn capacity_evicts_oldest_samples() {
    let mut t = AudioTimeline::new(1).unwrap();
    let samples: Vec<i16> = (0..20000).map(|i| (i % 1000) as i16).collect();
    t.push(&frame(0, &samples)).unwrap();
    assert!(t.clip(SampleSpan::new(3999, 4001).unwrap()).is_err());
    assert_eq!(t.clip(SampleSpan::new(4000, 4002).unwrap()).unwrap(), vec![0, 1]);
}

#[test]
fn invalid_frames_and_histories_are_rejected() {
    assert_eq!(AudioTimeline::new(0).err(), Some(TimelineError::InvalidDuration));
    assert!(AudioTimeline::new(121).is_err());
    let mut t = AudioTimeline::new(120).unwrap();
    assert_eq!(
        t.push(&AudioFrame { start_sample: 0, pcm16: vec![1, 2, 3] }),
        Err(TimelineError::IncompleteSample)
    );
    assert_eq!(
        t.push(&AudioFrame { start_sample: 0, pcm16: vec![0; 960002] }),
        Err(TimelineError::FrameTooLong)
    );
    assert!(SampleSpan::new(5, 5).is_err());
    assert_eq!(SampleSpan::new(0, 10).unwrap().overlap(SampleSpan::new(5, 20).unwrap()), 5);
    assert_eq!(SampleSpan::new(0, 10).unwrap().overlap(SampleSpan::new(10, 20).unwrap()), 0);
}
