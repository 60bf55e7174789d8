use ragent::diarization::SpeakerLabel;
use ragent::fusion::{has_duplicate_ids, FusionBook, IdentityConfidence, ProximityBucket};

const S: u64 = 1_000_000_000;

fn label(local: &str) -> Option<SpeakerLabel> {
    Some(SpeakerLabel {
        provider: "test".into(),
        session: "session".into(),
        local: local.into(),
    })
}

fn s(x: &str) -> String {
    x.to_string()
}

#[test]
fn proximity_buckets_follow_signal_strength() {
    assert_eq!(ProximityBucket::from_rssi(-40), ProximityBucket::VeryClose);
    assert_eq!(ProximityBucket::from_rssi(-50), ProximityBucket::InRoom);
    assert_eq!(ProximityBucket::from_rssi(-74), ProximityBucket::InRoom);
    assert_eq!(ProximityBucket::from_rssi(-75), ProximityBucket::NotDetected);
}

#[test]
fn confidence_names_are_lower_case() {
    assert_eq!(IdentityConfidence::High.as_str(), "high");
    assert_eq!(IdentityConfidence::Medium.as_str(), "medium");
    assert_eq!(IdentityConfidence::Unknown.as_str(), "unknown");
}

#[test]
fn run_length_must_be_between_one_and_ten() {
    assert!(FusionBook::new(0).is_none());
    assert!(FusionBook::new(11).is_none());
    assert!(FusionBook::new(1).is_some());
    assert!(FusionBook::new(10).is_some());
}

#[test]
fn commit_needs_repeated_strong_turns_of_one_voice() {
    let mut b = FusionBook::new(2).unwrap();
    let now = 5 * S;
    assert!(!b.begin(&s("m")));
    assert_eq!(b.commit(&s("alice"), true, true, true, &label("0"), now), IdentityConfidence::Medium);
    assert_eq!(b.commit(&s("alice"), true, true, true, &label("0"), now), IdentityConfidence::High);
    // Hints and proximity cannot lift a weak voice.
    for _ in 0..20 {
        b.hint(s("3"), s("alice"), now);
        b.set_proximity(s("alice"), ProximityBucket::VeryClose, now);
        let c = b.corroborate(&s("alice"), &s("3"), &label("0"), now);
        assert!(c.hinted);
        assert_eq!(c.proximity, Some(ProximityBucket::VeryClose));
        assert_eq!(b.commit(&s("alice"), false, false, true, &label("0"), now), IdentityConfidence::Unknown);
    }
    // Another voice starts its own run.
    assert_eq!(b.commit(&s("bob"), true, true, true, &label("0"), now), IdentityConfidence::Medium);
    assert_eq!(b.commit(&s("bob"), true, true, true, &label("0"), now), IdentityConfidence::High);
}

#[test]
fn strong_runs_expire_and_weak_fused_scores_stay_medium() {
    let mut b = FusionBook::new(2).unwrap();
    assert_eq!(b.commit(&s("a"), true, true, true, &None, 0), IdentityConfidence::Medium);
    assert_eq!(b.commit(&s("a"), true, true, true, &None, 60 * S), IdentityConfidence::Medium);
    assert_eq!(b.commit(&s("a"), true, true, false, &None, 61 * S), IdentityConfidence::Medium);
    assert_eq!(b.commit(&s("a"), true, false, false, &None, 62 * S), IdentityConfidence::Unknown);
}

#[test]
fn model_change_resets_the_run() {
    let mut b = FusionBook::new(2).unwrap();
    assert!(!b.begin(&s("old")));
    assert_eq!(b.commit(&s("a"), true, true, true, &None, 0), IdentityConfidence::Medium);
    assert!(b.begin(&s("new")));
    assert_eq!(b.commit(&s("a"), true, true, true, &None, 1), IdentityConfidence::Medium);
    assert!(!b.begin(&s("new")));
}

#[test]
fn hints_are_used_once_and_only_for_their_turn() {
    let mut b = FusionBook::new(1).unwrap();
    b.hint(s("u1"), s("alice"), 0);
    assert!(!b.corroborate(&s("alice"), &s("u2"), &None, 1).hinted);
    assert!(!b.corroborate(&s("alice"), &s("u1"), &None, 1).hinted);
    b.hint(s("u1"), s("alice"), 0);
    assert!(!b.corroborate(&s("alice"), &s("u1"), &None, 45 * S).hinted);
    b.hint(s("u1"), s("alice"), 0);
    assert!(b.corroborate(&s("alice"), &s("u1"), &None, 44 * S).hinted);
}

#[test]
fn continuity_comes_only_from_recent_commits() {
    let mut b = FusionBook::new(1).unwrap();
    assert_eq!(b.commit(&s("a"), true, true, true, &label("0"), 0), IdentityConfidence::High);
    let c = b.corroborate(&s("a"), &s("t"), &label("0"), 10 * S);
    assert!(c.continuity && c.same_label);
    let c = b.corroborate(&s("a"), &s("t"), &label("1"), 10 * S);
    assert!(c.continuity && !c.same_label);
    assert!(!b.corroborate(&s("a"), &s("t"), &label("0"), 20 * S).continuity);
    assert!(!b.corroborate(&s("b"), &s("t"), &label("0"), 1).continuity);
    assert_eq!(b.commit(&s("a"), false, true, true, &label("0"), 1), IdentityConfidence::Medium);
    assert!(!b.corroborate(&s("a"), &s("t"), &label("0"), 2).continuity);
}

#[test]
fn stale_proximity_is_dropped() {
    let mut b = FusionBook::new(1).unwrap();
    b.set_proximity(s("a"), ProximityBucket::InRoom, 0);
    b.set_proximity(s("a"), ProximityBucket::VeryClose, 5 * S);
    assert_eq!(b.corroborate(&s("a"), &s("t"), &None, 34 * S).proximity, Some(ProximityBucket::VeryClose));
    assert_eq!(b.corroborate(&s("a"), &s("t"), &None, 35 * S).proximity, None);
    assert_eq!(b.corroborate(&s("a"), &s("t"), &None, 6 * S).proximity, None);
}

#[test]
fn duplicate_candidates_are_detected() {
    assert!(!has_duplicate_ids(&vec![s("a"), s("b")]));
    assert!(has_duplicate_ids(&vec![s("a"), s("b"), s("a")]));
    assert!(!has_duplicate_ids(&vec![]));
}
