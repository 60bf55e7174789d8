use ragent::unknown::UnknownBook;

const S: u64 = 1_000_000_000;

#[test]
fn a_voice_is_offered_once_after_eight_seconds() {
    let mut b: UnknownBook<()> = UnknownBook::new();
    let i = b.open("c1".into(), "m".into(), (), 0);
    let take = b.retain_count(i, 64000);
    assert_eq!(take, 64000);
    assert_eq!(b.absorb(i, (), take), None);
    let take = b.retain_count(i, 64000);
    assert_eq!(b.absorb(i, (), take).as_deref(), Some("c1"));
    let take = b.retain_count(i, 64000);
    assert_eq!(take, 32000);
    assert_eq!(b.absorb(i, (), take), None);
    assert_eq!(b.retain_count(i, 10), 0);
    assert_eq!(b.claim(&"c1".to_string(), 119 * S), Some(0));
    assert_eq!(b.claim(&"c1".to_string(), 120 * S), None);
    b.remove_id(&"c1".to_string());
    assert_eq!(b.len(), 0);
}

#[test]
fn unknown_voices_are_bounded_and_expire() {
    let mut b: UnknownBook<u32> = UnknownBook::new();
    for k in 0..9u32 {
        b.open(format!("c{k}"), "m".into(), k, k as u64 * S);
    }
    assert_eq!(b.len(), 8);
    assert_eq!(b.cluster(0).id, "c1");
    assert_eq!(b.cluster(7).payload, 8);
    b.expire(121 * S + 500);
    assert_eq!(b.len(), 7);
    assert_eq!(b.cluster(0).id, "c2");
    assert_eq!(b.claim(&"c2".to_string(), 121 * S), None);
}
