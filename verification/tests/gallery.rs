use ragent::gallery::{enrolled, forget_user, profile_exists, replace_profile, valid_user_id, Profile};

fn p(user: &str, model: &str, t: u8) -> Profile<u8> {
    Profile { user_id: user.into(), model_id: model.into(), template: t, sample_count: 3 }
}

fn ids(ps: &[Profile<u8>]) -> Vec<(String, String, u8, u32)> {
    ps.iter().map(|p| (p.user_id.clone(), p.model_id.clone(), p.template, p.sample_count)).collect()
}

#[test]
fn enrollment_replaces_the_users_profile_for_the_model() {
    let ps = vec![p("alice", "m", 1), p("bob", "m", 2), p("alice", "n", 3)];
    let next = replace_profile(ps, "alice".into(), "m".into(), 9);
    assert_eq!(
        ids(&next),
        vec![
            ("bob".into(), "m".into(), 2, 3),
            ("alice".into(), "n".into(), 3, 3),
            ("alice".into(), "m".into(), 9, 1),
        ]
    );
}

#[test]
fn forgetting_removes_every_profile_of_the_user() {
    let ps = vec![p("alice", "m", 1), p("bob", "m", 2), p("alice", "n", 3)];
    let next = forget_user(ps, &"alice".to_string());
    assert_eq!(ids(&next), vec![("bob".into(), "m".into(), 2, 3)]);
    assert!(!enrolled(&next, &"alice".to_string()));
    assert!(enrolled(&next, &"bob".to_string()));
    assert!(profile_exists(&next, &"bob".to_string(), &"m".to_string()));
    assert!(!profile_exists(&next, &"bob".to_string(), &"n".to_string()));
}

#[test]
fn user_ids_are_one_to_256_bytes() {
    assert!(!valid_user_id(&String::new()));
    assert!(valid_user_id(&"a".repeat(256)));
    assert!(!valid_user_id(&"a".repeat(257)));
    assert!(!valid_user_id(&"é".repeat(129)));
}
