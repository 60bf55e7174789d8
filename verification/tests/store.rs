use ragent::store::{snapshot_path, validate_profiles, FileProfileStore, ProfileEntry, ProfileError, TemplateSummary};

fn entry(user: &str, model: &str, template: TemplateSummary) -> ProfileEntry {
    ProfileEntry { user_id: user.into(), model_id: model.into(), template }
}

#[test]
fn scopes_get_digest_named_snapshots() {
    let s = FileProfileStore::new("/tmp/voices", "space-a");
    let p = s.path();
    assert!(p.starts_with("/tmp/voices/"));
    assert!(p.ends_with(".json"));
    assert_eq!(p.len(), "/tmp/voices/".len() + 64 + 5);
    let other = FileProfileStore::new("/tmp/voices/", "space-b");
    assert_ne!(p, other.path());
    // SHA-256 of the empty string.
    let e = FileProfileStore::new("", "");
    assert_eq!(e.path(), "e3b0c44298fc1c149afbf4c8996fb92427ae41e4649b934ca495991b7852b855.json");
}

#[test]
fn snapshot_names_are_hex_digests() {
    assert_eq!(snapshot_path("d", &vec![0x00, 0xab, 0x7f]), "d/00ab7f.json");
    assert_eq!(snapshot_path("d/", &vec![]), "d/.json");
}

#[test]
fn galleries_are_validated() {
    let ok = entry("alice", "m", TemplateSummary::Opaque { bytes: 10 });
    assert_eq!(validate_profiles(&[ok]), Ok(()));
    assert_eq!(
        validate_profiles(&[entry("", "m", TemplateSummary::Embedding { valid: true })]),
        Err(ProfileError::InvalidProfileId)
    );
    assert_eq!(
        validate_profiles(&[
            entry("a", "m", TemplateSummary::Embedding { valid: true }),
            entry("a", "m", TemplateSummary::Embedding { valid: true }),
        ]),
        Err(ProfileError::DuplicateProfile)
    );
    assert_eq!(
        validate_profiles(&[entry("a", "m", TemplateSummary::Opaque { bytes: 0 })]),
        Err(ProfileError::InvalidTemplate)
    );
    assert_eq!(
        validate_profiles(&[entry("a", "m", TemplateSummary::Embedding { valid: false })]),
        Err(ProfileError::InvalidTemplate)
    );
    let many: Vec<ProfileEntry> = (0..129)
        .map(|i| entry(&format!("u{i}"), "m", TemplateSummary::Embedding { valid: true }))
        .collect();
    assert_eq!(validate_profiles(&many), Err(ProfileError::TooManyProfiles));
}
