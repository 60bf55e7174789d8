//! Voice-profile gallery rules: where a scope's snapshot lives and which
//! galleries are acceptable.
use sha2::Digest;
use vstd::prelude::*;
use vstd::utf8::encode_utf8;
use crate::text::push_char;

verus! {

/// The SHA-256 digest of `data`, as `sha2` computes it.
pub uninterp spec fn sha256_digest(data: Seq<u8>) -> Seq<u8>;

/// `sha2::Sha256::digest`: the 32-byte SHA-256 digest of `data`.
#[verifier::external_body]
fn sha256(data: &[u8]) -> (r: Vec<u8>)
    ensures
        r@ == sha256_digest(data@),
        r@.len() == 32,
{
    <sha2::Sha256 as Digest>::digest(data).to_vec()
}

/// The lower-case hexadecimal digit for `n < 16`.
pub open spec fn hex_digit(n: int) -> char {
    if n < 10 {
        (48 + n) as char
    } else {
        (87 + n) as char
    }
}

/// Lower-case hexadecimal, two digits per byte, high nibble first.
pub open spec fn hex_lower(bytes: Seq<u8>) -> Seq<char> {
    Seq::new(
        2 * bytes.len(),
        |i: int|
            if i % 2 == 0 {
                hex_digit(bytes[i / 2] as int / 16)
            } else {
                hex_digit(bytes[i / 2] as int % 16)
            },
    )
}

fn hex_char(n: u8) -> (r: char)
    requires
        n < 16,
    ensures
        r == hex_digit(n as int),
{
    if n < 10 {
        (48 + n) as char
    } else {
        (87 + n) as char
    }
}

/// Joins a relative file name onto a directory, adding a `/` unless the
/// directory is empty or already ends in one.
pub open spec fn path_join(dir: Seq<char>, name: Seq<char>) -> Seq<char> {
    if dir.len() == 0 {
        name
    } else if dir.last() == '/' {
        dir + name
    } else {
        dir.push('/') + name
    }
}

/// The snapshot path of a scope: `<dir>/<sha256(scope) in hex>.json`.
pub open spec fn spec_profile_path(directory: Seq<char>, scope: Seq<char>) -> Seq<char> {
    path_join(
        directory,
        hex_lower(sha256_digest(encode_utf8(scope))) + seq!['.', 'j', 's', 'o', 'n'],
    )
}

/// The snapshot path for a scope whose digest is `digest`:
/// `<directory>/<digest in lower-case hex>.json`.
pub fn snapshot_path(directory: &str, digest: &Vec<u8>) -> (r: String)
    ensures
        r@ == path_join(directory@, hex_lower(digest@) + seq!['.', 'j', 's', 'o', 'n']),
{
    let mut name = String::new();
    let mut i: usize = 0;
    while i < digest.len()
        invariant
            i <= digest@.len(),
            name@ == hex_lower(digest@.take(i as int)),
        decreases digest@.len() - i,
    {
        let b = digest[i];
        push_char(&mut name, hex_char(b / 16));
        push_char(&mut name, hex_char(b % 16));
        i = i + 1;
        assert(name@ =~= hex_lower(digest@.take(i as int)));
    }
    assert(digest@.take(i as int) =~= digest@);
    push_char(&mut name, '.');
    push_char(&mut name, 'j');
    push_char(&mut name, 's');
    push_char(&mut name, 'o');
    push_char(&mut name, 'n');
    let mut path = String::from_str(directory);
    let n = directory.unicode_len();
    if n > 0 && directory.get_char(n - 1) != '/' {
        push_char(&mut path, '/');
    }
    path.append(name.as_str());
    assert(path@ =~= path_join(directory@, hex_lower(digest@) + seq!['.', 'j', 's', 'o', 'n']));
    path
}

/// Local deployment store: one snapshot file per scope, named by a digest of
/// the scope so that scopes never share a file.
pub struct FileProfileStore {
    path: String,
}

impl FileProfileStore {
    pub fn new(directory: &str, scope: &str) -> (r: FileProfileStore)
        ensures
            r.path_view() == spec_profile_path(directory@, scope@),
    {
        let digest = sha256(scope.as_bytes());
        FileProfileStore { path: snapshot_path(directory, &digest) }
    }

    pub closed spec fn path_view(&self) -> Seq<char> {
        self.path@
    }

    /// Where this scope's snapshot is kept.
    pub fn path(&self) -> (r: &String)
        ensures
            r@ == self.path_view(),
    {
        &self.path
    }
}

/// The most profiles one gallery may hold.
pub const MAX_PROFILES: usize = 128;

/// What validation needs to know of a stored voice template.
#[derive(Clone, Copy, Debug, PartialEq, Eq, Structural)]
pub enum TemplateSummary {
    /// An embedding, with whether it is a finite, non-zero vector of at most
    /// 4096 components.
    Embedding { valid: bool },
    /// An opaque provider voiceprint of `bytes` bytes.
    Opaque { bytes: usize },
}

/// The identifying part of a stored profile.
pub struct ProfileEntry {
    pub user_id: String,
    pub model_id: String,
    pub template: TemplateSummary,
}

#[derive(Clone, Copy, Debug, PartialEq, Eq, Structural)]
pub enum ProfileError {
    TooManyProfiles,
    InvalidProfileId,
    DuplicateProfile,
    InvalidTemplate,
}

/// An id is 1 to 256 bytes of UTF-8 (as `str::len` reports it).
pub open spec fn id_ok(id: Seq<char>) -> bool {
    0 < (encode_utf8(id).len() as usize) <= 256
}

pub open spec fn template_ok(t: TemplateSummary) -> bool {
    match t {
        TemplateSummary::Embedding { valid } => valid,
        TemplateSummary::Opaque { bytes } => 0 < bytes <= 1048576,
    }
}

/// The first problem found walking the profiles in order, if any.
pub open spec fn first_profile_error(es: Seq<ProfileEntry>, i: int) -> Option<ProfileError>
    decreases es.len() - i,
{
    if i < 0 || i >= es.len() {
        None
    } else if !(id_ok(es[i].user_id@) && id_ok(es[i].model_id@)) {
        Some(ProfileError::InvalidProfileId)
    } else if exists|j: int|
        0 <= j < i && es[j].user_id@ == es[i].user_id@ && es[j].model_id@ == es[i].model_id@ {
        Some(ProfileError::DuplicateProfile)
    } else if !template_ok(es[i].template) {
        Some(ProfileError::InvalidTemplate)
    } else {
        first_profile_error(es, i + 1)
    }
}

pub open spec fn spec_validate_profiles(es: Seq<ProfileEntry>) -> Result<(), ProfileError> {
    if es.len() > MAX_PROFILES {
        Err(ProfileError::TooManyProfiles)
    } else {
        match first_profile_error(es, 0) {
            None => Ok(()),
            Some(e) => Err(e),
        }
    }
}

/// A gallery is acceptable when it is small enough, every id is 1 to 256
/// bytes, no user has two profiles for one model, and every template is
/// usable.
pub fn validate_profiles(profiles: &[ProfileEntry]) -> (r: Result<(), ProfileError>)
    ensures
        r == spec_validate_profiles(profiles@),
{
    if profiles.len() > MAX_PROFILES {
        return Err(ProfileError::TooManyProfiles);
    }
    let mut i: usize = 0;
    while i < profiles.len()
        invariant
            i <= profiles@.len() <= MAX_PROFILES,
            first_profile_error(profiles@, 0) == first_profile_error(profiles@, i as int),
        decreases profiles@.len() - i,
    {
        let p = &profiles[i];
        let ul = p.user_id.as_str().len();
        let ml = p.model_id.as_str().len();
        if !(0 < ul && ul <= 256 && 0 < ml && ml <= 256) {
            return Err(ProfileError::InvalidProfileId);
        }
        let mut j: usize = 0;
        while j < i
            invariant
                j <= i < profiles@.len() <= MAX_PROFILES,
                first_profile_error(profiles@, 0) == first_profile_error(profiles@, i as int),
                id_ok(profiles@[i as int].user_id@) && id_ok(profiles@[i as int].model_id@),
                forall|k: int|
                    0 <= k < j ==> !(profiles@[k].user_id@ == profiles@[i as int].user_id@
                        && profiles@[k].model_id@ == profiles@[i as int].model_id@),
            decreases i - j,
        {
            if profiles[j].user_id == profiles[i].user_id && profiles[j].model_id
                == profiles[i].model_id {
                assert(profiles@[j as int].user_id@ == profiles@[i as int].user_id@
                    && profiles@[j as int].model_id@ == profiles@[i as int].model_id@);
                return Err(ProfileError::DuplicateProfile);
            }
            j = j + 1;
        }
        let ok = match p.template {
            TemplateSummary::Embedding { valid } => valid,
            TemplateSummary::Opaque { bytes } => 0 < bytes && bytes <= 1048576,
        };
        if !ok {
            return Err(ProfileError::InvalidTemplate);
        }
        i = i + 1;
    }
    Ok(())
}

} // verus!
