//! The enrolled voice gallery: who is enrolled for which model, and how
//! enrollment and forgetting change it. Templates are carried unopened.
use crate::store::id_ok;
use vstd::prelude::*;

verus! {

/// An enrolled voice: one user's template for one scoring model.
#[derive(Clone, Debug)]
pub struct Profile<T> {
    pub user_id: String,
    pub model_id: String,
    pub template: T,
    pub sample_count: u32,
}

/// The profiles of `ps` that are not `user`'s profile for `model`.
pub open spec fn without_profile<T>(ps: Seq<Profile<T>>, user: Seq<char>, model: Seq<char>) -> Seq<
    Profile<T>,
>
    decreases ps.len(),
{
    if ps.len() == 0 {
        Seq::empty()
    } else {
        let r = without_profile(ps.drop_last(), user, model);
        if ps.last().user_id@ == user && ps.last().model_id@ == model {
            r
        } else {
            r.push(ps.last())
        }
    }
}

/// The profiles of `ps` that are not `user`'s.
pub open spec fn without_user<T>(ps: Seq<Profile<T>>, user: Seq<char>) -> Seq<Profile<T>>
    decreases ps.len(),
{
    if ps.len() == 0 {
        Seq::empty()
    } else {
        let r = without_user(ps.drop_last(), user);
        if ps.last().user_id@ == user {
            r
        } else {
            r.push(ps.last())
        }
    }
}

/// Whether `user` has a profile.
pub open spec fn is_enrolled<T>(ps: Seq<Profile<T>>, user: Seq<char>) -> bool {
    exists|i: int| 0 <= i < ps.len() && ps[i].user_id@ == user
}

/// Whether `user` has a profile for `model`.
pub open spec fn has_profile<T>(ps: Seq<Profile<T>>, user: Seq<char>, model: Seq<char>) -> bool {
    exists|i: int| 0 <= i < ps.len() && ps[i].user_id@ == user && ps[i].model_id@ == model
}

/// Whether `user` has a profile.
pub fn enrolled<T>(profiles: &Vec<Profile<T>>, user: &String) -> (r: bool)
    ensures
        r == is_enrolled(profiles@, user@),
{
    let mut i: usize = 0;
    while i < profiles.len()
        invariant
            i <= profiles@.len(),
            forall|j: int| 0 <= j < i ==> profiles@[j].user_id@ != user@,
        decreases profiles@.len() - i,
    {
        if profiles[i].user_id == *user {
            return true;
        }
        i = i + 1;
    }
    false
}

/// Whether `user` has a profile for `model`: only such scores are
/// considered.
pub fn profile_exists<T>(profiles: &Vec<Profile<T>>, user: &String, model: &String) -> (r: bool)
    ensures
        r == has_profile(profiles@, user@, model@),
{
    let mut i: usize = 0;
    while i < profiles.len()
        invariant
            i <= profiles@.len(),
            forall|j: int|
                0 <= j < i ==> !(profiles@[j].user_id@ == user@ && profiles@[j].model_id@
                    == model@),
        decreases profiles@.len() - i,
    {
        if profiles[i].user_id == *user && profiles[i].model_id == *model {
            return true;
        }
        i = i + 1;
    }
    false
}

/// A user id an enrollment may use: 1 to 256 bytes.
pub fn valid_user_id(user: &String) -> (r: bool)
    ensures
        r == id_ok(user@),
{
    let n = user.as_str().len();
    0 < n && n <= 256
}

/// The gallery after enrolling `template` as `user`'s profile for `model`:
/// an earlier profile of that user for that model is replaced, and the new
/// one, counted as one sample, comes last.
pub fn replace_profile<T>(profiles: Vec<Profile<T>>, user: String, model: String, template: T) -> (r:
    Vec<Profile<T>>)
    ensures
        r@ == without_profile(profiles@, user@, model@).push(
            Profile { user_id: user, model_id: model, template, sample_count: 1 },
        ),
{
    let ghost all = profiles@;
    let mut rest = profiles;
    let mut kept: Vec<Profile<T>> = Vec::new();
    let ghost mut taken: int = 0;
    while rest.len() > 0
        invariant
            0 <= taken <= all.len(),
            rest@ == all.skip(taken),
            kept@ == without_profile(all.take(taken), user@, model@),
        decreases rest@.len(),
    {
        let p = rest.remove(0);
        proof {
            assert(all.take(taken + 1).drop_last() =~= all.take(taken));
            assert(all.take(taken + 1).last() == all[taken]);
            assert(all.skip(taken)[0] == all[taken]);
            assert(all.skip(taken).remove(0) =~= all.skip(taken + 1));
            taken = taken + 1;
        }
        if !(p.user_id == user && p.model_id == model) {
            kept.push(p);
        }
    }
    assert(all.take(taken) =~= all);
    kept.push(Profile { user_id: user, model_id: model, template, sample_count: 1 });
    kept
}

/// The gallery after forgetting `user`: every profile of that user goes.
pub fn forget_user<T>(profiles: Vec<Profile<T>>, user: &String) -> (r: Vec<Profile<T>>)
    ensures
        r@ == without_user(profiles@, user@),
{
    let ghost all = profiles@;
    let mut rest = profiles;
    let mut kept: Vec<Profile<T>> = Vec::new();
    let ghost mut taken: int = 0;
    while rest.len() > 0
        invariant
            0 <= taken <= all.len(),
            rest@ == all.skip(taken),
            kept@ == without_user(all.take(taken), user@),
        decreases rest@.len(),
    {
        let p = rest.remove(0);
        proof {
            assert(all.take(taken + 1).drop_last() =~= all.take(taken));
            assert(all.take(taken + 1).last() == all[taken]);
            assert(all.skip(taken)[0] == all[taken]);
            assert(all.skip(taken).remove(0) =~= all.skip(taken + 1));
            taken = taken + 1;
        }
        if p.user_id != *user {
            kept.push(p);
        }
    }
    assert(all.take(taken) =~= all);
    kept
}

/// How many profiles `user` has for `model`.
pub open spec fn profile_count<T>(ps: Seq<Profile<T>>, user: Seq<char>, model: Seq<char>) -> nat
    decreases ps.len(),
{
    if ps.len() == 0 {
        0
    } else {
        profile_count(ps.drop_last(), user, model) + if ps.last().user_id@ == user
            && ps.last().model_id@ == model {
            1nat
        } else {
            0nat
        }
    }
}

proof fn lemma_without_profile_count<T>(
    ps: Seq<Profile<T>>,
    user: Seq<char>,
    model: Seq<char>,
    u: Seq<char>,
    m: Seq<char>,
)
    ensures
        profile_count(without_profile(ps, user, model), u, m) == if u == user && m == model {
            0
        } else {
            profile_count(ps, u, m)
        },
    decreases ps.len(),
{
    if ps.len() > 0 {
        lemma_without_profile_count(ps.drop_last(), user, model, u, m);
        let r = without_profile(ps.drop_last(), user, model);
        if !(ps.last().user_id@ == user && ps.last().model_id@ == model) {
            assert(r.push(ps.last()).drop_last() =~= r);
        }
    }
}

proof fn lemma_without_user_absent<T>(ps: Seq<Profile<T>>, user: Seq<char>)
    ensures
        !is_enrolled(without_user(ps, user), user),
    decreases ps.len(),
{
    if ps.len() > 0 {
        lemma_without_user_absent(ps.drop_last(), user);
        let r = without_user(ps.drop_last(), user);
        if ps.last().user_id@ != user {
            assert forall|i: int| 0 <= i < r.push(ps.last()).len() implies r.push(
                ps.last(),
            )[i].user_id@ != user by {
                if i < r.len() {
                    assert(r.push(ps.last())[i] == r[i]);
                }
            }
        }
    }
}

proof fn lemma_without_user_keeps<T>(ps: Seq<Profile<T>>, user: Seq<char>, u: Seq<char>, m: Seq<char>)
    requires
        u != user,
    ensures
        profile_count(without_user(ps, user), u, m) == profile_count(ps, u, m),
    decreases ps.len(),
{
    if ps.len() > 0 {
        lemma_without_user_keeps(ps.drop_last(), user, u, m);
        let r = without_user(ps.drop_last(), user);
        if ps.last().user_id@ != user {
            assert(r.push(ps.last()).drop_last() =~= r);
        }
    }
}

/// Enrolling leaves exactly one profile of the user for the model, and
/// every other user's and model's profiles as they were; so a gallery in
/// which no user has two profiles for one model keeps that property.
pub proof fn lemma_enroll_replaces<T>(
    ps: Seq<Profile<T>>,
    user: String,
    model: String,
    template: T,
    u: Seq<char>,
    m: Seq<char>,
)
    ensures
        ({
            let next = without_profile(ps, user@, model@).push(
                Profile { user_id: user, model_id: model, template, sample_count: 1 },
            );
            &&& profile_count(next, user@, model@) == 1
            &&& !(u == user@ && m == model@) ==> profile_count(next, u, m) == profile_count(
                ps,
                u,
                m,
            )
        }),
{
    let w = without_profile(ps, user@, model@);
    let p = Profile { user_id: user, model_id: model, template, sample_count: 1u32 };
    assert(w.push(p).drop_last() =~= w);
    lemma_without_profile_count(ps, user@, model@, user@, model@);
    lemma_without_profile_count(ps, user@, model@, u, m);
}

/// Forgetting a user removes every profile of that user and keeps every
/// other user's profiles.
pub proof fn lemma_forget_removes<T>(ps: Seq<Profile<T>>, user: Seq<char>, u: Seq<char>, m: Seq<char>)
    ensures
        !is_enrolled(without_user(ps, user), user),
        u != user ==> profile_count(without_user(ps, user), u, m) == profile_count(ps, u, m),
{
    lemma_without_user_absent(ps, user);
    if u != user {
        lemma_without_user_keeps(ps, user, u, m);
    }
}

} // verus!
