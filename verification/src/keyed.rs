//! Small association lists keyed by strings, and what lookups in them see.
use vstd::prelude::*;

verus! {

/// The value stored under `k`: that of the first entry with key `k`.
pub open spec fn key_get<T>(s: Seq<(Seq<char>, T)>, k: Seq<char>) -> Option<T>
    decreases s.len(),
{
    if s.len() == 0 {
        None
    } else if s[0].0 == k {
        Some(s[0].1)
    } else {
        key_get(s.drop_first(), k)
    }
}

/// No key occurs twice.
pub open spec fn unique_keys<T>(s: Seq<(Seq<char>, T)>) -> bool {
    forall|i: int, j: int| 0 <= i < j < s.len() ==> s[i].0 != s[j].0
}

pub proof fn lemma_key_get_found<T>(s: Seq<(Seq<char>, T)>, k: Seq<char>)
    ensures
        key_get(s, k) is Some <==> exists|i: int| 0 <= i < s.len() && s[i].0 == k,
    decreases s.len(),
{
    if s.len() > 0 {
        lemma_key_get_found(s.drop_first(), k);
        if s[0].0 != k {
            if exists|i: int| 0 <= i < s.len() && s[i].0 == k {
                let i = choose|i: int| 0 <= i < s.len() && s[i].0 == k;
                assert(s.drop_first()[i - 1].0 == k);
            }
            if exists|i: int| 0 <= i < s.drop_first().len() && s.drop_first()[i].0 == k {
                let i = choose|i: int| 0 <= i < s.drop_first().len() && s.drop_first()[i].0 == k;
                assert(s[i + 1].0 == k);
            }
        }
    }
}

pub proof fn lemma_key_get_push<T>(s: Seq<(Seq<char>, T)>, e: (Seq<char>, T), k: Seq<char>)
    ensures
        key_get(s.push(e), k) == (match key_get(s, k) {
            Some(x) => Some(x),
            None => if e.0 == k {
                Some(e.1)
            } else {
                None
            },
        }),
    decreases s.len(),
{
    let t = s.push(e);
    if s.len() > 0 {
        assert(t.drop_first() =~= s.drop_first().push(e));
        assert(t[0] == s[0]);
        lemma_key_get_push(s.drop_first(), e, k);
    } else {
        assert(t[0] == e);
        assert(t.drop_first().len() == 0);
        assert(key_get(t.drop_first(), k) is None);
    }
}

pub proof fn lemma_key_get_remove<T>(s: Seq<(Seq<char>, T)>, i: int, k: Seq<char>)
    requires
        0 <= i < s.len(),
        unique_keys(s),
    ensures
        key_get(s.remove(i), k) == if k == s[i].0 {
            None
        } else {
            key_get(s, k)
        },
        unique_keys(s.remove(i)),
    decreases s.len(),
{
    if i == 0 {
        assert(s.remove(i) =~= s.drop_first());
        if k == s[0].0 {
            lemma_key_get_found(s.drop_first(), k);
            if key_get(s.drop_first(), k) is Some {
                let j = choose|j: int| 0 <= j < s.drop_first().len() && s.drop_first()[j].0 == k;
                assert(s[j + 1].0 == s[0].0);
            }
        }
    } else {
        assert(s.remove(i).drop_first() =~= s.drop_first().remove(i - 1));
        assert(s.remove(i)[0] == s[0]);
        assert(s.drop_first()[i - 1] == s[i]);
        lemma_key_get_remove(s.drop_first(), i - 1, k);
    }
}

} // verus!
