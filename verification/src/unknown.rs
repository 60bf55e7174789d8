//! Voices that matched no enrolled profile: a few short-lived clusters
//! collect a bounded amount of their audio until one is long enough to be
//! offered for explicit enrollment. Payloads (voice centroid and audio) are
//! kept by the caller's type, unopened.
use crate::fusion::elapsed;
use vstd::prelude::*;

verus! {

/// At most this many unknown voices are tracked; the oldest goes first.
pub const UNKNOWN_CAPACITY: usize = 8;

/// An unknown voice is forgotten this long (in nanoseconds) after it was
/// first heard.
pub const CLUSTER_TTL_NS: u64 = 120_000_000_000;

/// Only the first ten seconds of an unknown voice's audio are kept.
pub const RETAIN_SAMPLES: usize = 160000;

/// A voice is offered for enrollment once eight seconds are collected.
pub const ANNOUNCE_SAMPLES: usize = 128000;

/// One unknown voice.
pub struct Cluster<T> {
    pub id: String,
    pub model: String,
    pub payload: T,
    pub audio_len: usize,
    pub created_ns: u64,
    pub announced: bool,
}

/// A cluster as (id, model, audio kept, first heard, offered, payload).
pub type ClusterView<T> = (Seq<char>, Seq<char>, nat, u64, bool, T);

pub open spec fn cluster_view<T>(c: Cluster<T>) -> ClusterView<T> {
    (c.id@, c.model@, c.audio_len as nat, c.created_ns, c.announced, c.payload)
}

pub open spec fn alive<T>(c: ClusterView<T>, now: u64) -> bool {
    elapsed(now, c.3) < CLUSTER_TTL_NS
}

/// The clusters still alive at `now`, in order.
pub open spec fn alive_only<T>(s: Seq<ClusterView<T>>, now: u64) -> Seq<ClusterView<T>>
    decreases s.len(),
{
    if s.len() == 0 {
        Seq::empty()
    } else {
        let r = alive_only(s.drop_last(), now);
        if alive(s.last(), now) {
            r.push(s.last())
        } else {
            r
        }
    }
}

/// The clusters other than `id`, in order.
pub open spec fn without_id<T>(s: Seq<ClusterView<T>>, id: Seq<char>) -> Seq<ClusterView<T>>
    decreases s.len(),
{
    if s.len() == 0 {
        Seq::empty()
    } else {
        let r = without_id(s.drop_last(), id);
        if s.last().0 == id {
            r
        } else {
            r.push(s.last())
        }
    }
}

/// How many more samples a cluster keeps of a turn of `incoming` samples.
pub open spec fn retained(audio_len: nat, incoming: nat) -> nat {
    let room = if audio_len < RETAIN_SAMPLES {
        (RETAIN_SAMPLES - audio_len) as nat
    } else {
        0
    };
    if incoming < room {
        incoming
    } else {
        room
    }
}

/// The unknown voices of one identity session.
pub struct UnknownBook<T> {
    clusters: Vec<Cluster<T>>,
}

impl<T> UnknownBook<T> {
    pub closed spec fn view_clusters(&self) -> Seq<ClusterView<T>> {
        self.clusters@.map_values(|c: Cluster<T>| cluster_view(c))
    }

    pub closed spec fn wf(&self) -> bool {
        &&& self.clusters@.len() <= UNKNOWN_CAPACITY
        &&& forall|i: int|
            0 <= i < self.clusters@.len() ==> (#[trigger] self.clusters@[i]).audio_len
                <= RETAIN_SAMPLES
    }

    pub fn new() -> (r: UnknownBook<T>)
        ensures
            r.wf(),
            r.view_clusters() == Seq::<ClusterView<T>>::empty(),
    {
        let r = UnknownBook { clusters: Vec::new() };
        assert(r.view_clusters() =~= Seq::<ClusterView<T>>::empty());
        r
    }

    pub fn len(&self) -> (r: usize)
        ensures
            r == self.view_clusters().len(),
    {
        self.clusters.len()
    }

    /// The `i`-th cluster, oldest first.
    pub fn cluster(&self, i: usize) -> (r: &Cluster<T>)
        requires
            i < self.view_clusters().len(),
        ensures
            cluster_view(*r) == self.view_clusters()[i as int],
            self.wf() ==> r.audio_len <= RETAIN_SAMPLES,
    {
        &self.clusters[i]
    }

    /// Forgets the clusters first heard too long before `now_ns`.
    pub fn expire(&mut self, now_ns: u64)
        requires
            old(self).wf(),
        ensures
            final(self).wf(),
            final(self).view_clusters() == alive_only(old(self).view_clusters(), now_ns),
    {
        let ghost all = self.view_clusters();
        let mut rest: Vec<Cluster<T>> = Vec::new();
        std::mem::swap(&mut rest, &mut self.clusters);
        let ghost raw = rest@;
        let mut kept: Vec<Cluster<T>> = Vec::new();
        let ghost mut taken: int = 0;
        while rest.len() > 0
            invariant
                0 <= taken <= raw.len() <= UNKNOWN_CAPACITY,
                all == raw.map_values(|c: Cluster<T>| cluster_view(c)),
                forall|i: int| 0 <= i < raw.len() ==> (#[trigger] raw[i]).audio_len <= RETAIN_SAMPLES,
                rest@ == raw.skip(taken),
                kept@.len() <= taken,
                forall|i: int| 0 <= i < kept@.len() ==> (#[trigger] kept@[i]).audio_len <= RETAIN_SAMPLES,
                kept@.map_values(|c: Cluster<T>| cluster_view(c)) == alive_only(
                    all.take(taken),
                    now_ns,
                ),
            decreases rest@.len(),
        {
            let c = rest.remove(0);
            proof {
                assert(all.take(taken + 1).drop_last() =~= all.take(taken));
                assert(all.take(taken + 1).last() == all[taken]);
                assert(raw.skip(taken)[0] == raw[taken]);
                assert(raw.skip(taken).remove(0) =~= raw.skip(taken + 1));
                taken = taken + 1;
            }
            if now_ns.saturating_sub(c.created_ns) < CLUSTER_TTL_NS {
                let ghost before = kept@;
                kept.push(c);
                assert(kept@.map_values(|c: Cluster<T>| cluster_view(c)) =~= before.map_values(
                    |c: Cluster<T>| cluster_view(c),
                ).push(all[taken - 1]));
            }
        }
        assert(all.take(taken) =~= all);
        self.clusters = kept;
    }

    /// Starts a cluster for a new unknown voice, dropping the oldest when
    /// the book is full. Returns its position.
    pub fn open(&mut self, id: String, model: String, payload: T, now_ns: u64) -> (r: usize)
        requires
            old(self).wf(),
        ensures
            final(self).wf(),
            r + 1 == final(self).view_clusters().len(),
            final(self).view_clusters() == (if old(self).view_clusters().len() == UNKNOWN_CAPACITY {
                old(self).view_clusters().drop_first()
            } else {
                old(self).view_clusters()
            }).push((id@, model@, 0, now_ns, false, payload)),
    {
        let ghost before = self.view_clusters();
        if self.clusters.len() == UNKNOWN_CAPACITY {
            let ghost raw = self.clusters@;
            let _ = self.clusters.remove(0);
            assert(self.view_clusters() =~= before.drop_first());
        }
        let ghost mid = self.view_clusters();
        let ghost c = (id@, model@, 0nat, now_ns, false, payload);
        self.clusters.push(Cluster { id, model, payload, audio_len: 0, created_ns: now_ns, announced: false });
        assert(self.view_clusters() =~= mid.push(c));
        self.clusters.len() - 1
    }

    /// How many samples of a turn of `incoming` samples the `i`-th cluster
    /// keeps.
    pub fn retain_count(&self, i: usize, incoming: usize) -> (r: usize)
        requires
            self.wf(),
            i < self.view_clusters().len(),
        ensures
            r == retained(self.view_clusters()[i as int].2, incoming as nat),
    {
        let have = self.clusters[i].audio_len;
        let room = if have < RETAIN_SAMPLES {
            RETAIN_SAMPLES - have
        } else {
            0
        };
        if incoming < room {
            incoming
        } else {
            room
        }
    }

    /// Records that the `i`-th cluster kept `taken` more samples, with its
    /// updated payload. Returns its id the first time it holds enough audio
    /// to be offered for enrollment.
    pub fn absorb(&mut self, i: usize, payload: T, taken: usize) -> (r: Option<String>)
        requires
            old(self).wf(),
            i < old(self).view_clusters().len(),
            old(self).view_clusters()[i as int].2 + taken <= RETAIN_SAMPLES,
        ensures
            final(self).wf(),
            ({
                let c = old(self).view_clusters()[i as int];
                let (next, offer) = spec_absorb(c, taken as nat, payload);
                &&& final(self).view_clusters() == old(self).view_clusters().update(i as int, next)
                &&& match r {
                    Some(id) => offer && id@ == c.0,
                    None => !offer,
                }
            }),
    {
        let ghost before = self.view_clusters();
        let old_c = self.clusters.remove(i);
        let len = old_c.audio_len + taken;
        let offer = len >= ANNOUNCE_SAMPLES && !old_c.announced;
        let result = if offer {
            Some(old_c.id.clone())
        } else {
            None
        };
        let c = Cluster {
            id: old_c.id,
            model: old_c.model,
            payload,
            audio_len: len,
            created_ns: old_c.created_ns,
            announced: old_c.announced || offer,
        };
        self.clusters.insert(i, c);
        assert(self.view_clusters() =~= before.update(
            i as int,
            (
                before[i as int].0,
                before[i as int].1,
                len as nat,
                before[i as int].3,
                before[i as int].4 || offer,
                c.payload,
            ),
        ));
        result
    }

    /// The position of the offered, still alive cluster `candidate`.
    pub fn claim(&self, candidate: &String, now_ns: u64) -> (r: Option<usize>)
        ensures
            match r {
                Some(i) => i < self.view_clusters().len() && self.view_clusters()[i as int].0
                    == candidate@ && self.view_clusters()[i as int].4 && alive(
                    self.view_clusters()[i as int],
                    now_ns,
                ),
                None => forall|i: int|
                    0 <= i < self.view_clusters().len() ==> !((#[trigger] self.view_clusters()[i]).0
                        == candidate@ && self.view_clusters()[i].4 && alive(
                        self.view_clusters()[i],
                        now_ns,
                    )),
            },
    {
        let mut i: usize = 0;
        while i < self.clusters.len()
            invariant
                i <= self.clusters@.len(),
                forall|j: int|
                    0 <= j < i ==> !((#[trigger] self.view_clusters()[j]).0 == candidate@
                        && self.view_clusters()[j].4 && alive(self.view_clusters()[j], now_ns)),
            decreases self.clusters@.len() - i,
        {
            let c = &self.clusters[i];
            assert(self.view_clusters()[i as int] == cluster_view(self.clusters@[i as int]));
            if c.id == *candidate && c.announced && now_ns.saturating_sub(c.created_ns)
                < CLUSTER_TTL_NS {
                return Some(i);
            }
            i = i + 1;
        }
        None
    }

    /// Forgets the cluster `candidate` (after it was enrolled).
    pub fn remove_id(&mut self, candidate: &String)
        requires
            old(self).wf(),
        ensures
            final(self).wf(),
            final(self).view_clusters() == without_id(old(self).view_clusters(), candidate@),
    {
        let ghost all = self.view_clusters();
        let mut rest: Vec<Cluster<T>> = Vec::new();
        std::mem::swap(&mut rest, &mut self.clusters);
        let ghost raw = rest@;
        let mut kept: Vec<Cluster<T>> = Vec::new();
        let ghost mut taken: int = 0;
        while rest.len() > 0
            invariant
                0 <= taken <= raw.len() <= UNKNOWN_CAPACITY,
                all == raw.map_values(|c: Cluster<T>| cluster_view(c)),
                forall|i: int| 0 <= i < raw.len() ==> (#[trigger] raw[i]).audio_len <= RETAIN_SAMPLES,
                rest@ == raw.skip(taken),
                kept@.len() <= taken,
                forall|i: int| 0 <= i < kept@.len() ==> (#[trigger] kept@[i]).audio_len <= RETAIN_SAMPLES,
                kept@.map_values(|c: Cluster<T>| cluster_view(c)) == without_id(
                    all.take(taken),
                    candidate@,
                ),
            decreases rest@.len(),
        {
            let c = rest.remove(0);
            proof {
                assert(all.take(taken + 1).drop_last() =~= all.take(taken));
                assert(all.take(taken + 1).last() == all[taken]);
                assert(raw.skip(taken)[0] == raw[taken]);
                assert(raw.skip(taken).remove(0) =~= raw.skip(taken + 1));
                taken = taken + 1;
            }
            if c.id != *candidate {
                let ghost before = kept@;
                kept.push(c);
                assert(kept@.map_values(|c: Cluster<T>| cluster_view(c)) =~= before.map_values(
                    |c: Cluster<T>| cluster_view(c),
                ).push(all[taken - 1]));
            }
        }
        assert(all.take(taken) =~= all);
        self.clusters = kept;
    }
}

/// A cluster after keeping `taken` more samples, and whether it is offered
/// for enrollment now.
pub open spec fn spec_absorb<T>(c: ClusterView<T>, taken: nat, payload: T) -> (ClusterView<T>, bool) {
    let len = (c.2 + taken) as nat;
    let offer = len >= ANNOUNCE_SAMPLES && !c.4;
    ((c.0, c.1, len, c.3, c.4 || offer, payload), offer)
}

/// Only the first ten seconds of an unknown voice are kept: keeping what
/// `retained` allows never goes past the bound, and nothing is dropped
/// while there is room.
pub proof fn lemma_retention_bounded(audio_len: nat, incoming: nat)
    requires
        audio_len <= RETAIN_SAMPLES,
    ensures
        audio_len + retained(audio_len, incoming) <= RETAIN_SAMPLES,
        audio_len + incoming <= RETAIN_SAMPLES ==> retained(audio_len, incoming) == incoming,
{
}

/// A voice is offered for enrollment at most once: after the turn that
/// offers it, no later turn offers it again.
pub proof fn lemma_offered_once<T>(c: ClusterView<T>, taken: nat, p1: T, later: nat, p2: T)
    requires
        spec_absorb(c, taken, p1).1,
    ensures
        !spec_absorb(spec_absorb(c, taken, p1).0, later, p2).1,
        spec_absorb(spec_absorb(c, taken, p1).0, later, p2).0.4,
{
}

/// What the unknown-voice book holds stays within its bounds: at most
/// `UNKNOWN_CAPACITY` voices, none with more than `RETAIN_SAMPLES` of audio.
impl<T> UnknownBook<T> {
    pub proof fn lemma_bounds(&self)
        requires
            self.wf(),
        ensures
            self.view_clusters().len() <= UNKNOWN_CAPACITY,
            forall|k: int|
                0 <= k < self.view_clusters().len() ==> #[trigger] self.view_clusters()[k].2
                    <= RETAIN_SAMPLES,
    {
        assert forall|k: int| 0 <= k < self.view_clusters().len() implies #[trigger] self.view_clusters()[k].2
            <= RETAIN_SAMPLES by {
            assert(self.clusters@[k].audio_len <= RETAIN_SAMPLES);
        }
    }
}

/// One call on an unknown-voice book, as its effect is stated.
pub enum UnknownStep<T> {
    Expire { now: u64 },
    Open { id: Seq<char>, model: Seq<char>, payload: T, now: u64 },
    Absorb { i: int, taken: nat, payload: T },
    Remove { id: Seq<char> },
}

/// The clusters after one call, and the id it offers for enrollment, as
/// `expire`, `open`, `absorb` and `remove_id` state them.
pub open spec fn unknown_step<T>(s: Seq<ClusterView<T>>, step: UnknownStep<T>) -> (Seq<ClusterView<T>>, Option<Seq<char>>) {
    match step {
        UnknownStep::Expire { now } => (alive_only(s, now), None),
        UnknownStep::Open { id, model, payload, now } => (
            (if s.len() == UNKNOWN_CAPACITY {
                s.drop_first()
            } else {
                s
            }).push((id, model, 0, now, false, payload)),
            None,
        ),
        UnknownStep::Absorb { i, taken, payload } => {
            let (next, offer) = spec_absorb(s[i], taken, payload);
            (s.update(i, next), if offer {
                Some(s[i].0)
            } else {
                None
            })
        },
        UnknownStep::Remove { id } => (without_id(s, id), None),
    }
}

/// The clusters after the calls `steps`, made in order on a new book, and
/// the ids offered along the way, in order.
pub open spec fn unknown_run<T>(steps: Seq<UnknownStep<T>>) -> (Seq<ClusterView<T>>, Seq<Seq<char>>)
    decreases steps.len(),
{
    if steps.len() == 0 {
        (Seq::empty(), Seq::empty())
    } else {
        let (s, offered) = unknown_run(steps.drop_last());
        let (t, o) = unknown_step(s, steps.last());
        (t, match o {
            Some(id) => offered.push(id),
            None => offered,
        })
    }
}

/// The calls are made as their callers must make them: `absorb` on a
/// cluster that exists, within its room, and `open` with an id that is
/// new (no cluster holds it and it was never offered).
pub open spec fn unknown_calls_valid<T>(steps: Seq<UnknownStep<T>>) -> bool
    decreases steps.len(),
{
    if steps.len() == 0 {
        true
    } else {
        let (s, offered) = unknown_run(steps.drop_last());
        &&& unknown_calls_valid(steps.drop_last())
        &&& match steps.last() {
            UnknownStep::Absorb { i, taken, .. } => 0 <= i < s.len() && s[i].2 + taken
                <= RETAIN_SAMPLES,
            UnknownStep::Open { id, .. } => !offered.contains(id) && forall|k: int|
                0 <= k < s.len() ==> (#[trigger] s[k]).0 != id,
            _ => true,
        }
    }
}

pub open spec fn unique_ids<T>(s: Seq<ClusterView<T>>) -> bool {
    forall|a: int, b: int| 0 <= a < b < s.len() ==> (#[trigger] s[a]).0 != (#[trigger] s[b]).0
}

pub open spec fn no_repeats(s: Seq<Seq<char>>) -> bool {
    forall|a: int, b: int| 0 <= a < b < s.len() ==> s[a] != s[b]
}

/// What holds of the book after any valid calls.
pub open spec fn unknown_inv<T>(s: Seq<ClusterView<T>>, offered: Seq<Seq<char>>) -> bool {
    &&& s.len() <= UNKNOWN_CAPACITY
    &&& unique_ids(s)
    &&& no_repeats(offered)
    &&& forall|k: int|
        0 <= k < s.len() ==> {
            &&& (#[trigger] s[k]).2 <= RETAIN_SAMPLES
            &&& s[k].4 == (s[k].2 >= ANNOUNCE_SAMPLES)
            &&& s[k].4 == offered.contains(s[k].0)
        }
}

proof fn lemma_alive_only_sub<T>(s: Seq<ClusterView<T>>, now: u64)
    requires
        unique_ids(s),
    ensures
        alive_only(s, now).len() <= s.len(),
        unique_ids(alive_only(s, now)),
        forall|k: int|
            0 <= k < alive_only(s, now).len() ==> s.contains(#[trigger] alive_only(s, now)[k]),
    decreases s.len(),
{
    if s.len() > 0 {
        let t = s.drop_last();
        assert(unique_ids(t)) by {
            assert forall|a: int, b: int| 0 <= a < b < t.len() implies (#[trigger] t[a]).0
                != (#[trigger] t[b]).0 by {
                assert(s[a] == t[a] && s[b] == t[b]);
            }
        }
        lemma_alive_only_sub(t, now);
        let r = alive_only(t, now);
        assert forall|k: int| 0 <= k < r.len() implies s.contains(#[trigger] r[k]) by {
            let j = choose|j: int| 0 <= j < t.len() && t[j] == r[k];
            assert(s[j] == r[k]);
        }
        if alive(s.last(), now) {
            let r2 = r.push(s.last());
            assert forall|k: int| 0 <= k < r2.len() implies s.contains(#[trigger] r2[k]) by {
                if k == r.len() {
                    assert(s[s.len() - 1] == r2[k]);
                } else {
                    assert(r2[k] == r[k]);
                }
            }
            assert forall|a: int, b: int| 0 <= a < b < r2.len() implies (#[trigger] r2[a]).0
                != (#[trigger] r2[b]).0 by {
                if b == r.len() {
                    assert(r2[a] == r[a]);
                    let j = choose|j: int| 0 <= j < t.len() && t[j] == r[a];
                    assert(s[j] == r[a]);
                    assert(s[s.len() - 1] == r2[b]);
                } else {
                    assert(r2[a] == r[a] && r2[b] == r[b]);
                }
            }
        }
    }
}

proof fn lemma_without_id_sub<T>(s: Seq<ClusterView<T>>, id: Seq<char>)
    requires
        unique_ids(s),
    ensures
        without_id(s, id).len() <= s.len(),
        unique_ids(without_id(s, id)),
        forall|k: int|
            0 <= k < without_id(s, id).len() ==> s.contains(#[trigger] without_id(s, id)[k]),
    decreases s.len(),
{
    if s.len() > 0 {
        let t = s.drop_last();
        assert(unique_ids(t)) by {
            assert forall|a: int, b: int| 0 <= a < b < t.len() implies (#[trigger] t[a]).0
                != (#[trigger] t[b]).0 by {
                assert(s[a] == t[a] && s[b] == t[b]);
            }
        }
        lemma_without_id_sub(t, id);
        let r = without_id(t, id);
        assert forall|k: int| 0 <= k < r.len() implies s.contains(#[trigger] r[k]) by {
            let j = choose|j: int| 0 <= j < t.len() && t[j] == r[k];
            assert(s[j] == r[k]);
        }
        if s.last().0 != id {
            let r2 = r.push(s.last());
            assert forall|k: int| 0 <= k < r2.len() implies s.contains(#[trigger] r2[k]) by {
                if k == r.len() {
                    assert(s[s.len() - 1] == r2[k]);
                } else {
                    assert(r2[k] == r[k]);
                }
            }
            assert forall|a: int, b: int| 0 <= a < b < r2.len() implies (#[trigger] r2[a]).0
                != (#[trigger] r2[b]).0 by {
                if b == r.len() {
                    assert(r2[a] == r[a]);
                    let j = choose|j: int| 0 <= j < t.len() && t[j] == r[a];
                    assert(s[j] == r[a]);
                    assert(s[s.len() - 1] == r2[b]);
                } else {
                    assert(r2[a] == r[a] && r2[b] == r[b]);
                }
            }
        }
    }
}

/// Keeping a subsequence of the clusters keeps the invariant.
proof fn lemma_inv_sub<T>(s: Seq<ClusterView<T>>, r: Seq<ClusterView<T>>, offered: Seq<Seq<char>>)
    requires
        unknown_inv(s, offered),
        r.len() <= s.len(),
        unique_ids(r),
        forall|k: int| 0 <= k < r.len() ==> s.contains(#[trigger] r[k]),
    ensures
        unknown_inv(r, offered),
{
    assert forall|k: int| 0 <= k < r.len() implies {
        &&& (#[trigger] r[k]).2 <= RETAIN_SAMPLES
        &&& r[k].4 == (r[k].2 >= ANNOUNCE_SAMPLES)
        &&& r[k].4 == offered.contains(r[k].0)
    } by {
        assert(s.contains(r[k]));
        let j = choose|j: int| 0 <= j < s.len() && s[j] == r[k];
        assert(s[j] == r[k]);
    }
}

proof fn lemma_unknown_inv<T>(steps: Seq<UnknownStep<T>>)
    requires
        unknown_calls_valid(steps),
    ensures
        unknown_inv(unknown_run(steps).0, unknown_run(steps).1),
    decreases steps.len(),
{
    if steps.len() > 0 {
        let rest = steps.drop_last();
        lemma_unknown_inv(rest);
        let (s, offered) = unknown_run(rest);
        let (t, o) = unknown_step(s, steps.last());
        match steps.last() {
            UnknownStep::Expire { now } => {
                lemma_alive_only_sub(s, now);
                lemma_inv_sub(s, t, offered);
            },
            UnknownStep::Remove { id } => {
                lemma_without_id_sub(s, id);
                lemma_inv_sub(s, t, offered);
            },
            UnknownStep::Open { id, model, payload, now } => {
                let m = if s.len() == UNKNOWN_CAPACITY {
                    s.drop_first()
                } else {
                    s
                };
                let c = (id, model, 0nat, now, false, payload);
                assert(t == m.push(c));
                assert forall|k: int| 0 <= k < m.len() implies s.contains(#[trigger] m[k]) by {
                    if s.len() == UNKNOWN_CAPACITY {
                        assert(s[k + 1] == m[k]);
                    } else {
                        assert(s[k] == m[k]);
                    }
                }
                assert(unique_ids(m)) by {
                    assert forall|a: int, b: int| 0 <= a < b < m.len() implies (#[trigger] m[a]).0
                        != (#[trigger] m[b]).0 by {
                        if s.len() == UNKNOWN_CAPACITY {
                            assert(s[a + 1] == m[a] && s[b + 1] == m[b]);
                        } else {
                            assert(s[a] == m[a] && s[b] == m[b]);
                        }
                    }
                }
                lemma_inv_sub(s, m, offered);
                assert forall|a: int, b: int| 0 <= a < b < t.len() implies (#[trigger] t[a]).0
                    != (#[trigger] t[b]).0 by {
                    if b == m.len() {
                        assert(t[a] == m[a]);
                        assert(s.contains(m[a]));
                        let j = choose|j: int| 0 <= j < s.len() && s[j] == m[a];
                        assert(s[j].0 != id);
                    } else {
                        assert(t[a] == m[a] && t[b] == m[b]);
                    }
                }
                assert forall|k: int| 0 <= k < t.len() implies {
                    &&& (#[trigger] t[k]).2 <= RETAIN_SAMPLES
                    &&& t[k].4 == (t[k].2 >= ANNOUNCE_SAMPLES)
                    &&& t[k].4 == offered.contains(t[k].0)
                } by {
                    if k < m.len() {
                        assert(t[k] == m[k]);
                    }
                }
            },
            UnknownStep::Absorb { i, taken, payload } => {
                let c = s[i];
                let (next, offer) = spec_absorb(c, taken, payload);
                let offered2 = if offer {
                    offered.push(c.0)
                } else {
                    offered
                };
                assert(unknown_run(steps).1 == offered2);
                assert(t == s.update(i, next));
                assert forall|a: int, b: int| 0 <= a < b < t.len() implies (#[trigger] t[a]).0
                    != (#[trigger] t[b]).0 by {
                    assert(s[a].0 != s[b].0);
                }
                assert forall|k: int| 0 <= k < t.len() implies {
                    &&& (#[trigger] t[k]).2 <= RETAIN_SAMPLES
                    &&& t[k].4 == (t[k].2 >= ANNOUNCE_SAMPLES)
                    &&& t[k].4 == offered2.contains(t[k].0)
                } by {
                    if k != i {
                        assert(t[k] == s[k]);
                        assert(s[k].0 != c.0);
                        if offer {
                            assert(offered2.contains(s[k].0) == offered.contains(s[k].0)) by {
                                if offered2.contains(s[k].0) {
                                    let j = choose|j: int| 0 <= j < offered2.len() && offered2[j] == s[k].0;
                                    assert(j < offered.len());
                                    assert(offered[j] == s[k].0);
                                }
                                if offered.contains(s[k].0) {
                                    let j = choose|j: int| 0 <= j < offered.len() && offered[j] == s[k].0;
                                    assert(offered2[j] == s[k].0);
                                }
                            }
                        }
                    } else {
                        if offer {
                            assert(offered2[offered.len() as int] == c.0);
                        }
                    }
                }
                if offer {
                    assert(!offered.contains(c.0));
                    assert forall|a: int, b: int| 0 <= a < b < offered2.len() implies offered2[a]
                        != offered2[b] by {
                        if b == offered.len() {
                            assert(offered2[a] == offered[a]);
                        } else {
                            assert(offered2[a] == offered[a] && offered2[b] == offered[b]);
                        }
                    }
                }
            },
        }
    }
}

/// Whatever valid calls are made on a new book: it holds at most
/// `UNKNOWN_CAPACITY` voices, none with more than `RETAIN_SAMPLES` of audio;
/// a voice counts as offered exactly when it holds `ANNOUNCE_SAMPLES` or
/// more; and no voice is offered for enrollment twice.
pub proof fn lemma_unknown_book_laws<T>(steps: Seq<UnknownStep<T>>)
    requires
        unknown_calls_valid(steps),
    ensures
        unknown_run(steps).0.len() <= UNKNOWN_CAPACITY,
        forall|k: int|
            0 <= k < unknown_run(steps).0.len() ==> (#[trigger] unknown_run(steps).0[k]).2
                <= RETAIN_SAMPLES && unknown_run(steps).0[k].4 == (unknown_run(steps).0[k].2
                >= ANNOUNCE_SAMPLES),
        no_repeats(unknown_run(steps).1),
{
    lemma_unknown_inv(steps);
}

proof fn lemma_alive_only_alive<T>(s: Seq<ClusterView<T>>, now: u64)
    ensures
        forall|k: int|
            0 <= k < alive_only(s, now).len() ==> alive(#[trigger] alive_only(s, now)[k], now),
    decreases s.len(),
{
    if s.len() > 0 {
        lemma_alive_only_alive(s.drop_last(), now);
        let r = alive_only(s.drop_last(), now);
        if alive(s.last(), now) {
            assert forall|k: int| 0 <= k < r.push(s.last()).len() implies alive(
                #[trigger] r.push(s.last())[k],
                now,
            ) by {
                if k < r.len() {
                    assert(r.push(s.last())[k] == r[k]);
                }
            }
        }
    }
}

/// What each call does to the voices, one call at a time: after expiry
/// every voice left was first heard less than `CLUSTER_TTL_NS` ago; a new
/// voice joins last with no audio, the oldest leaving when the book is
/// full; and a voice is offered only from within its room, when it holds at
/// least `ANNOUNCE_SAMPLES`, under its own id.
pub proof fn lemma_unknown_step_facts<T>(s: Seq<ClusterView<T>>, step: UnknownStep<T>)
    requires
        s.len() <= UNKNOWN_CAPACITY,
        step matches UnknownStep::Absorb { i, taken, .. } ==> 0 <= i < s.len() && s[i].2 + taken
            <= RETAIN_SAMPLES,
    ensures
        ({
            let (t, o) = unknown_step(s, step);
            &&& (step matches UnknownStep::Expire { now } ==> forall|k: int|
                0 <= k < t.len() ==> elapsed(now, (#[trigger] t[k]).3) < CLUSTER_TTL_NS)
            &&& (step matches UnknownStep::Open { id, model, payload, now } ==> {
                &&& t.last() == (id, model, 0nat, now, false, payload)
                &&& t.len() == if s.len() == UNKNOWN_CAPACITY {
                    s.len()
                } else {
                    s.len() + 1
                }
                &&& s.len() == UNKNOWN_CAPACITY ==> t.drop_last() == s.drop_first()
            })
            &&& (o matches Some(id) ==> step matches UnknownStep::Absorb { i, .. } && id == s[i].0
                && t[i].0 == id && ANNOUNCE_SAMPLES <= t[i].2 <= RETAIN_SAMPLES && !s[i].4
                && t[i].4)
        }),
{
    match step {
        UnknownStep::Expire { now } => {
            lemma_alive_only_alive(s, now);
        },
        UnknownStep::Open { id, model, payload, now } => {
            let m = if s.len() == UNKNOWN_CAPACITY {
                s.drop_first()
            } else {
                s
            };
            assert(unknown_step(s, step).0.drop_last() =~= m);
        },
        _ => {},
    }
}

} // verus!
