//! The non-numeric half of identity fusion: confidence levels, proximity
//! buckets, and the bookkeeping that decides when acoustic evidence may
//! commit an identity. Score arithmetic is done by the caller.
use crate::diarization::{clone_opt_label, opt_label_view, same_opt_label, LabelView, SpeakerLabel};
use vstd::prelude::*;

verus! {

/// Only High confidence commits an identity. Medium exposes a candidate
/// separately.
#[derive(Clone, Copy, Debug, PartialEq, Eq, Structural)]
pub enum IdentityConfidence {
    High,
    Medium,
    Unknown,
}

impl IdentityConfidence {
    /// The lower-case name used in events.
    pub fn as_str(&self) -> (r: &'static str)
        ensures
            r@ == (match *self {
                IdentityConfidence::High => "high"@,
                IdentityConfidence::Medium => "medium"@,
                IdentityConfidence::Unknown => "unknown"@,
            }),
    {
        match self {
            IdentityConfidence::High => "high",
            IdentityConfidence::Medium => "medium",
            IdentityConfidence::Unknown => "unknown",
        }
    }
}

/// A coarse radio-proximity reading of an enrolled user's device.
#[derive(Clone, Copy, Debug, PartialEq, Eq, Structural)]
pub enum ProximityBucket {
    VeryClose,
    InRoom,
    NotDetected,
}

impl ProximityBucket {
    pub fn from_rssi(rssi: i32) -> (r: ProximityBucket)
        ensures
            r == (if rssi > -50 {
                ProximityBucket::VeryClose
            } else if rssi > -75 {
                ProximityBucket::InRoom
            } else {
                ProximityBucket::NotDetected
            }),
    {
        if rssi > -50 {
            ProximityBucket::VeryClose
        } else if rssi > -75 {
            ProximityBucket::InRoom
        } else {
            ProximityBucket::NotDetected
        }
    }
}

/// Proximity readings older than this (in nanoseconds) are dropped.
pub const PROXIMITY_TTL_NS: u64 = 30_000_000_000;

/// A committed identity, or a run of acoustically strong turns, carries
/// over to the next turn for this long (in nanoseconds).
pub const CONTINUITY_NS: u64 = 20_000_000_000;

/// A hint corroborates the turn it names for this long (in nanoseconds).
pub const FUSION_HINT_NS: u64 = 45_000_000_000;

/// `now - at`, or zero when `at` is later.
pub open spec fn elapsed(now: u64, at: u64) -> int {
    if now >= at {
        now - at
    } else {
        0
    }
}

pub type ProximityEntry = (Seq<char>, ProximityBucket, u64);

/// The proximity reading of `user`: the first entry that names it.
pub open spec fn prox_get(s: Seq<ProximityEntry>, user: Seq<char>) -> Option<(ProximityBucket, u64)>
    decreases s.len(),
{
    if s.len() == 0 {
        None
    } else if s[0].0 == user {
        Some((s[0].1, s[0].2))
    } else {
        prox_get(s.drop_first(), user)
    }
}

pub open spec fn unique_users(s: Seq<ProximityEntry>) -> bool {
    forall|i: int, j: int| 0 <= i < j < s.len() ==> s[i].0 != s[j].0
}

/// The bookkeeping state of identity fusion.
pub struct FusionView {
    pub required: u32,
    pub model: Option<Seq<char>>,
    pub proximity: Seq<ProximityEntry>,
    pub hint: Option<(Seq<char>, Seq<char>, u64)>,
    pub previous: Option<(Seq<char>, Option<LabelView>, u64)>,
    pub streak: Option<(Seq<char>, u32, u64)>,
}

/// What corroborates the best-scoring candidate of a turn besides its voice.
#[derive(Clone, Copy, Debug, PartialEq, Eq, Structural)]
pub struct Corroboration {
    /// The fresh proximity reading of the candidate's device.
    pub proximity: Option<ProximityBucket>,
    /// The candidate was committed on a recent turn (the caller compares
    /// that turn's voice embedding with this one).
    pub continuity: bool,
    /// The candidate was committed on a recent turn with the same
    /// diarizer label.
    pub same_label: bool,
    /// A pending hint names this turn and this candidate.
    pub hinted: bool,
}

/// The number of consecutive acoustically strong turns of `best`,
/// counting this one.
pub open spec fn next_streak(
    streak: Option<(Seq<char>, u32, u64)>,
    best: Seq<char>,
    acoustic_high: bool,
    now: u64,
) -> u32 {
    if !acoustic_high {
        0
    } else {
        match streak {
            Some((id, n, at)) => if id == best && elapsed(now, at) < CONTINUITY_NS {
                if n == u32::MAX {
                    n
                } else {
                    (n + 1) as u32
                }
            } else {
                1
            },
            None => 1,
        }
    }
}

/// Only a turn that is acoustically strong on its own, whose fused score
/// is strong, and that ends a long enough run of strong turns of the same
/// candidate is High; otherwise the acoustic evidence alone decides between
/// Medium and Unknown.
pub open spec fn decide(
    acoustic_high: bool,
    acoustic_medium: bool,
    fused_high: bool,
    count: u32,
    required: u32,
) -> IdentityConfidence {
    if acoustic_high && fused_high && count >= required {
        IdentityConfidence::High
    } else if acoustic_medium {
        IdentityConfidence::Medium
    } else {
        IdentityConfidence::Unknown
    }
}

/// Gathering the corroboration of `best` on the turn `utterance`: stale
/// proximity readings are dropped and the pending hint is used up.
pub open spec fn spec_corroborate(
    v: FusionView,
    best: Seq<char>,
    utterance: Seq<char>,
    label: Option<LabelView>,
    now: u64,
) -> (FusionView, Corroboration) {
    let fresh = fresh_entries(v.proximity, now);
    let continuity = v.previous matches Some((id, _, at)) && id == best && elapsed(now, at)
        < CONTINUITY_NS;
    (
        FusionView { proximity: fresh, hint: None, ..v },
        Corroboration {
            proximity: match prox_get(fresh, best) {
                Some((b, _)) => Some(b),
                None => None,
            },
            continuity,
            same_label: continuity && label is Some && (v.previous matches Some((_, l, _)) && l
                == label),
            hinted: v.hint matches Some((turn, id, at)) && turn == utterance && id == best
                && elapsed(now, at) < FUSION_HINT_NS,
        },
    )
}

/// Deciding a turn of `best`: the run of strong turns grows or restarts,
/// and only a High decision becomes the last committed identity.
pub open spec fn spec_commit(
    v: FusionView,
    best: Seq<char>,
    acoustic_high: bool,
    acoustic_medium: bool,
    fused_high: bool,
    label: Option<LabelView>,
    now: u64,
) -> (FusionView, IdentityConfidence) {
    let count = next_streak(v.streak, best, acoustic_high, now);
    let r = decide(acoustic_high, acoustic_medium, fused_high, count, v.required);
    (
        FusionView {
            streak: if count > 0 {
                Some((best, count, now))
            } else {
                None
            },
            previous: if r == IdentityConfidence::High {
                Some((best, label, now))
            } else {
                None
            },
            ..v
        },
        r,
    )
}

/// Session-scoped, bounded fusion bookkeeping: the scoring model in use,
/// recent proximity readings, the pending hint, the last committed
/// identity and the run of acoustically strong turns. Scores themselves
/// are kept by the caller.
pub struct FusionBook {
    required: u32,
    model: Option<String>,
    proximity: Vec<(String, ProximityBucket, u64)>,
    hint: Option<(String, String, u64)>,
    previous: Option<(String, Option<SpeakerLabel>, u64)>,
    streak: Option<(String, u32, u64)>,
}

impl View for FusionBook {
    type V = FusionView;

    closed spec fn view(&self) -> FusionView {
        FusionView {
            required: self.required,
            model: match self.model {
                Some(m) => Some(m@),
                None => None,
            },
            proximity: self.proximity@.map_values(
                |e: (String, ProximityBucket, u64)| (e.0@, e.1, e.2),
            ),
            hint: match self.hint {
                Some(h) => Some((h.0@, h.1@, h.2)),
                None => None,
            },
            previous: match self.previous {
                Some(p) => Some((p.0@, opt_label_view(p.1), p.2)),
                None => None,
            },
            streak: match self.streak {
                Some(c) => Some((c.0@, c.1, c.2)),
                None => None,
            },
        }
    }
}

proof fn lemma_prox_get_push(s: Seq<ProximityEntry>, e: ProximityEntry, u: Seq<char>)
    ensures
        prox_get(s.push(e), u) == (match prox_get(s, u) {
            Some(x) => Some(x),
            None => if e.0 == u {
                Some((e.1, e.2))
            } else {
                None
            },
        }),
    decreases s.len(),
{
    if s.len() > 0 {
        assert(s.push(e).drop_first() =~= s.drop_first().push(e));
        assert(s.push(e)[0] == s[0]);
        lemma_prox_get_push(s.drop_first(), e, u);
    } else {
        let t = s.push(e);
        assert(t[0] == e);
        assert(t.drop_first().len() == 0);
        assert(prox_get(t.drop_first(), u) is None);
        assert(prox_get(s, u) is None);
    }
}

proof fn lemma_prox_get_found(s: Seq<ProximityEntry>, u: Seq<char>)
    ensures
        prox_get(s, u) is Some <==> exists|i: int| 0 <= i < s.len() && s[i].0 == u,
    decreases s.len(),
{
    if s.len() > 0 {
        lemma_prox_get_found(s.drop_first(), u);
        if s[0].0 != u {
            if exists|i: int| 0 <= i < s.len() && s[i].0 == u {
                let i = choose|i: int| 0 <= i < s.len() && s[i].0 == u;
                assert(s.drop_first()[i - 1].0 == u);
            }
            if exists|i: int| 0 <= i < s.drop_first().len() && s.drop_first()[i].0 == u {
                let i = choose|i: int| 0 <= i < s.drop_first().len() && s.drop_first()[i].0 == u;
                assert(s[i + 1].0 == u);
            }
        }
    }
}

proof fn lemma_prox_get_update(s: Seq<ProximityEntry>, i: int, e: ProximityEntry, u: Seq<char>)
    requires
        unique_users(s),
        0 <= i < s.len(),
        e.0 == s[i].0,
    ensures
        prox_get(s.update(i, e), u) == if u == e.0 {
            Some((e.1, e.2))
        } else {
            prox_get(s, u)
        },
        unique_users(s.update(i, e)),
    decreases s.len(),
{
    if i == 0 {
        assert(s.update(i, e).drop_first() =~= s.drop_first());
    } else {
        assert(s.update(i, e).drop_first() =~= s.drop_first().update(i - 1, e));
        lemma_prox_get_update(s.drop_first(), i - 1, e, u);
    }
}

/// The entries of `s` read less than the proximity lifetime before `now`.
pub open spec fn fresh_entries(s: Seq<ProximityEntry>, now: u64) -> Seq<ProximityEntry>
    decreases s.len(),
{
    if s.len() == 0 {
        Seq::empty()
    } else {
        let r = fresh_entries(s.drop_last(), now);
        if elapsed(now, s.last().2) < PROXIMITY_TTL_NS {
            r.push(s.last())
        } else {
            r
        }
    }
}

/// A reading, if it is still fresh at `now`.
pub open spec fn fresh_reading(r: Option<(ProximityBucket, u64)>, now: u64) -> Option<
    (ProximityBucket, u64),
> {
    match r {
        Some((b, at)) => if elapsed(now, at) < PROXIMITY_TTL_NS {
            Some((b, at))
        } else {
            None
        },
        None => None,
    }
}

proof fn lemma_fresh_entries(s: Seq<ProximityEntry>, now: u64)
    requires
        unique_users(s),
    ensures
        unique_users(fresh_entries(s, now)),
        forall|k: int|
            0 <= k < fresh_entries(s, now).len() ==> s.contains(
                #[trigger] fresh_entries(s, now)[k],
            ),
        forall|u: Seq<char>|
            #[trigger] prox_get(fresh_entries(s, now), u) == fresh_reading(prox_get(s, u), now),
    decreases s.len(),
{
    if s.len() > 0 {
        let t = s.drop_last();
        let e = s.last();
        assert(t.push(e) =~= s);
        assert(unique_users(t));
        lemma_fresh_entries(t, now);
        let r = fresh_entries(t, now);
        lemma_prox_get_found(t, e.0);
        assert(prox_get(t, e.0) is None) by {
            if prox_get(t, e.0) is Some {
                let j = choose|j: int| 0 <= j < t.len() && t[j].0 == e.0;
                assert(s[j].0 == s[s.len() - 1].0);
            }
        }
        assert forall|k: int| 0 <= k < r.len() implies s.contains(#[trigger] r[k]) by {
            assert(t.contains(r[k]));
            let j = choose|j: int| 0 <= j < t.len() && t[j] == r[k];
            assert(s[j] == r[k]);
        }
        if elapsed(now, e.2) < PROXIMITY_TTL_NS {
            assert(fresh_entries(s, now) == r.push(e));
            assert forall|u: Seq<char>|
                #[trigger] prox_get(fresh_entries(s, now), u) == fresh_reading(
                    prox_get(s, u),
                    now,
                ) by {
                lemma_prox_get_push(r, e, u);
                lemma_prox_get_push(t, e, u);
            }
            assert forall|k: int|
                0 <= k < r.push(e).len() implies s.contains(#[trigger] r.push(e)[k]) by {
                if k == r.len() {
                    assert(s[s.len() - 1] == e);
                } else {
                    assert(r.push(e)[k] == r[k]);
                }
            }
            assert(unique_users(r.push(e))) by {
                assert forall|a: int, b: int|
                    0 <= a < b < r.push(e).len() implies r.push(e)[a].0 != r.push(e)[b].0 by {
                    if b == r.len() {
                        assert(t.contains(r[a]));
                        let j = choose|j: int| 0 <= j < t.len() && t[j] == r[a];
                        assert(s[j].0 != s[s.len() - 1].0);
                    }
                }
            }
        } else {
            assert(fresh_entries(s, now) == r);
            assert forall|u: Seq<char>|
                #[trigger] prox_get(fresh_entries(s, now), u) == fresh_reading(
                    prox_get(s, u),
                    now,
                ) by {
                lemma_prox_get_push(t, e, u);
            }
        }
    }
}

impl FusionBook {
    /// Drops proximity readings that are no longer fresh at `now_ns`.
    fn expire_proximity(&mut self, now_ns: u64)
        requires
            old(self).wf(),
        ensures
            final(self).wf(),
            final(self)@ == (FusionView {
                proximity: fresh_entries(old(self)@.proximity, now_ns),
                ..old(self)@
            }),
    {
        let ghost old_p = self@.proximity;
        let mut all: Vec<(String, ProximityBucket, u64)> = Vec::new();
        std::mem::swap(&mut all, &mut self.proximity);
        assert(all@.map_values(|e: (String, ProximityBucket, u64)| (e.0@, e.1, e.2)) == old_p);
        let mut kept: Vec<(String, ProximityBucket, u64)> = Vec::new();
        let mut i: usize = 0;
        while i < all.len()
            invariant
                i <= all@.len(),
                old_p == all@.map_values(|e: (String, ProximityBucket, u64)| (e.0@, e.1, e.2)),
                kept@.map_values(|e: (String, ProximityBucket, u64)| (e.0@, e.1, e.2))
                    == fresh_entries(old_p.take(i as int), now_ns),
            decreases all@.len() - i,
        {
            let ghost before = kept@;
            assert(old_p.take(i + 1).drop_last() =~= old_p.take(i as int));
            assert(old_p.take(i + 1).last() == old_p[i as int]);
            if now_ns.saturating_sub(all[i].2) < PROXIMITY_TTL_NS {
                let e = (all[i].0.clone(), all[i].1, all[i].2);
                kept.push(e);
                assert(kept@.map_values(|e: (String, ProximityBucket, u64)| (e.0@, e.1, e.2))
                    =~= before.map_values(|e: (String, ProximityBucket, u64)| (e.0@, e.1, e.2)).push(
                    old_p[i as int],
                ));
            }
            i = i + 1;
        }
        assert(old_p.take(i as int) =~= old_p);
        self.proximity = kept;
        proof {
            lemma_fresh_entries(old_p, now_ns);
        }
    }

    pub closed spec fn wf(&self) -> bool {
        &&& 1 <= self.required <= 10
        &&& unique_users(self@.proximity)
    }

    /// A fresh book that needs `consecutive_high_required` strong turns in
    /// a row before it commits; `None` unless that is between 1 and 10.
    pub fn new(consecutive_high_required: u32) -> (r: Option<FusionBook>)
        ensures
            match r {
                Some(b) => 1 <= consecutive_high_required <= 10 && b.wf() && b@ == (FusionView {
                    required: consecutive_high_required,
                    model: None,
                    proximity: Seq::empty(),
                    hint: None,
                    previous: None,
                    streak: None,
                }),
                None => !(1 <= consecutive_high_required <= 10),
            },
    {
        if !(1 <= consecutive_high_required && consecutive_high_required <= 10) {
            return None;
        }
        let b = FusionBook {
            required: consecutive_high_required,
            model: None,
            proximity: Vec::new(),
            hint: None,
            previous: None,
            streak: None,
        };
        assert(b@.proximity =~= Seq::<ProximityEntry>::empty());
        Some(b)
    }

    /// Forgets the model, the pending hint, the last committed identity and
    /// the run of strong turns. Proximity readings stay.
    pub fn reset(&mut self)
        requires
            old(self).wf(),
        ensures
            final(self).wf(),
            final(self)@ == (FusionView {
                model: None,
                hint: None,
                previous: None,
                streak: None,
                ..old(self)@
            }),
    {
        self.model = None;
        self.hint = None;
        self.previous = None;
        self.streak = None;
    }

    /// Records the proximity reading of `user`'s device, replacing its
    /// earlier reading.
    pub fn set_proximity(&mut self, user: String, value: ProximityBucket, now_ns: u64)
        requires
            old(self).wf(),
        ensures
            final(self).wf(),
            final(self)@ == (FusionView { proximity: final(self)@.proximity, ..old(self)@ }),
            forall|u: Seq<char>|
                #[trigger] prox_get(final(self)@.proximity, u) == if u == user@ {
                    Some((value, now_ns))
                } else {
                    prox_get(old(self)@.proximity, u)
                },
            final(self)@.proximity.len() == old(self)@.proximity.len() + if prox_get(
                old(self)@.proximity,
                user@,
            ) is Some {
                0int
            } else {
                1int
            },
    {
        let ghost old_p = self@.proximity;
        let mut i: usize = 0;
        while i < self.proximity.len()
            invariant
                i <= self.proximity@.len(),
                *self == *old(self),
                self.wf(),
                old_p == self@.proximity,
                forall|j: int| 0 <= j < i ==> old_p[j].0 != user@,
            decreases self.proximity@.len() - i,
        {
            assert(old_p[i as int].0 == self.proximity@[i as int].0@);
            if self.proximity[i].0 == user {
                let ghost e = (user@, value, now_ns);
                self.proximity.set(i, (user, value, now_ns));
                proof {
                    assert(self@.proximity =~= old_p.update(i as int, e));
                    lemma_prox_get_found(old_p, user@);
                    assert forall|u: Seq<char>|
                        #[trigger] prox_get(self@.proximity, u) == if u == e.0 {
                            Some((value, now_ns))
                        } else {
                            prox_get(old_p, u)
                        } by {
                        lemma_prox_get_update(old_p, i as int, e, u);
                    }
                    lemma_prox_get_update(old_p, i as int, e, user@);
                }
                return;
            }
            i = i + 1;
        }
        let ghost e = (user@, value, now_ns);
        self.proximity.push((user, value, now_ns));
        proof {
            assert(self@.proximity =~= old_p.push(e));
            lemma_prox_get_found(old_p, user@);
            assert forall|u: Seq<char>|
                #[trigger] prox_get(self@.proximity, u) == if u == e.0 {
                    Some((value, now_ns))
                } else {
                    prox_get(old_p, u)
                } by {
                lemma_prox_get_push(old_p, e, u);
            }
            assert(unique_users(self@.proximity)) by {
                assert forall|a: int, b: int|
                    0 <= a < b < self@.proximity.len() implies self@.proximity[a].0
                    != self@.proximity[b].0 by {
                    if b == old_p.len() {
                        assert(old_p[a].0 != user@);
                    } else {
                        assert(old_p[a].0 != old_p[b].0);
                    }
                }
            }
        }
    }

    /// Records a hint that `user` spoke `utterance`; one hint replaces the
    /// previous one.
    pub fn hint(&mut self, utterance: String, user: String, now_ns: u64)
        requires
            old(self).wf(),
        ensures
            final(self).wf(),
            final(self)@ == (FusionView {
                hint: Some((utterance@, user@, now_ns)),
                ..old(self)@
            }),
    {
        self.hint = Some((utterance, user, now_ns));
    }
}

impl FusionBook {
    /// Starts a turn scored by `model_id`: a change of model first resets
    /// the book. Returns whether it did.
    pub fn begin(&mut self, model_id: &String) -> (r: bool)
        requires
            old(self).wf(),
        ensures
            final(self).wf(),
            r == (old(self)@.model matches Some(m) && m != model_id@),
            final(self)@ == (FusionView {
                model: Some(model_id@),
                ..(if r {
                    FusionView { model: None, hint: None, previous: None, streak: None, ..old(self)@ }
                } else {
                    old(self)@
                })
            }),
    {
        let changed = match &self.model {
            Some(m) => *m != *model_id,
            None => false,
        };
        if changed {
            self.reset();
        }
        self.model = Some(model_id.clone());
        changed
    }

    fn proximity_of(&self, user: &String) -> (r: Option<ProximityBucket>)
        ensures
            r == (match prox_get(self@.proximity, user@) {
                Some((b, _)) => Some(b),
                None => None,
            }),
    {
        let mut i: usize = 0;
        assert(self@.proximity.skip(0) =~= self@.proximity);
        while i < self.proximity.len()
            invariant
                i <= self.proximity@.len(),
                self@.proximity.len() == self.proximity@.len(),
                prox_get(self@.proximity, user@) == prox_get(
                    self@.proximity.skip(i as int),
                    user@,
                ),
            decreases self.proximity@.len() - i,
        {
            let ghost rest = self@.proximity.skip(i as int);
            assert(rest[0] == self@.proximity[i as int]);
            assert(self@.proximity[i as int] == (self.proximity@[i as int].0@,
                self.proximity@[i as int].1, self.proximity@[i as int].2));
            assert(rest.drop_first() =~= self@.proximity.skip(i + 1));
            if self.proximity[i].0 == *user {
                return Some(self.proximity[i].1);
            }
            i = i + 1;
        }
        assert(self@.proximity.skip(i as int).len() == 0);
        None
    }

    /// Evidence that cannot be scored breaks the run of strong turns.
    pub fn abstain(&mut self)
        requires
            old(self).wf(),
        ensures
            final(self).wf(),
            final(self)@ == (FusionView { streak: None, ..old(self)@ }),
    {
        self.streak = None;
    }

    /// Gathers what corroborates `best` on the turn `utterance`: its fresh
    /// proximity reading (stale readings are dropped), whether it was
    /// committed on a recent turn and with the same label, and whether the
    /// pending hint names it and this turn. The hint is used up.
    pub fn corroborate(
        &mut self,
        best: &String,
        utterance: &String,
        label: &Option<SpeakerLabel>,
        now_ns: u64,
    ) -> (r: Corroboration)
        requires
            old(self).wf(),
        ensures
            final(self).wf(),
            (final(self)@, r) == spec_corroborate(old(self)@, best@, utterance@, opt_label_view(*label), now_ns),
    {
        self.expire_proximity(now_ns);
        let proximity = self.proximity_of(best);
        let (continuity, same_label) = match &self.previous {
            Some((id, old_label, at)) => {
                let c = *id == *best && now_ns.saturating_sub(*at) < CONTINUITY_NS;
                let same = c && label.is_some() && same_opt_label(old_label, label);
                (c, same)
            },
            None => (false, false),
        };
        let hinted = match &self.hint {
            Some((turn, id, at)) => *turn == *utterance && *id == *best && now_ns.saturating_sub(
                *at,
            ) < FUSION_HINT_NS,
            None => false,
        };
        self.hint = None;
        Corroboration { proximity, continuity, same_label, hinted }
    }

    /// Decides a turn of `best` from its acoustic strength against the
    /// thresholds (`acoustic_high`, `acoustic_medium`) and whether its fused
    /// score reaches the high threshold, and updates the run of strong
    /// turns and the last committed identity.
    pub fn commit(
        &mut self,
        best: &String,
        acoustic_high: bool,
        acoustic_medium: bool,
        fused_high: bool,
        label: &Option<SpeakerLabel>,
        now_ns: u64,
    ) -> (r: IdentityConfidence)
        requires
            old(self).wf(),
        ensures
            final(self).wf(),
            (final(self)@, r) == spec_commit(
                old(self)@,
                best@,
                acoustic_high,
                acoustic_medium,
                fused_high,
                opt_label_view(*label),
                now_ns,
            ),
    {
        let count: u32 = if acoustic_high {
            match &self.streak {
                Some((id, n, at)) => if *id == *best && now_ns.saturating_sub(*at)
                    < CONTINUITY_NS {
                    n.saturating_add(1)
                } else {
                    1
                },
                None => 1,
            }
        } else {
            0
        };
        self.streak = if count > 0 {
            Some((best.clone(), count, now_ns))
        } else {
            None
        };
        let confidence = if acoustic_high && fused_high && count >= self.required {
            IdentityConfidence::High
        } else if acoustic_medium {
            IdentityConfidence::Medium
        } else {
            IdentityConfidence::Unknown
        };
        self.previous = if confidence == IdentityConfidence::High {
            Some((best.clone(), clone_opt_label(label), now_ns))
        } else {
            None
        };
        confidence
    }
}

pub open spec fn ids_view(v: Seq<String>) -> Seq<Seq<char>> {
    v.map_values(|s: String| s@)
}

/// Whether some candidate id occurs twice.
pub open spec fn has_duplicates(s: Seq<Seq<char>>) -> bool {
    exists|i: int, j: int| 0 <= i < j < s.len() && s[i] == s[j]
}

/// Whether a turn's candidate list names some candidate twice (such
/// evidence is never scored).
pub fn has_duplicate_ids(ids: &Vec<String>) -> (r: bool)
    ensures
        r == has_duplicates(ids_view(ids@)),
{
    let ghost s = ids_view(ids@);
    let mut j: usize = 0;
    while j < ids.len()
        invariant
            j <= ids@.len(),
            s == ids_view(ids@),
            forall|a: int, b: int| 0 <= a < b < j ==> s[a] != s[b],
        decreases ids@.len() - j,
    {
        let mut i: usize = 0;
        while i < j
            invariant
                i <= j < ids@.len(),
                s == ids_view(ids@),
                forall|a: int| 0 <= a < i ==> s[a] != s[j as int],
            decreases j - i,
        {
            if ids[i] == ids[j] {
                assert(s[i as int] == s[j as int]);
                return true;
            }
            i = i + 1;
        }
        j = j + 1;
    }
    false
}

/// A voice must pass the acoustic threshold and margin on the turn itself:
/// whatever hints, proximity or history the book holds, a turn that is not
/// acoustically strong is never committed.
pub proof fn lemma_no_commit_without_voice(
    v: FusionView,
    best: Seq<char>,
    acoustic_medium: bool,
    fused_high: bool,
    label: Option<LabelView>,
    now: u64,
)
    ensures
        spec_commit(v, best, false, acoustic_medium, fused_high, label, now).1
            != IdentityConfidence::High,
        spec_commit(v, best, false, acoustic_medium, fused_high, label, now).0.streak is None,
        spec_commit(v, best, false, acoustic_medium, fused_high, label, now).0.previous is None,
{
}

/// After a reset (or a change of model) the first strong turn is never
/// committed when more than one strong turn in a row is required.
pub proof fn lemma_fresh_run_needs_repeat(
    v: FusionView,
    best: Seq<char>,
    acoustic_medium: bool,
    fused_high: bool,
    label: Option<LabelView>,
    now: u64,
)
    requires
        v.streak is None,
        v.required >= 2,
    ensures
        spec_commit(v, best, true, acoustic_medium, fused_high, label, now).1
            != IdentityConfidence::High,
        spec_commit(v, best, true, acoustic_medium, fused_high, label, now).0.streak == Some(
            (best, 1u32, now),
        ),
{
}

/// A run of strong turns of one candidate, close enough together and long
/// enough, commits it when its fused score is strong too; a strong turn of
/// another candidate starts a new run.
pub proof fn lemma_run_commits(
    v: FusionView,
    best: Seq<char>,
    other: Seq<char>,
    label: Option<LabelView>,
    now: u64,
)
    requires
        v.streak matches Some((id, n, at)) && id == best && elapsed(now, at) < CONTINUITY_NS
            && n + 1 >= v.required,
        other != best,
    ensures
        spec_commit(v, best, true, true, true, label, now).1 == IdentityConfidence::High,
        spec_commit(v, best, true, true, true, label, now).0.previous == Some((best, label, now)),
        spec_commit(v, other, true, true, true, label, now).0.streak == Some((other, 1u32, now)),
{
}

/// Hints cannot compound across turns: once a turn has gathered its
/// corroboration, no hint is left for the next one.
pub proof fn lemma_hint_used_once(
    v: FusionView,
    best: Seq<char>,
    utterance: Seq<char>,
    label: Option<LabelView>,
    now: u64,
    best2: Seq<char>,
    utterance2: Seq<char>,
    label2: Option<LabelView>,
    now2: u64,
)
    ensures
        !spec_corroborate(
            spec_corroborate(v, best, utterance, label, now).0,
            best2,
            utterance2,
            label2,
            now2,
        ).1.hinted,
{
}

/// Only committed identities carry over: after a turn that is not
/// committed, the next turn has no continuity to lean on.
pub proof fn lemma_only_commits_carry_over(
    v: FusionView,
    best: Seq<char>,
    acoustic_high: bool,
    acoustic_medium: bool,
    fused_high: bool,
    label: Option<LabelView>,
    now: u64,
    best2: Seq<char>,
    utterance2: Seq<char>,
    label2: Option<LabelView>,
    now2: u64,
)
    requires
        spec_commit(v, best, acoustic_high, acoustic_medium, fused_high, label, now).1
            != IdentityConfidence::High,
    ensures
        !spec_corroborate(
            spec_commit(v, best, acoustic_high, acoustic_medium, fused_high, label, now).0,
            best2,
            utterance2,
            label2,
            now2,
        ).1.continuity,
{
}

/// One call on a fusion book, as its effect on the book's state is stated.
pub enum FusionStep {
    Begin { model: Seq<char> },
    Reset,
    Abstain,
    Proximity { proximity: Seq<ProximityEntry> },
    Hint { utterance: Seq<char>, user: Seq<char>, now: u64 },
    Corroborate { best: Seq<char>, utterance: Seq<char>, label: Option<LabelView>, now: u64 },
    Commit {
        best: Seq<char>,
        acoustic_high: bool,
        acoustic_medium: bool,
        fused_high: bool,
        label: Option<LabelView>,
        now: u64,
    },
}

/// Whether starting a turn scored by `model` resets the book.
pub open spec fn begin_resets(v: FusionView, model: Seq<char>) -> bool {
    v.model matches Some(m) && m != model
}

/// The book after one call, as `begin`, `reset`, `abstain`,
/// `set_proximity`, `hint`, `corroborate` and `commit` state it.
pub open spec fn apply_step(v: FusionView, step: FusionStep) -> FusionView {
    match step {
        FusionStep::Begin { model } => FusionView {
            model: Some(model),
            ..(if begin_resets(v, model) {
                FusionView { model: None, hint: None, previous: None, streak: None, ..v }
            } else {
                v
            })
        },
        FusionStep::Reset => FusionView { model: None, hint: None, previous: None, streak: None, ..v },
        FusionStep::Abstain => FusionView { streak: None, ..v },
        FusionStep::Proximity { proximity } => FusionView { proximity, ..v },
        FusionStep::Hint { utterance, user, now } => FusionView {
            hint: Some((utterance, user, now)),
            ..v
        },
        FusionStep::Corroborate { best, utterance, label, now } => spec_corroborate(
            v,
            best,
            utterance,
            label,
            now,
        ).0,
        FusionStep::Commit { best, acoustic_high, acoustic_medium, fused_high, label, now } =>
            spec_commit(v, best, acoustic_high, acoustic_medium, fused_high, label, now).0,
    }
}

/// The book after the calls `steps`, made in order from `v`.
pub open spec fn run_steps(v: FusionView, steps: Seq<FusionStep>) -> FusionView
    decreases steps.len(),
{
    if steps.len() == 0 {
        v
    } else {
        apply_step(run_steps(v, steps.drop_last()), steps.last())
    }
}

/// Whether the calls `steps`, made from `v`, end with `n` acoustically
/// strong turns of `id`, each less than the continuity window before the
/// next (the last one before `later`), with no reset, abstention or change
/// of model among them. Proximity readings, hints, corroboration and a
/// `begin` with the same model do not break a run.
pub open spec fn strong_run(
    v: FusionView,
    steps: Seq<FusionStep>,
    id: Seq<char>,
    n: nat,
    later: u64,
) -> bool
    decreases steps.len(),
{
    if n == 0 {
        true
    } else if steps.len() == 0 {
        false
    } else {
        let rest = steps.drop_last();
        match steps.last() {
            FusionStep::Begin { model } => !begin_resets(run_steps(v, rest), model) && strong_run(
                v,
                rest,
                id,
                n,
                later,
            ),
            FusionStep::Reset => false,
            FusionStep::Abstain => false,
            FusionStep::Proximity { .. } => strong_run(v, rest, id, n, later),
            FusionStep::Hint { .. } => strong_run(v, rest, id, n, later),
            FusionStep::Corroborate { .. } => strong_run(v, rest, id, n, later),
            FusionStep::Commit { best, acoustic_high, now, .. } => best == id && acoustic_high
                && elapsed(later, now) < CONTINUITY_NS && strong_run(v, rest, id, (n - 1) as nat, now),
        }
    }
}

proof fn lemma_strong_run_shorter(
    v: FusionView,
    steps: Seq<FusionStep>,
    id: Seq<char>,
    n: nat,
    m: nat,
    later: u64,
)
    requires
        strong_run(v, steps, id, n, later),
        m <= n,
    ensures
        strong_run(v, steps, id, m, later),
    decreases steps.len(),
{
    if m > 0 && steps.len() > 0 {
        let rest = steps.drop_last();
        match steps.last() {
            FusionStep::Commit { now, .. } => {
                lemma_strong_run_shorter(v, rest, id, (n - 1) as nat, (m - 1) as nat, now);
            },
            _ => {
                lemma_strong_run_shorter(v, rest, id, n, m, later);
            },
        }
    }
}

/// What the run of strong turns records is backed by the calls made: a
/// run of `n` turns of `id` last seen at `at` means the calls end with `n`
/// strong turns of `id`, whatever turn comes within the window after `at`.
proof fn lemma_streak_backed(v: FusionView, steps: Seq<FusionStep>)
    requires
        v.streak is None,
    ensures
        run_steps(v, steps).required == v.required,
        run_steps(v, steps).streak matches Some((id, n, at)) ==> forall|later: u64|
            elapsed(later, at) < CONTINUITY_NS ==> #[trigger] strong_run(v, steps, id, n as nat, later),
    decreases steps.len(),
{
    if steps.len() > 0 {
        let rest = steps.drop_last();
        lemma_streak_backed(v, rest);
        let before = run_steps(v, rest);
        let after = run_steps(v, steps);
        assert(after == apply_step(before, steps.last()));
        match steps.last() {
            FusionStep::Commit { best, acoustic_high, acoustic_medium, fused_high, label, now } => {
                if let Some((id, n, at)) = after.streak {
                    assert forall|later: u64| elapsed(later, at) < CONTINUITY_NS implies #[trigger] strong_run(
                        v,
                        steps,
                        id,
                        n as nat,
                        later,
                    ) by {
                        assert(id == best && at == now && acoustic_high);
                        if n > 1 {
                            let (pid, pn, pat) = before.streak.unwrap();
                            assert(before.streak is Some && pid == best && elapsed(now, pat)
                                < CONTINUITY_NS);
                            assert(strong_run(v, rest, pid, pn as nat, now));
                            lemma_strong_run_shorter(v, rest, pid, pn as nat, (n - 1) as nat, now);
                        }
                    }
                }
            },
            _ => {
                if let Some((id, n, at)) = after.streak {
                    assert(before.streak == after.streak);
                    assert forall|later: u64| elapsed(later, at) < CONTINUITY_NS implies #[trigger] strong_run(
                        v,
                        steps,
                        id,
                        n as nat,
                        later,
                    ) by {
                        assert(strong_run(v, rest, id, n as nat, later));
                    }
                }
            },
        }
    }
}

/// A High decision needs the required run of strong turns: whatever calls
/// were made on a fresh book, a turn of `best` is committed only when it is
/// acoustically strong, its fused score is strong, and the calls before it
/// end with `required - 1` strong turns of `best`, each less than the
/// continuity window before the next and the last less than that before
/// this turn, with no reset, abstention or change of model in between.
pub proof fn lemma_high_needs_strong_run(
    v: FusionView,
    steps: Seq<FusionStep>,
    best: Seq<char>,
    acoustic_high: bool,
    acoustic_medium: bool,
    fused_high: bool,
    label: Option<LabelView>,
    now: u64,
)
    requires
        v.streak is None,
        v.required >= 1,
        spec_commit(run_steps(v, steps), best, acoustic_high, acoustic_medium, fused_high, label, now).1
            == IdentityConfidence::High,
    ensures
        acoustic_high,
        fused_high,
        strong_run(v, steps, best, (v.required - 1) as nat, now),
{
    lemma_streak_backed(v, steps);
    let w = run_steps(v, steps);
    match w.streak {
        Some((id, n, at)) => {
            if id == best && elapsed(now, at) < CONTINUITY_NS {
                assert(strong_run(v, steps, id, n as nat, now));
                lemma_strong_run_shorter(v, steps, id, n as nat, (v.required - 1) as nat, now);
            }
        },
        None => {},
    }
}

} // verus!
