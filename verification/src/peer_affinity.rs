//! Peer affinity: preferring peers that are close and fast.
//!
//! [`AffinityScorer`] keeps a [`PeerProfile`] per peer with its region hint,
//! its latency and its recent transfer speeds, and says what the affinity of a
//! peer is made of. The weighted score itself is a statistic that the caller
//! computes; [`AffinityScorer::ranked_peers`] orders the peers by it.
//!
//! Speeds and scores are numbers that order like what they stand for.

use vstd::prelude::*;

use crate::codec::arrays_equal;
use crate::list::retain;
use crate::rank::arranged;
use crate::rank::is_ranked_by;
use crate::rank::is_stable_order;
use crate::rank::stable_order;
use crate::text::str_equal;
use crate::time::elapsed;
use crate::time::Duration;
use crate::time::Instant;

verus! {

/// Maximum speed samples retained per peer for averaging.
pub const MAX_SPEED_SAMPLES: usize = 20;

/// Default maximum number of peers tracked by the scorer.
pub const DEFAULT_MAX_PEERS: usize = 256;

// ── Peer profile ────────────────────────────────────────────────────

/// What is known of a peer.
#[verifier::ext_equal]
pub struct ProfileView {
    /// Peer identifier.
    pub peer_id: Seq<u8>,
    /// Region hint, if advertised.
    pub region: Option<Seq<char>>,
    /// Most recent round-trip time.
    pub latency: Option<Duration>,
    /// Recent transfer speeds, oldest first.
    pub speeds: Seq<u64>,
    /// When the profile was last updated.
    pub last_updated: Instant,
}

/// The text of an optional string.
pub open spec fn text_of(s: Option<String>) -> Option<Seq<char>> {
    match s {
        Some(s) => Some(s@),
        None => None,
    }
}

/// `speeds` with one more, the oldest dropped where there are too many.
pub open spec fn slid(speeds: Seq<u64>, speed: u64) -> Seq<u64> {
    if speeds.len() >= MAX_SPEED_SAMPLES {
        speeds.drop_first().push(speed)
    } else {
        speeds.push(speed)
    }
}

impl ProfileView {
    /// A profile without measurements.
    pub open spec fn fresh(peer_id: Seq<u8>, now: Instant) -> ProfileView {
        ProfileView {
            peer_id,
            region: None,
            latency: None,
            speeds: Seq::empty(),
            last_updated: now,
        }
    }

    /// The window of speeds is bounded.
    pub open spec fn wf(self) -> bool {
        self.speeds.len() <= MAX_SPEED_SAMPLES
    }

    /// The profile after a latency measurement.
    pub open spec fn after_latency(self, rtt: Duration, now: Instant) -> ProfileView {
        ProfileView { latency: Some(rtt), last_updated: now, ..self }
    }

    /// The profile after a speed observation.
    pub open spec fn after_speed(self, speed: u64, now: Instant) -> ProfileView {
        ProfileView { speeds: slid(self.speeds, speed), last_updated: now, ..self }
    }

    /// The profile was not updated for the given time.
    pub open spec fn stale(self, max_age: Duration, now: Instant) -> bool {
        elapsed(now, self.last_updated) >= max_age.nanos
    }
}

/// Observed affinity data for a single peer.
#[derive(Debug, Clone)]
pub struct PeerProfile {
    peer_id: [u8; 20],
    region: Option<String>,
    latency: Option<Duration>,
    speed_samples: Vec<u64>,
    last_updated: Instant,
}

impl View for PeerProfile {
    type V = ProfileView;

    closed spec fn view(&self) -> ProfileView {
        ProfileView {
            peer_id: self.peer_id@,
            region: text_of(self.region),
            latency: self.latency,
            speeds: self.speed_samples@,
            last_updated: self.last_updated,
        }
    }
}

impl PeerProfile {
    /// The window of speeds is bounded.
    pub open spec fn wf(self) -> bool {
        self@.wf()
    }

    /// Creates a new peer profile with no measurements.
    pub fn new(peer_id: [u8; 20], now: Instant) -> (r: PeerProfile)
        ensures
            r.wf(),
            r@ == ProfileView::fresh(peer_id@, now),
    {
        PeerProfile {
            peer_id,
            region: None,
            latency: None,
            speed_samples: Vec::new(),
            last_updated: now,
        }
    }

    /// Sets the region hint for this peer.
    pub fn set_region(&mut self, region: String)
        ensures
            final(self)@ == (ProfileView { region: Some(region@), ..old(self)@ }),
    {
        self.region = Some(region);
    }

    /// Records a latency measurement (round-trip time).
    pub fn record_latency(&mut self, rtt: Duration, now: Instant)
        ensures
            final(self)@ == old(self)@.after_latency(rtt, now),
    {
        self.latency = Some(rtt);
        self.last_updated = now;
    }

    /// Records an observed transfer speed.
    pub fn record_speed(&mut self, speed: u64, now: Instant)
        requires
            old(self).wf(),
        ensures
            final(self).wf(),
            final(self)@ == old(self)@.after_speed(speed, now),
    {
        if self.speed_samples.len() >= MAX_SPEED_SAMPLES {
            let ghost before = self.speed_samples@;
            self.speed_samples.remove(0);
            assert(self.speed_samples@ == before.drop_first());
        }
        self.speed_samples.push(speed);
        self.last_updated = now;
    }

    /// Returns the peer's region hint.
    pub fn region(&self) -> (r: Option<&str>)
        ensures
            match r {
                Some(s) => self@.region == Some(s@),
                None => self@.region is None,
            },
    {
        match &self.region {
            Some(s) => Some(s.as_str()),
            None => None,
        }
    }

    /// Returns the most recent latency measurement.
    pub fn latency(&self) -> (r: Option<Duration>)
        ensures
            r == self@.latency,
    {
        self.latency
    }

    /// Returns the recent transfer speeds, oldest first.
    pub fn speed_samples(&self) -> (r: &[u64])
        ensures
            r@ == self@.speeds,
    {
        self.speed_samples.as_slice()
    }

    /// Returns the peer identifier.
    pub fn peer_id(&self) -> (r: &[u8; 20])
        ensures
            r@ == self@.peer_id,
    {
        &self.peer_id
    }

    /// Returns when this profile was last updated.
    pub fn last_updated(&self) -> (r: Instant)
        ensures
            r == self@.last_updated,
    {
        self.last_updated
    }
}

// ── Model of the scorer ─────────────────────────────────────────────

/// How the regions of two peers compare.
#[derive(Debug, Clone, Copy, PartialEq, Eq, Structural)]
pub enum RegionMatch {
    /// Both are known and the same.
    Same,
    /// Both are known and different.
    Different,
    /// One is not known.
    Unknown,
}

/// How two region hints compare.
pub open spec fn region_match(local: Option<Seq<char>>, remote: Option<Seq<char>>) -> RegionMatch {
    match (local, remote) {
        (Some(a), Some(b)) => if a == b {
            RegionMatch::Same
        } else {
            RegionMatch::Different
        },
        _ => RegionMatch::Unknown,
    }
}

/// What the scorer holds.
#[verifier::ext_equal]
pub struct ScorerView {
    /// Most peers that are tracked.
    pub max_peers: usize,
    /// Own region hint.
    pub local_region: Option<Seq<char>>,
    /// Profiles.
    pub profiles: Seq<ProfileView>,
    /// Highest speed observed so far.
    pub max_speed: u64,
}

/// The model of a list of profiles.
pub open spec fn profile_views(profiles: Seq<PeerProfile>) -> Seq<ProfileView> {
    Seq::new(profiles.len(), |i: int| profiles[i]@)
}

/// The profile at `i` is of this peer.
pub open spec fn is_at(profiles: Seq<ProfileView>, peer_id: Seq<u8>, i: int) -> bool {
    0 <= i < profiles.len() && profiles[i].peer_id == peer_id
}

/// Where the profile of a peer stands.
pub open spec fn place_of(profiles: Seq<ProfileView>, peer_id: Seq<u8>) -> Option<int> {
    if exists|i: int| is_at(profiles, peer_id, i) {
        Some(choose|i: int| is_at(profiles, peer_id, i))
    } else {
        None
    }
}

/// The profile at `i` is the first of those that were updated longest ago.
pub open spec fn is_oldest(profiles: Seq<ProfileView>, i: int) -> bool {
    &&& 0 <= i < profiles.len()
    &&& forall|j: int|
        0 <= j < profiles.len() ==> profiles[i].last_updated.nanos < (
        #[trigger] profiles[j]).last_updated.nanos || profiles[i].last_updated.nanos
            == profiles[j].last_updated.nanos && i <= j
}

/// `profiles` without the one at `i`, whose place the last one takes.
pub open spec fn swapped_out(profiles: Seq<ProfileView>, i: int) -> Seq<ProfileView> {
    profiles.update(i, profiles.last()).drop_last()
}

/// The profiles that were updated recently, in order.
pub open spec fn fresh_profiles(profiles: Seq<ProfileView>, max_age: Duration, now: Instant) -> Seq<
    ProfileView,
>
    decreases profiles.len(),
{
    if profiles.len() == 0 {
        Seq::empty()
    } else {
        let rest = fresh_profiles(profiles.drop_last(), max_age, now);
        if profiles.last().stale(max_age, now) {
            rest
        } else {
            rest.push(profiles.last())
        }
    }
}

/// The peers with their scores.
pub open spec fn scored(profiles: Seq<ProfileView>, scores: Seq<u64>) -> Seq<(Seq<u8>, u64)> {
    Seq::new(profiles.len(), |i: int| (profiles[i].peer_id, scores[i]))
}

/// Keys that put high scores first.
pub open spec fn score_keys(scores: Seq<u64>) -> Seq<u128> {
    Seq::new(scores.len(), |i: int| (u64::MAX - scores[i]) as u128)
}

/// The model of a list of peers with scores.
pub open spec fn scored_views(list: Seq<([u8; 20], u64)>) -> Seq<(Seq<u8>, u64)> {
    Seq::new(list.len(), |i: int| (list[i].0@, list[i].1))
}

/// No peer twice, and every profile in order.
pub open spec fn profiles_wf(profiles: Seq<ProfileView>) -> bool {
    &&& forall|i: int, j: int|
        0 <= i < j < profiles.len() ==> (#[trigger] profiles[i]).peer_id != (
        #[trigger] profiles[j]).peer_id
    &&& forall|i: int| 0 <= i < profiles.len() ==> (#[trigger] profiles[i]).wf()
}

impl ScorerView {
    /// No peer twice, and not more peers than allowed.
    pub open spec fn wf(self) -> bool {
        profiles_wf(self.profiles) && self.profiles.len() <= self.max_peers
    }

    /// The scorer after a peer was registered: a new one is tracked, and the
    /// one that was updated longest ago makes room if need be.
    pub open spec fn registered(self, peer_id: Seq<u8>, now: Instant) -> ScorerView {
        if self.max_peers == 0 || place_of(self.profiles, peer_id) is Some {
            self
        } else {
            let kept = if self.profiles.len() >= self.max_peers {
                swapped_out(self.profiles, choose|i: int| is_oldest(self.profiles, i))
            } else {
                self.profiles
            };
            ScorerView { profiles: kept.push(ProfileView::fresh(peer_id, now)), ..self }
        }
    }

    /// The scorer with another profile for a peer that is tracked.
    pub open spec fn with_profile(self, i: int, profile: ProfileView) -> ScorerView {
        ScorerView { profiles: self.profiles.update(i, profile), ..self }
    }
}

/// A peer has one profile at most.
proof fn lemma_place(profiles: Seq<ProfileView>, peer_id: Seq<u8>, i: int)
    requires
        profiles_wf(profiles),
        is_at(profiles, peer_id, i),
    ensures
        place_of(profiles, peer_id) == Some(i),
{
    let j = choose|j: int| is_at(profiles, peer_id, j);
    assert(is_at(profiles, peer_id, j));
    if i < j {
        assert(profiles[i].peer_id != profiles[j].peer_id);
    } else if j < i {
        assert(profiles[j].peer_id != profiles[i].peer_id);
    }
}

/// One profile is the oldest.
proof fn lemma_oldest(profiles: Seq<ProfileView>, i: int)
    requires
        is_oldest(profiles, i),
    ensures
        i == choose|k: int| is_oldest(profiles, k),
{
    let k = choose|k: int| is_oldest(profiles, k);
    assert(is_oldest(profiles, k));
    assert(profiles[i].last_updated.nanos <= profiles[k].last_updated.nanos);
    assert(profiles[k].last_updated.nanos <= profiles[i].last_updated.nanos);
}

/// Taking one profile out keeps the rest in order.
proof fn lemma_swapped_out(profiles: Seq<ProfileView>, i: int, peer_id: Seq<u8>)
    requires
        profiles_wf(profiles),
        0 <= i < profiles.len(),
        place_of(profiles, peer_id) is None,
    ensures
        profiles_wf(swapped_out(profiles, i)),
        forall|k: int|
            0 <= k < swapped_out(profiles, i).len() ==> (#[trigger] swapped_out(
                profiles,
                i,
            )[k]).peer_id != peer_id,
{
    let rest = swapped_out(profiles, i);
    let n = profiles.len() - 1;
    assert forall|k: int| 0 <= k < rest.len() implies #[trigger] rest[k] == profiles[if k == i {
        n
    } else {
        k
    }] by {}
    assert forall|a: int, b: int| 0 <= a < b < rest.len() implies (#[trigger] rest[a]).peer_id != (
    #[trigger] rest[b]).peer_id by {
        let x = if a == i { n } else { a };
        let y = if b == i { n } else { b };
        if x < y {
            assert(profiles[x].peer_id != profiles[y].peer_id);
        } else {
            assert(profiles[y].peer_id != profiles[x].peer_id);
        }
    }
    assert forall|k: int| 0 <= k < rest.len() implies (#[trigger] rest[k]).peer_id != peer_id by {
        assert(!is_at(profiles, peer_id, if k == i { n } else { k }));
    }
}

/// Pruning keeps what is left in order.
proof fn lemma_fresh_profiles(profiles: Seq<ProfileView>, max_age: Duration, now: Instant)
    requires
        profiles_wf(profiles),
    ensures
        profiles_wf(fresh_profiles(profiles, max_age, now)),
        fresh_profiles(profiles, max_age, now).len() <= profiles.len(),
        forall|k: int|
            0 <= k < fresh_profiles(profiles, max_age, now).len() ==> profiles.contains(
                #[trigger] fresh_profiles(profiles, max_age, now)[k],
            ),
    decreases profiles.len(),
{
    if profiles.len() > 0 {
        let front = profiles.drop_last();
        let last = profiles.last();
        let rest = fresh_profiles(front, max_age, now);
        let all = fresh_profiles(profiles, max_age, now);
        lemma_fresh_profiles(front, max_age, now);
        assert(profiles[profiles.len() - 1] == last);
        assert forall|k: int| 0 <= k < all.len() implies profiles.contains(#[trigger] all[k]) by {
            if k < rest.len() {
                assert(front.contains(rest[k]));
                let i = choose|i: int| 0 <= i < front.len() && front[i] == rest[k];
                assert(profiles[i] == all[k]);
            }
        }
        assert forall|i: int, j: int| 0 <= i < j < all.len() implies (#[trigger] all[i]).peer_id
            != (#[trigger] all[j]).peer_id by {
            if j < rest.len() {
                assert(rest[i].peer_id != rest[j].peer_id);
            } else {
                assert(front.contains(rest[i]));
                let k = choose|k: int| 0 <= k < front.len() && front[k] == rest[i];
                assert(profiles[k].peer_id != profiles[profiles.len() - 1].peer_id);
            }
        }
    }
}

/// Filtering records filters what is known of them.
proof fn lemma_filter_profiles(profiles: Seq<PeerProfile>, max_age: Duration, now: Instant)
    ensures
        profile_views(profiles.filter(|p: PeerProfile| !p@.stale(max_age, now)))
            == fresh_profiles(profile_views(profiles), max_age, now),
    decreases profiles.len(),
{
    reveal(Seq::filter);
    let keep = |p: PeerProfile| !p@.stale(max_age, now);
    if profiles.len() > 0 {
        lemma_filter_profiles(profiles.drop_last(), max_age, now);
        assert(profile_views(profiles).drop_last() == profile_views(profiles.drop_last()));
        let rest = profiles.drop_last().filter(keep);
        if keep(profiles.last()) {
            assert(profile_views(rest.push(profiles.last())) == profile_views(rest).push(
                profiles.last()@,
            ));
        }
    }
}

// ── Scorer ──────────────────────────────────────────────────────────

/// What the affinity of a peer is made of.
#[derive(Debug, Clone)]
pub struct AffinityFactors {
    /// How the regions compare.
    pub region: RegionMatch,
    /// Most recent round-trip time.
    pub latency: Option<Duration>,
    /// Recent transfer speeds, oldest first.
    pub speeds: Vec<u64>,
    /// Highest speed observed of any peer.
    pub max_speed: u64,
}

/// Tracks what affinity scores are made of: region, latency and throughput.
pub struct AffinityScorer {
    max_peers: usize,
    local_region: Option<String>,
    profiles: Vec<PeerProfile>,
    max_speed: u64,
}

impl View for AffinityScorer {
    type V = ScorerView;

    closed spec fn view(&self) -> ScorerView {
        ScorerView {
            max_peers: self.max_peers,
            local_region: text_of(self.local_region),
            profiles: profile_views(self.profiles@),
            max_speed: self.max_speed,
        }
    }
}

impl AffinityScorer {
    /// No peer twice, and not more peers than allowed.
    pub open spec fn wf(self) -> bool {
        self@.wf()
    }

    /// Creates a new affinity scorer.
    ///
    /// `local_region` is the own region hint. `floor_speed` is what counts as
    /// the highest speed before any is observed.
    pub fn new(max_peers: usize, local_region: Option<String>, floor_speed: u64) -> (r:
        AffinityScorer)
        ensures
            r.wf(),
            r@ == (ScorerView {
                max_peers,
                local_region: text_of(local_region),
                profiles: Seq::empty(),
                max_speed: floor_speed,
            }),
    {
        AffinityScorer { max_peers, local_region, profiles: Vec::new(), max_speed: floor_speed }
    }

    /// Finds the profile of a peer.
    fn find(&self, peer_id: &[u8; 20]) -> (r: Option<usize>)
        requires
            self.wf(),
        ensures
            match r {
                Some(i) => i < self@.profiles.len() && place_of(self@.profiles, peer_id@) == Some(
                    i as int,
                ),
                None => place_of(self@.profiles, peer_id@) is None,
            },
    {
        let mut i: usize = 0;
        while i < self.profiles.len()
            invariant
                self.wf(),
                self@.profiles.len() == self.profiles@.len(),
                i <= self.profiles@.len(),
                forall|k: int| 0 <= k < i ==> !#[trigger] is_at(self@.profiles, peer_id@, k),
            decreases self.profiles@.len() - i,
        {
            assert(self@.profiles[i as int] == self.profiles@[i as int]@);
            if arrays_equal(&self.profiles[i].peer_id, peer_id) {
                proof {
                    assert(is_at(self@.profiles, peer_id@, i as int));
                    lemma_place(self@.profiles, peer_id@, i as int);
                }
                return Some(i);
            }
            i += 1;
        }
        None
    }

    /// Finds the profile that was updated longest ago.
    fn oldest(&self) -> (r: usize)
        requires
            self@.profiles.len() > 0,
        ensures
            is_oldest(self@.profiles, r as int),
    {
        let mut oldest: usize = 0;
        let mut i: usize = 1;
        let ghost all = self@.profiles;
        while i < self.profiles.len()
            invariant
                all == profile_views(self.profiles@),
                1 <= i <= all.len(),
                oldest < i,
                forall|j: int|
                    0 <= j < i ==> all[oldest as int].last_updated.nanos < (
                    #[trigger] all[j]).last_updated.nanos || all[oldest as int].last_updated.nanos
                        == all[j].last_updated.nanos && oldest <= j,
            decreases all.len() - i,
        {
            assert(all[i as int] == self.profiles@[i as int]@);
            assert(all[oldest as int] == self.profiles@[oldest as int]@);
            if self.profiles[i].last_updated.nanos < self.profiles[oldest].last_updated.nanos {
                oldest = i;
            }
            i += 1;
        }
        oldest
    }

    /// Registers a new peer for tracking. Where all places are taken, the peer
    /// that was updated longest ago makes room.
    pub fn register_peer(&mut self, peer_id: [u8; 20], now: Instant)
        requires
            old(self).wf(),
        ensures
            final(self).wf(),
            final(self)@ == old(self)@.registered(peer_id@, now),
    {
        let ghost start = self@.profiles;
        if self.max_peers == 0 || self.find(&peer_id).is_some() {
            return;
        }
        proof {
            assert forall|k: int| 0 <= k < start.len() implies (#[trigger] start[k]).peer_id
                != peer_id@ by {
                assert(!is_at(start, peer_id@, k));
            }
        }
        if self.profiles.len() >= self.max_peers {
            let at: usize = self.oldest();
            proof {
                lemma_oldest(start, at as int);
                lemma_swapped_out(start, at as int, peer_id@);
            }
            self.profiles.swap_remove(at);
            assert(profile_views(self.profiles@) == swapped_out(start, at as int));
        }
        let ghost kept = profile_views(self.profiles@);
        let profile = PeerProfile::new(peer_id, now);
        let ghost fresh = profile@;
        self.profiles.push(profile);
        assert(profile_views(self.profiles@) == kept.push(fresh));
    }

    /// Sets the region hint for a peer.
    pub fn set_peer_region(&mut self, peer_id: &[u8; 20], region: String)
        requires
            old(self).wf(),
        ensures
            final(self).wf(),
            final(self)@ == (match place_of(old(self)@.profiles, peer_id@) {
                Some(i) => old(self)@.with_profile(
                    i,
                    ProfileView { region: Some(region@), ..old(self)@.profiles[i] },
                ),
                None => old(self)@,
            }),
    {
        let ghost start = self@;
        match self.find(peer_id) {
            Some(i) => {
                assert(self.profiles@[i as int]@ == start.profiles[i as int]);
                let ghost text = region@;
                self.profiles[i].set_region(region);
                assert(self@ == start.with_profile(
                    i as int,
                    ProfileView { region: Some(text), ..start.profiles[i as int] },
                ));
            },
            None => {},
        }
    }

    /// Records a latency measurement for a peer.
    pub fn record_peer_latency(&mut self, peer_id: &[u8; 20], rtt: Duration, now: Instant)
        requires
            old(self).wf(),
        ensures
            final(self).wf(),
            final(self)@ == (match place_of(old(self)@.profiles, peer_id@) {
                Some(i) => old(self)@.with_profile(
                    i,
                    old(self)@.profiles[i].after_latency(rtt, now),
                ),
                None => old(self)@,
            }),
    {
        let ghost start = self@;
        match self.find(peer_id) {
            Some(i) => {
                assert(self.profiles@[i as int]@ == start.profiles[i as int]);
                self.profiles[i].record_latency(rtt, now);
                assert(self@ == start.with_profile(
                    i as int,
                    start.profiles[i as int].after_latency(rtt, now),
                ));
            },
            None => {},
        }
    }

    /// Records a transfer speed observation for a peer. The highest speed
    /// counts even where the peer is not tracked.
    pub fn record_peer_speed(&mut self, peer_id: &[u8; 20], speed: u64, now: Instant)
        requires
            old(self).wf(),
        ensures
            final(self).wf(),
            final(self)@ == (ScorerView {
                profiles: match place_of(old(self)@.profiles, peer_id@) {
                    Some(i) => old(self)@.profiles.update(
                        i,
                        old(self)@.profiles[i].after_speed(speed, now),
                    ),
                    None => old(self)@.profiles,
                },
                max_speed: if speed > old(self)@.max_speed {
                    speed
                } else {
                    old(self)@.max_speed
                },
                ..old(self)@
            }),
    {
        let ghost start = self@;
        match self.find(peer_id) {
            Some(i) => {
                assert(self.profiles@[i as int]@ == start.profiles[i as int]);
                self.profiles[i].record_speed(speed, now);
                assert(self.profiles@[i as int]@ == start.profiles[i as int].after_speed(
                    speed,
                    now,
                ));
                assert(profile_views(self.profiles@) == start.profiles.update(
                    i as int,
                    start.profiles[i as int].after_speed(speed, now),
                ));
            },
            None => {},
        }
        if speed > self.max_speed {
            self.max_speed = speed;
        }
    }

    /// What the affinity of a peer is made of, or `None` for unknown peers.
    pub fn score_factors(&self, peer_id: &[u8; 20]) -> (r: Option<AffinityFactors>)
        requires
            self.wf(),
        ensures
            match r {
                Some(f) => {
                    &&& place_of(self@.profiles, peer_id@) matches Some(i)
                    &&& f.region == region_match(self@.local_region, self@.profiles[i].region)
                    &&& f.latency == self@.profiles[i].latency
                    &&& f.speeds@ == self@.profiles[i].speeds
                    &&& f.max_speed == self@.max_speed
                },
                None => place_of(self@.profiles, peer_id@) is None,
            },
    {
        let profile = match self.find(peer_id) {
            Some(i) => &self.profiles[i],
            None => return None,
        };
        let region = match (&self.local_region, &profile.region) {
            (Some(local), Some(remote)) => if str_equal(local.as_str(), remote.as_str()) {
                RegionMatch::Same
            } else {
                RegionMatch::Different
            },
            _ => RegionMatch::Unknown,
        };
        Some(
            AffinityFactors {
                region,
                latency: profile.latency,
                speeds: vstd::slice::slice_to_vec(profile.speed_samples.as_slice()),
                max_speed: self.max_speed,
            },
        )
    }

    /// Returns all peers ranked by affinity score (best first). `scores` holds
    /// the score of each peer, in the order of [`AffinityScorer::profiles`].
    pub fn ranked_peers(&self, scores: &[u64]) -> (r: Vec<([u8; 20], u64)>)
        requires
            scores@.len() == self@.profiles.len(),
        ensures
            is_ranked_by(
                scored_views(r@),
                scored(self@.profiles, scores@),
                score_keys(scores@),
            ),
    {
        let mut keys: Vec<u128> = Vec::new();
        let mut i: usize = 0;
        while i < scores.len()
            invariant
                i <= scores@.len(),
                keys@ == score_keys(scores@).take(i as int),
            decreases scores@.len() - i,
        {
            keys.push((0xffff_ffff_ffff_ffff - scores[i]) as u128);
            i += 1;
        }
        assert(score_keys(scores@).take(i as int) == score_keys(scores@));
        let order = stable_order(&keys);
        let mut ranked: Vec<([u8; 20], u64)> = Vec::new();
        let ghost items = scored(self@.profiles, scores@);
        let mut k: usize = 0;
        while k < order.len()
            invariant
                is_stable_order(keys@, order@),
                keys@.len() == scores@.len(),
                scores@.len() == self.profiles@.len(),
                items == scored(profile_views(self.profiles@), scores@),
                k <= order@.len(),
                scored_views(ranked@) == arranged(items, order@).take(k as int),
            decreases order@.len() - k,
        {
            let at: usize = order[k];
            let ghost before = scored_views(ranked@);
            ranked.push((self.profiles[at].peer_id, scores[at]));
            assert(scored_views(ranked@) == before.push(items[at as int]));
            k += 1;
        }
        assert(arranged(items, order@).take(k as int) == arranged(items, order@));
        ranked
    }

    /// Returns the profiles of all tracked peers.
    pub fn profiles(&self) -> (r: &[PeerProfile])
        ensures
            profile_views(r@) == self@.profiles,
    {
        self.profiles.as_slice()
    }

    /// Removes a peer from tracking.
    pub fn remove_peer(&mut self, peer_id: &[u8; 20])
        requires
            old(self).wf(),
        ensures
            final(self).wf(),
            final(self)@ == (match place_of(old(self)@.profiles, peer_id@) {
                Some(i) => ScorerView { profiles: old(self)@.profiles.remove(i), ..old(self)@ },
                None => old(self)@,
            }),
    {
        let ghost start = self@;
        match self.find(peer_id) {
            Some(i) => {
                self.profiles.remove(i);
                assert(profile_views(self.profiles@) == start.profiles.remove(i as int));
            },
            None => {},
        }
    }

    /// Returns the number of peers being tracked.
    pub fn peer_count(&self) -> (r: usize)
        ensures
            r == self@.profiles.len(),
    {
        self.profiles.len()
    }

    /// Returns the own region hint.
    pub fn local_region(&self) -> (r: Option<&str>)
        ensures
            match r {
                Some(s) => self@.local_region == Some(s@),
                None => self@.local_region is None,
            },
    {
        match &self.local_region {
            Some(s) => Some(s.as_str()),
            None => None,
        }
    }

    /// Returns the profile for a specific peer.
    pub fn get_profile(&self, peer_id: &[u8; 20]) -> (r: Option<&PeerProfile>)
        requires
            self.wf(),
        ensures
            match r {
                Some(p) => place_of(self@.profiles, peer_id@) matches Some(i)
                    && p@ == self@.profiles[i],
                None => place_of(self@.profiles, peer_id@) is None,
            },
    {
        match self.find(peer_id) {
            Some(i) => Some(&self.profiles[i]),
            None => None,
        }
    }

    /// Prunes peers not updated within the given duration. Returns how many
    /// there were.
    pub fn prune_stale(&mut self, max_age: Duration, now: Instant) -> (r: usize)
        requires
            old(self).wf(),
        ensures
            final(self).wf(),
            final(self)@ == (ScorerView {
                profiles: fresh_profiles(old(self)@.profiles, max_age, now),
                ..old(self)@
            }),
            r == old(self)@.profiles.len() - final(self)@.profiles.len(),
    {
        let before: usize = self.profiles.len();
        proof {
            lemma_fresh_profiles(self@.profiles, max_age, now);
            lemma_filter_profiles(self.profiles@, max_age, now);
        }
        let keep = |p: &PeerProfile| -> (kept: bool)
            ensures
                kept == !p@.stale(max_age, now),
        {
            now.duration_since(p.last_updated).nanos < max_age.nanos
        };
        retain(
            &mut self.profiles,
            keep,
            Ghost(|p: PeerProfile| !p@.stale(max_age, now)),
        );
        before - self.profiles.len()
    }
}

// ── Laws ────────────────────────────────────────────────────────────

/// Registering a peer twice is the same as registering it once.
pub proof fn law_registration_is_idempotent(
    v: ScorerView,
    peer_id: Seq<u8>,
    first: Instant,
    second: Instant,
)
    ensures
        v.registered(peer_id, first).registered(peer_id, second) == v.registered(peer_id, first),
{
    let w = v.registered(peer_id, first);
    if v.max_peers > 0 && place_of(v.profiles, peer_id) is None {
        assert(is_at(w.profiles, peer_id, w.profiles.len() - 1));
    }
}

/// A hint from the same region is a match, one from another is not, and no
/// hint is neither.
pub proof fn law_region_match(local: Seq<char>, remote: Seq<char>)
    ensures
        region_match(Some(local), Some(local)) is Same,
        local != remote ==> region_match(Some(local), Some(remote)) is Different,
        region_match(Some(local), None) is Unknown,
        region_match(None, Some(remote)) is Unknown,
{
}

/// The window of speeds is the end of all speeds: the recorded one stands last,
/// after as many of the former ones as there is room for, the oldest going first.
pub proof fn law_speed_window_keeps_latest(p: ProfileView, speed: u64, now: Instant)
    requires
        p.wf(),
    ensures
        ({
            let speeds = p.after_speed(speed, now).speeds;
            &&& speeds[speeds.len() - 1] == speed
            &&& speeds.len() == (if p.speeds.len() < 20 {
                p.speeds.len() + 1
            } else {
                20
            })
            &&& speeds == p.speeds.push(speed).skip(p.speeds.len() + 1 - speeds.len())
        }),
        p.after_speed(speed, now).last_updated == now,
        p.after_speed(speed, now).peer_id == p.peer_id,
        p.after_speed(speed, now).region == p.region,
        p.after_speed(speed, now).latency == p.latency,
{
    if p.speeds.len() >= 20 {
        assert(p.speeds.push(speed).skip(1) == p.speeds.drop_first().push(speed));
    } else {
        assert(p.speeds.push(speed).skip(0) == p.speeds.push(speed));
    }
}

/// A measured latency replaces the one before, and nothing else but the time of
/// the update. A new profile has no measurements.
pub proof fn law_latency_is_the_latest(p: ProfileView, rtt: Duration, now: Instant, id: Seq<u8>)
    ensures
        p.after_latency(rtt, now) == (ProfileView {
            latency: Some(rtt),
            last_updated: now,
            ..p
        }),
        ProfileView::fresh(id, now).peer_id == id,
        ProfileView::fresh(id, now).region is None,
        ProfileView::fresh(id, now).latency is None,
        ProfileView::fresh(id, now).speeds.len() == 0,
        ProfileView::fresh(id, now).last_updated == now,
{
}

/// A new peer is tracked from now on, without measurements. Where all places are
/// taken one peer makes room, one that nobody was updated before; all others
/// keep their profiles. A peer that is tracked already changes nothing.
pub proof fn law_registration_makes_room(v: ScorerView, peer_id: Seq<u8>, now: Instant)
    requires
        v.wf(),
    ensures
        v.max_peers == 0 ==> v.registered(peer_id, now) == v,
        (exists|i: int| 0 <= i < v.profiles.len() && (#[trigger] v.profiles[i]).peer_id == peer_id)
            ==> v.registered(peer_id, now) == v,
        v.max_peers > 0 && (forall|i: int|
            0 <= i < v.profiles.len() ==> (#[trigger] v.profiles[i]).peer_id != peer_id) ==> {
            let w = v.registered(peer_id, now);
            &&& w.profiles.len() > 0
            &&& w.profiles[w.profiles.len() - 1] == (ProfileView {
                peer_id,
                region: None,
                latency: None,
                speeds: Seq::empty(),
                last_updated: now,
            })
            &&& v.profiles.len() < v.max_peers ==> w.profiles.drop_last() == v.profiles
            &&& v.profiles.len() == v.max_peers ==> w.profiles.len() == v.max_peers && exists|
                i: int,
            |
                0 <= i < v.profiles.len() && #[trigger] makes_room(v.profiles, w.profiles, i)
        },
        v.registered(peer_id, now).max_speed == v.max_speed,
        v.registered(peer_id, now).max_peers == v.max_peers,
        v.registered(peer_id, now).local_region == v.local_region,
{
    let w = v.registered(peer_id, now);
    if exists|i: int| 0 <= i < v.profiles.len() && (#[trigger] v.profiles[i]).peer_id == peer_id {
        let i = choose|i: int|
            0 <= i < v.profiles.len() && (#[trigger] v.profiles[i]).peer_id == peer_id;
        assert(is_at(v.profiles, peer_id, i));
    } else if v.max_peers > 0 {
        assert(place_of(v.profiles, peer_id) is None);
        assert(w.profiles.drop_last().push(ProfileView::fresh(peer_id, now)) == w.profiles);
        if v.profiles.len() == v.max_peers {
            lemma_some_oldest(v.profiles, v.profiles.len() as int);
            let at = choose|i: int| is_oldest(v.profiles, i);
            assert(is_oldest(v.profiles, at));
            let kept = swapped_out(v.profiles, at);
            let n = v.profiles.len() - 1;
            assert forall|j: int| 0 <= j < v.profiles.len() && j != at implies w.profiles.contains(
                #[trigger] v.profiles[j],
            ) by {
                let k = if j == n { at } else { j };
                assert(kept[k] == v.profiles[j]);
                assert(w.profiles[k] == v.profiles[j]);
            }
            assert(makes_room(v.profiles, w.profiles, at));
        }
    }
}

/// Nobody was updated before the peer at `i`, and all others are still there.
pub open spec fn makes_room(before: Seq<ProfileView>, after: Seq<ProfileView>, i: int) -> bool {
    &&& forall|j: int|
        0 <= j < before.len() ==> before[i].last_updated.nanos <= (
        #[trigger] before[j]).last_updated.nanos
    &&& forall|j: int|
        0 <= j < before.len() && j != i ==> after.contains(#[trigger] before[j])
}

/// Among the first profiles one is the oldest.
proof fn lemma_some_oldest(profiles: Seq<ProfileView>, n: int)
    requires
        0 < n <= profiles.len(),
    ensures
        exists|i: int| #[trigger] is_oldest_of(profiles, n, i),
        n == profiles.len() ==> exists|i: int| is_oldest(profiles, i),
    decreases n,
{
    if n == 1 {
        assert(is_oldest_of(profiles, n, 0));
    } else {
        lemma_some_oldest(profiles, n - 1);
        let c = choose|i: int| #[trigger] is_oldest_of(profiles, n - 1, i);
        if profiles[n - 1].last_updated.nanos < profiles[c].last_updated.nanos {
            assert(is_oldest_of(profiles, n, n - 1));
        } else {
            assert(is_oldest_of(profiles, n, c));
        }
    }
    if n == profiles.len() {
        let i = choose|i: int| #[trigger] is_oldest_of(profiles, n, i);
        assert(is_oldest(profiles, i));
    }
}

/// The profile at `i` is the oldest of the first `n`.
spec fn is_oldest_of(profiles: Seq<ProfileView>, n: int, i: int) -> bool {
    &&& 0 <= i < n
    &&& forall|j: int|
        0 <= j < n ==> profiles[i].last_updated.nanos < (#[trigger] profiles[j]).last_updated.nanos
            || profiles[i].last_updated.nanos == profiles[j].last_updated.nanos && i <= j
}

/// Pruning keeps the peers that were updated less than the given time ago, in
/// order.
pub proof fn law_pruning_goes_by_age(profiles: Seq<ProfileView>, max_age: Duration, now: Instant)
    ensures
        fresh_profiles(profiles, max_age, now) == profiles.filter(
            |p: ProfileView|
                now.nanos < p.last_updated.nanos + max_age.nanos && max_age.nanos > 0,
        ),
    decreases profiles.len(),
{
    reveal(Seq::filter);
    if profiles.len() > 0 {
        law_pruning_goes_by_age(profiles.drop_last(), max_age, now);
    }
}

/// A ranking puts higher scores first and lists every peer with its own score.
pub proof fn law_ranking_is_by_affinity(
    out: Seq<(Seq<u8>, u64)>,
    profiles: Seq<ProfileView>,
    scores: Seq<u64>,
    p: int,
    q: int,
)
    requires
        scores.len() == profiles.len(),
        is_ranked_by(out, scored(profiles, scores), score_keys(scores)),
        0 <= p < q < out.len(),
    ensures
        out.len() == profiles.len(),
        out[p].1 >= out[q].1,
        exists|i: int|
            0 <= i < profiles.len() && (#[trigger] profiles[i]).peer_id == out[p].0 && scores[i]
                == out[p].1,
        forall|i: int|
            0 <= i < profiles.len() ==> out.contains(
                ((#[trigger] profiles[i]).peer_id, scores[i]),
            ),
{
    let items = scored(profiles, scores);
    let keys = score_keys(scores);
    let order = choose|order: Seq<usize>| #[trigger]
        is_stable_order(keys, order) && out == arranged(items, order);
    assert(crate::rank::goes_before(keys, order[p] as int, order[q] as int));
    assert(0 <= order[p] < profiles.len());
    assert(profiles[order[p] as int].peer_id == out[p].0);
    assert forall|i: int| 0 <= i < profiles.len() implies out.contains(
        ((#[trigger] profiles[i]).peer_id, scores[i]),
    ) by {
        crate::rank::lemma_stable_order_covers(keys, order, i);
        let at = choose|at: int| 0 <= at < order.len() && #[trigger] order[at] == i;
        assert(out[at] == items[i]);
    }
}

/// A peer is found exactly if it is tracked, with its own profile.
pub proof fn law_profile_is_found(profiles: Seq<ProfileView>, peer_id: Seq<u8>, i: int)
    requires
        profiles_wf(profiles),
    ensures
        0 <= i < profiles.len() && profiles[i].peer_id == peer_id ==> place_of(profiles, peer_id)
            == Some(i),
        place_of(profiles, peer_id) matches Some(k) ==> 0 <= k < profiles.len()
            && profiles[k].peer_id == peer_id,
{
    if 0 <= i < profiles.len() && profiles[i].peer_id == peer_id {
        assert(is_at(profiles, peer_id, i));
        lemma_place(profiles, peer_id, i);
    }
    if place_of(profiles, peer_id) is Some {
        assert(is_at(profiles, peer_id, place_of(profiles, peer_id)->0));
    }
}

/// How many speeds are kept per peer, and how many peers.
pub proof fn law_limits()
    ensures
        MAX_SPEED_SAMPLES == 20,
        DEFAULT_MAX_PEERS == 256,
{
}

} // verus!
