//! Mirror health tracking: availability, failure detection and selection of
//! HTTP mirrors.
//!
//! Every mirror has a [`MirrorEntry`] with its latencies, its success and
//! failure counts and its heartbeat history, and is in one of four
//! [`HealthTier`]s. A [`MirrorRegistry`] keeps the mirrors and picks the best.
//! Suspicion levels and composite scores are statistics that the caller
//! computes from what an entry tells; they come in as a [`Suspicion`] and as
//! numbers that order like the scores.

use vstd::prelude::*;

use crate::list::retain;
use crate::phi_detector::slid;
use crate::phi_detector::slide;
use crate::phi_detector::DetectorView;
use crate::phi_detector::PhiDetector;
use crate::phi_detector::Suspicion;
use crate::phi_detector::DEFAULT_WINDOW_SIZE;
use crate::rank::arranged;
use crate::rank::is_kth_smallest;
use crate::rank::is_ranked_by;
use crate::rank::is_stable_order;
use crate::rank::kth_smallest;
use crate::rank::stable_order;
use crate::text::decimal;
use crate::text::push_decimal;
use crate::text::str_equal;
use crate::time::elapsed;
use crate::time::Duration;
use crate::time::Instant;

verus! {

/// Maximum number of latency samples retained per mirror.
pub const MAX_LATENCY_SAMPLES: usize = 100;

/// Fewest latency samples for a 90th percentile.
pub const MIN_P90_SAMPLES: usize = 5;

/// Consecutive failures before a mirror is declared dead.
pub const CONSECUTIVE_FAILURE_THRESHOLD: u32 = 3;

/// Time after which a dead mirror can be retried: 5 minutes, in nanoseconds.
pub const DEAD_PROBE_NANOS: u128 = 300_000_000_000;

/// Classification of a mirror's operational health.
#[derive(Debug, Clone, Copy, PartialEq, Eq, PartialOrd, Ord, Hash, Structural)]
pub enum HealthTier {
    /// Mirror is responsive, fast, and reliable.
    Healthy,
    /// Mirror is showing signs of degradation but is still usable.
    Suspect,
    /// Mirror has significant problems but hasn't been declared dead.
    Degraded,
    /// Mirror is considered offline.
    Dead,
}

impl HealthTier {
    /// How far down a tier stands.
    pub open spec fn depth(self) -> int {
        match self {
            HealthTier::Healthy => 0,
            HealthTier::Suspect => 1,
            HealthTier::Degraded => 2,
            HealthTier::Dead => 3,
        }
    }

    /// How far down the tier stands.
    fn rank(self) -> (r: u128)
        ensures
            r == self.depth(),
    {
        match self {
            HealthTier::Healthy => 0,
            HealthTier::Suspect => 1,
            HealthTier::Degraded => 2,
            HealthTier::Dead => 3,
        }
    }
}

// ── Mirror entry ────────────────────────────────────────────────────

/// What is known of a mirror.
#[verifier::ext_equal]
pub struct MirrorView {
    /// Base URL.
    pub url: Seq<char>,
    /// Heartbeat history.
    pub phi: DetectorView,
    /// Recent latencies, oldest first.
    pub latencies: Seq<Duration>,
    /// Number of requests.
    pub total_requests: u64,
    /// Number of successful responses.
    pub total_successes: u64,
    /// Failures since the last success.
    pub consecutive_failures: u32,
    /// When the last successful response came.
    pub last_success: Option<Instant>,
    /// When the mirror was last declared dead.
    pub last_dead_at: Option<Instant>,
    /// Health tier.
    pub tier: HealthTier,
}

/// One more, unless the counter is full.
pub open spec fn counted(n: u64) -> u64 {
    if n < u64::MAX {
        (n + 1) as u64
    } else {
        n
    }
}

/// Latencies as numbers.
pub open spec fn latency_keys(latencies: Seq<Duration>) -> Seq<u128> {
    Seq::new(latencies.len(), |i: int| latencies[i].nanos)
}

impl MirrorView {
    /// Bounded windows, and not more successes than requests.
    pub open spec fn wf(self) -> bool {
        &&& self.phi.wf()
        &&& self.latencies.len() <= MAX_LATENCY_SAMPLES
        &&& self.total_successes <= self.total_requests
    }

    /// Less than half of the requests succeeded.
    pub open spec fn mostly_fails(self) -> bool {
        self.total_requests > 0 && 2 * self.total_successes < self.total_requests
    }

    /// Less than nine tenths of the requests succeeded.
    pub open spec fn often_fails(self) -> bool {
        self.total_requests > 0 && 10 * self.total_successes < 9 * self.total_requests
    }

    /// The tier that the record and the suspicion give.
    pub open spec fn judged(self, suspicion: Suspicion) -> HealthTier {
        if self.consecutive_failures >= CONSECUTIVE_FAILURE_THRESHOLD || suspicion is Critical {
            HealthTier::Dead
        } else if suspicion is High || self.mostly_fails() {
            HealthTier::Degraded
        } else if suspicion is Elevated || self.often_fails() {
            HealthTier::Suspect
        } else {
            HealthTier::Healthy
        }
    }

    /// The record with its tier brought up to date.
    pub open spec fn classified(self, suspicion: Suspicion, now: Instant) -> MirrorView {
        let tier = self.judged(suspicion);
        MirrorView {
            tier,
            last_dead_at: if tier is Dead && !(self.tier is Dead) {
                Some(now)
            } else {
                self.last_dead_at
            },
            ..self
        }
    }

    /// The record after a successful response.
    pub open spec fn after_success(
        self,
        latency: Duration,
        suspicion: Suspicion,
        now: Instant,
    ) -> MirrorView {
        MirrorView {
            total_requests: counted(self.total_requests),
            total_successes: counted(self.total_successes),
            consecutive_failures: 0,
            last_success: Some(now),
            phi: self.phi.after_heartbeat(now),
            latencies: slid(self.latencies, MAX_LATENCY_SAMPLES as int, latency),
            ..self
        }.classified(suspicion, now)
    }

    /// The record after a failed request.
    pub open spec fn after_failure(self, suspicion: Suspicion, now: Instant) -> MirrorView {
        MirrorView {
            total_requests: counted(self.total_requests),
            consecutive_failures: if self.consecutive_failures < u32::MAX {
                (self.consecutive_failures + 1) as u32
            } else {
                self.consecutive_failures
            },
            ..self
        }.classified(suspicion, now)
    }

    /// A dead mirror that may be retried.
    pub open spec fn probeable(self, now: Instant) -> bool {
        &&& self.tier is Dead
        &&& self.last_dead_at matches Some(t)
        &&& elapsed(now, t) >= DEAD_PROBE_NANOS
    }

    /// A mirror that may be selected.
    pub open spec fn selectable(self, now: Instant) -> bool {
        !(self.tier is Dead) || self.probeable(now)
    }

    /// A mirror that has been dead for longer than the given duration, without
    /// a success since it was declared dead.
    pub open spec fn prunable(self, older_than: Duration, now: Instant) -> bool {
        &&& self.tier is Dead
        &&& self.last_dead_at matches Some(t)
        &&& elapsed(now, t) > older_than.nanos
        &&& self.last_success matches Some(s) ==> s.nanos <= t.nanos
    }

    /// A mirror without history.
    pub open spec fn fresh(url: Seq<char>, now: Instant) -> MirrorView {
        MirrorView {
            url,
            phi: DetectorView::fresh(now, DEFAULT_WINDOW_SIZE),
            latencies: Seq::empty(),
            total_requests: 0,
            total_successes: 0,
            consecutive_failures: 0,
            last_success: None,
            last_dead_at: None,
            tier: HealthTier::Healthy,
        }
    }
}

/// Health and performance record for a single HTTP mirror.
#[derive(Debug)]
pub struct MirrorEntry {
    url: String,
    phi: PhiDetector,
    latencies: Vec<Duration>,
    total_requests: u64,
    total_successes: u64,
    consecutive_failures: u32,
    last_success: Option<Instant>,
    last_dead_at: Option<Instant>,
    tier: HealthTier,
}

impl View for MirrorEntry {
    type V = MirrorView;

    closed spec fn view(&self) -> MirrorView {
        MirrorView {
            url: self.url@,
            phi: self.phi@,
            latencies: self.latencies@,
            total_requests: self.total_requests,
            total_successes: self.total_successes,
            consecutive_failures: self.consecutive_failures,
            last_success: self.last_success,
            last_dead_at: self.last_dead_at,
            tier: self.tier,
        }
    }
}

impl MirrorEntry {
    /// Bounded windows, and not more successes than requests.
    pub open spec fn wf(self) -> bool {
        self@.wf()
    }

    /// Creates a new mirror entry with no history. New mirrors start as
    /// healthy.
    pub fn new(url: String, now: Instant) -> (r: MirrorEntry)
        ensures
            r.wf(),
            r@ == MirrorView::fresh(url@, now),
    {
        MirrorEntry {
            url,
            phi: PhiDetector::new(now),
            latencies: Vec::new(),
            total_requests: 0,
            total_successes: 0,
            consecutive_failures: 0,
            last_success: None,
            last_dead_at: None,
            tier: HealthTier::Healthy,
        }
    }

    /// Returns this mirror's base URL.
    pub fn url(&self) -> (r: &str)
        ensures
            r@ == self@.url,
    {
        self.url.as_str()
    }

    /// Returns the heartbeat history.
    pub fn detector(&self) -> (r: &PhiDetector)
        ensures
            r@ == self@.phi,
    {
        &self.phi
    }

    /// Returns the current health tier.
    pub fn tier(&self) -> (r: HealthTier)
        ensures
            r == self@.tier,
    {
        self.tier
    }

    /// Returns total requests recorded.
    pub fn total_requests(&self) -> (r: u64)
        ensures
            r == self@.total_requests,
    {
        self.total_requests
    }

    /// Returns total successful responses.
    pub fn total_successes(&self) -> (r: u64)
        ensures
            r == self@.total_successes,
    {
        self.total_successes
    }

    /// Returns when the last successful response came.
    pub fn last_success(&self) -> (r: Option<Instant>)
        ensures
            r == self@.last_success,
    {
        self.last_success
    }

    /// Returns the number of latency samples.
    pub fn latency_count(&self) -> (r: usize)
        ensures
            r == self@.latencies.len(),
    {
        self.latencies.len()
    }

    /// Latencies as numbers.
    fn latency_nanos(&self) -> (r: Vec<u128>)
        ensures
            r@ == latency_keys(self@.latencies),
    {
        let mut keys: Vec<u128> = Vec::new();
        let mut i: usize = 0;
        while i < self.latencies.len()
            invariant
                i <= self.latencies@.len(),
                keys@ == latency_keys(self.latencies@).take(i as int),
            decreases self.latencies@.len() - i,
        {
            keys.push(self.latencies[i].nanos);
            i += 1;
        }
        keys
    }

    /// Returns the median latency, or `None` if no samples exist.
    pub fn median_latency(&self) -> (r: Option<Duration>)
        ensures
            match r {
                Some(d) => is_kth_smallest(
                    latency_keys(self@.latencies),
                    self@.latencies.len() as int / 2,
                    d.nanos,
                ),
                None => self@.latencies.len() == 0,
            },
    {
        if self.latencies.len() == 0 {
            return None;
        }
        let keys = self.latency_nanos();
        Some(Duration { nanos: kth_smallest(&keys, keys.len() / 2) })
    }

    /// Returns the 90th percentile latency, or `None` if there are fewer than
    /// five samples.
    pub fn p90_latency(&self) -> (r: Option<Duration>)
        requires
            self.wf(),
        ensures
            match r {
                Some(d) => self@.latencies.len() >= MIN_P90_SAMPLES && is_kth_smallest(
                    latency_keys(self@.latencies),
                    self@.latencies.len() as int * 9 / 10,
                    d.nanos,
                ),
                None => self@.latencies.len() < MIN_P90_SAMPLES,
            },
    {
        if self.latencies.len() < MIN_P90_SAMPLES {
            return None;
        }
        let keys = self.latency_nanos();
        Some(Duration { nanos: kth_smallest(&keys, keys.len() * 9 / 10) })
    }

    /// Records a successful response with the given latency. `suspicion` is
    /// the level right after the heartbeat that the response is.
    pub fn record_success(&mut self, latency: Duration, suspicion: Suspicion, now: Instant)
        requires
            old(self).wf(),
        ensures
            final(self).wf(),
            final(self)@ == old(self)@.after_success(latency, suspicion, now),
    {
        self.total_requests = self.total_requests.saturating_add(1);
        self.total_successes = self.total_successes.saturating_add(1);
        self.consecutive_failures = 0;
        self.last_success = Some(now);
        self.phi.record_heartbeat(now);
        slide(&mut self.latencies, MAX_LATENCY_SAMPLES, latency);
        self.update_tier(suspicion, now);
    }

    /// Records a failed request to this mirror.
    pub fn record_failure(&mut self, suspicion: Suspicion, now: Instant)
        requires
            old(self).wf(),
        ensures
            final(self).wf(),
            final(self)@ == old(self)@.after_failure(suspicion, now),
    {
        self.total_requests = self.total_requests.saturating_add(1);
        self.consecutive_failures = self.consecutive_failures.saturating_add(1);
        self.update_tier(suspicion, now);
    }

    /// Returns whether a dead mirror is eligible for a recovery probe.
    pub fn should_probe(&self, now: Instant) -> (r: bool)
        ensures
            r == self@.probeable(now),
    {
        if self.tier != HealthTier::Dead {
            return false;
        }
        match self.last_dead_at {
            Some(dead_at) => now.duration_since(dead_at).nanos >= DEAD_PROBE_NANOS,
            None => false,
        }
    }

    /// Consecutive failure count.
    pub fn consecutive_failures(&self) -> (r: u32)
        ensures
            r == self@.consecutive_failures,
    {
        self.consecutive_failures
    }

    /// Reclassifies this mirror's health tier based on current state.
    fn update_tier(&mut self, suspicion: Suspicion, now: Instant)
        ensures
            final(self)@ == old(self)@.classified(suspicion, now),
    {
        let was_dead = self.tier == HealthTier::Dead;
        let requests: u128 = self.total_requests as u128;
        let successes: u128 = self.total_successes as u128;
        self.tier =
        if self.consecutive_failures >= CONSECUTIVE_FAILURE_THRESHOLD || suspicion
            == Suspicion::Critical {
            HealthTier::Dead
        } else if suspicion == Suspicion::High || (requests > 0 && 2 * successes < requests) {
            HealthTier::Degraded
        } else if suspicion == Suspicion::Elevated || (requests > 0 && 10 * successes < 9
            * requests) {
            HealthTier::Suspect
        } else {
            HealthTier::Healthy
        };
        if self.tier == HealthTier::Dead && !was_dead {
            self.last_dead_at = Some(now);
        }
    }
}

// ── Errors and counts ───────────────────────────────────────────────

/// Summary of mirrors at each health tier.
#[derive(Debug, Clone, Copy, PartialEq, Eq, Structural)]
pub struct TierCounts {
    /// Mirrors responding normally.
    pub healthy: usize,
    /// Mirrors showing early degradation signs.
    pub suspect: usize,
    /// Mirrors with significant problems.
    pub degraded: usize,
    /// Dead mirrors not yet eligible for probing.
    pub dead: usize,
    /// Dead mirrors eligible for recovery probe.
    pub dead_probeable: usize,
}

impl Default for TierCounts {
    fn default() -> (r: TierCounts)
        ensures
            r.healthy == 0,
            r.suspect == 0,
            r.degraded == 0,
            r.dead == 0,
            r.dead_probeable == 0,
    {
        TierCounts { healthy: 0, suspect: 0, degraded: 0, dead: 0, dead_probeable: 0 }
    }
}

/// Errors from mirror registry operations.
#[derive(Debug)]
pub enum MirrorRegistryError {
    /// Registry has reached its capacity limit.
    Full {
        /// Capacity limit.
        max: usize,
    },
    /// A mirror with this URL already exists.
    Duplicate {
        /// The existing URL.
        url: String,
    },
}

/// What an error says, with its text as a character sequence.
pub enum RegistryErrorView {
    Full { max: usize },
    Duplicate { url: Seq<char> },
}

impl View for MirrorRegistryError {
    type V = RegistryErrorView;

    open spec fn view(&self) -> RegistryErrorView {
        match *self {
            MirrorRegistryError::Full { max } => RegistryErrorView::Full { max },
            MirrorRegistryError::Duplicate { url } => RegistryErrorView::Duplicate { url: url@ },
        }
    }
}

impl RegistryErrorView {
    /// The text shown for an error.
    pub open spec fn text(self) -> Seq<char> {
        match self {
            RegistryErrorView::Full { max } => "mirror registry full: "@ + decimal(max as nat)
                + " maximum mirrors"@,
            RegistryErrorView::Duplicate { url } => "duplicate mirror URL: "@ + url,
        }
    }
}

impl MirrorRegistryError {
    /// The text shown for this error.
    pub fn display(&self) -> (r: String)
        ensures
            r@ == self@.text(),
    {
        let mut out = String::new();
        match self {
            MirrorRegistryError::Full { max } => {
                out.append("mirror registry full: ");
                push_decimal(&mut out, *max as u64);
                out.append(" maximum mirrors");
            },
            MirrorRegistryError::Duplicate { url } => {
                out.append("duplicate mirror URL: ");
                out.append(url.as_str());
            },
        }
        out
    }
}

// ── Registry model ──────────────────────────────────────────────────

/// The model of a list of mirrors.
pub open spec fn mirror_views(mirrors: Seq<MirrorEntry>) -> Seq<MirrorView> {
    Seq::new(mirrors.len(), |i: int| mirrors[i]@)
}

/// Mirrors behind references.
pub open spec fn referred(mirrors: Seq<&MirrorEntry>) -> Seq<MirrorView> {
    Seq::new(mirrors.len(), |i: int| mirrors[i]@)
}

/// The mirror at `i` has this URL.
pub open spec fn is_at(mirrors: Seq<MirrorView>, url: Seq<char>, i: int) -> bool {
    0 <= i < mirrors.len() && mirrors[i].url == url
}

/// Where a mirror stands.
pub open spec fn place_of(mirrors: Seq<MirrorView>, url: Seq<char>) -> Option<int> {
    if exists|i: int| is_at(mirrors, url, i) {
        Some(choose|i: int| is_at(mirrors, url, i))
    } else {
        None
    }
}

/// No URL twice, and every record in order.
pub open spec fn mirrors_wf(mirrors: Seq<MirrorView>) -> bool {
    &&& forall|i: int, j: int|
        0 <= i < j < mirrors.len() ==> (#[trigger] mirrors[i]).url != (#[trigger] mirrors[j]).url
    &&& forall|i: int| 0 <= i < mirrors.len() ==> (#[trigger] mirrors[i]).wf()
}

/// The mirrors that may be selected, in order.
pub open spec fn candidates(mirrors: Seq<MirrorView>, now: Instant) -> Seq<MirrorView>
    decreases mirrors.len(),
{
    if mirrors.len() == 0 {
        Seq::empty()
    } else {
        let rest = candidates(mirrors.drop_last(), now);
        if mirrors.last().selectable(now) {
            rest.push(mirrors.last())
        } else {
            rest
        }
    }
}

/// Keys that put better tiers first, and higher scores first within a tier.
pub open spec fn candidate_keys(mirrors: Seq<MirrorView>, scores: Seq<u64>, now: Instant) -> Seq<
    u128,
>
    decreases mirrors.len(),
{
    if mirrors.len() == 0 {
        Seq::empty()
    } else {
        let rest = candidate_keys(mirrors.drop_last(), scores, now);
        if mirrors.last().selectable(now) {
            rest.push(selection_key(mirrors.last().tier, scores[mirrors.len() - 1]))
        } else {
            rest
        }
    }
}

/// The key of a mirror.
pub open spec fn selection_key(tier: HealthTier, score: u64) -> u128 {
    (tier.depth() * 0x1_0000_0000_0000_0000 + (u64::MAX - score)) as u128
}

/// The mirrors that may be probed, in order.
pub open spec fn probeable_mirrors(mirrors: Seq<MirrorView>, now: Instant) -> Seq<MirrorView>
    decreases mirrors.len(),
{
    if mirrors.len() == 0 {
        Seq::empty()
    } else {
        let rest = probeable_mirrors(mirrors.drop_last(), now);
        if mirrors.last().probeable(now) {
            rest.push(mirrors.last())
        } else {
            rest
        }
    }
}

/// The mirrors that pruning keeps, in order.
pub open spec fn unpruned(mirrors: Seq<MirrorView>, older_than: Duration, now: Instant) -> Seq<
    MirrorView,
>
    decreases mirrors.len(),
{
    if mirrors.len() == 0 {
        Seq::empty()
    } else {
        let rest = unpruned(mirrors.drop_last(), older_than, now);
        if mirrors.last().prunable(older_than, now) {
            rest
        } else {
            rest.push(mirrors.last())
        }
    }
}

/// How many mirrors are in a tier; of the dead ones, how many that may be
/// probed, or how many that may not.
pub open spec fn tier_count(
    mirrors: Seq<MirrorView>,
    tier: HealthTier,
    probeable: bool,
    now: Instant,
) -> nat
    decreases mirrors.len(),
{
    if mirrors.len() == 0 {
        0
    } else {
        tier_count(mirrors.drop_last(), tier, probeable, now) + if mirrors.last().tier == tier
            && mirrors.last().probeable(now) == probeable {
            1nat
        } else {
            0nat
        }
    }
}

/// The mirror with this URL stands in one place at most.
proof fn lemma_place(mirrors: Seq<MirrorView>, url: Seq<char>, i: int)
    requires
        mirrors_wf(mirrors),
        is_at(mirrors, url, i),
    ensures
        place_of(mirrors, url) == Some(i),
{
    let j = choose|j: int| is_at(mirrors, url, j);
    assert(is_at(mirrors, url, j));
    if i < j {
        assert(mirrors[i].url != mirrors[j].url);
    } else if j < i {
        assert(mirrors[j].url != mirrors[i].url);
    }
}

/// Pruning keeps what is left in order.
proof fn lemma_unpruned(mirrors: Seq<MirrorView>, older_than: Duration, now: Instant)
    requires
        mirrors_wf(mirrors),
    ensures
        mirrors_wf(unpruned(mirrors, older_than, now)),
        unpruned(mirrors, older_than, now).len() <= mirrors.len(),
        forall|k: int|
            0 <= k < unpruned(mirrors, older_than, now).len() ==> mirrors.contains(
                #[trigger] unpruned(mirrors, older_than, now)[k],
            ),
    decreases mirrors.len(),
{
    if mirrors.len() > 0 {
        let front = mirrors.drop_last();
        let last = mirrors.last();
        let rest = unpruned(front, older_than, now);
        let all = unpruned(mirrors, older_than, now);
        lemma_unpruned(front, older_than, now);
        assert(mirrors[mirrors.len() - 1] == last);
        assert forall|k: int| 0 <= k < all.len() implies mirrors.contains(#[trigger] all[k]) by {
            if k < rest.len() {
                assert(front.contains(rest[k]));
                let i = choose|i: int| 0 <= i < front.len() && front[i] == rest[k];
                assert(mirrors[i] == all[k]);
            }
        }
        assert forall|i: int, j: int| 0 <= i < j < all.len() implies (#[trigger] all[i]).url != (
        #[trigger] all[j]).url by {
            if j < rest.len() {
                assert(rest[i].url != rest[j].url);
            } else {
                assert(front.contains(rest[i]));
                let k = choose|k: int| 0 <= k < front.len() && front[k] == rest[i];
                assert(mirrors[k].url != mirrors[mirrors.len() - 1].url);
            }
        }
    }
}

/// Filtering records filters what is known of them.
proof fn lemma_filter_mirrors(mirrors: Seq<MirrorEntry>, older_than: Duration, now: Instant)
    ensures
        mirror_views(mirrors.filter(|m: MirrorEntry| !m@.prunable(older_than, now))) == unpruned(
            mirror_views(mirrors),
            older_than,
            now,
        ),
    decreases mirrors.len(),
{
    reveal(Seq::filter);
    let keep = |m: MirrorEntry| !m@.prunable(older_than, now);
    if mirrors.len() > 0 {
        lemma_filter_mirrors(mirrors.drop_last(), older_than, now);
        assert(mirror_views(mirrors).drop_last() == mirror_views(mirrors.drop_last()));
        let rest = mirrors.drop_last().filter(keep);
        if keep(mirrors.last()) {
            assert(mirror_views(rest.push(mirrors.last())) == mirror_views(rest).push(
                mirrors.last()@,
            ));
        }
    }
}

// ── Registry ────────────────────────────────────────────────────────

/// Collection of HTTP mirrors with health-aware selection.
pub struct MirrorRegistry {
    mirrors: Vec<MirrorEntry>,
    max_mirrors: usize,
}

/// The mirrors in the order in which they were added.
impl View for MirrorRegistry {
    type V = Seq<MirrorView>;

    closed spec fn view(&self) -> Seq<MirrorView> {
        mirror_views(self.mirrors@)
    }
}

impl MirrorRegistry {
    /// No URL twice, every record in order, not more mirrors than allowed.
    pub open spec fn wf(self) -> bool {
        mirrors_wf(self@) && self@.len() <= self.spec_max_mirrors()
    }

    /// Maximum number of mirrors.
    pub closed spec fn spec_max_mirrors(self) -> usize {
        self.max_mirrors
    }

    /// Creates a new empty registry with the given capacity limit.
    pub fn new(max_mirrors: usize) -> (r: MirrorRegistry)
        ensures
            r.wf(),
            r@ == Seq::<MirrorView>::empty(),
            r.spec_max_mirrors() == max_mirrors,
    {
        MirrorRegistry { mirrors: Vec::new(), max_mirrors }
    }

    /// Finds a mirror.
    fn find(&self, url: &str) -> (r: Option<usize>)
        requires
            self.wf(),
        ensures
            match r {
                Some(i) => i < self@.len() && place_of(self@, url@) == Some(i as int),
                None => place_of(self@, url@) is None,
            },
    {
        let mut i: usize = 0;
        while i < self.mirrors.len()
            invariant
                self.wf(),
                self@.len() == self.mirrors@.len(),
                i <= self.mirrors@.len(),
                forall|k: int| 0 <= k < i ==> !#[trigger] is_at(self@, url@, k),
            decreases self.mirrors@.len() - i,
        {
            assert(self@[i as int] == self.mirrors@[i as int]@);
            if str_equal(self.mirrors[i].url.as_str(), url) {
                proof {
                    assert(is_at(self@, url@, i as int));
                    lemma_place(self@, url@, i as int);
                }
                return Some(i);
            }
            i += 1;
        }
        None
    }

    /// Adds a mirror to the registry.
    ///
    /// Fails if the registry is full or the URL is a duplicate.
    pub fn add(&mut self, url: String, now: Instant) -> (r: Result<(), MirrorRegistryError>)
        requires
            old(self).wf(),
        ensures
            final(self).wf(),
            final(self).spec_max_mirrors() == old(self).spec_max_mirrors(),
            match r {
                Ok(()) => {
                    &&& old(self)@.len() < old(self).spec_max_mirrors()
                    &&& place_of(old(self)@, url@) is None
                    &&& final(self)@ == old(self)@.push(MirrorView::fresh(url@, now))
                },
                Err(e) => {
                    &&& final(self)@ == old(self)@
                    &&& match e@ {
                        RegistryErrorView::Full { max } => old(self)@.len() >= old(
                            self,
                        ).spec_max_mirrors() && max == old(self).spec_max_mirrors(),
                        RegistryErrorView::Duplicate { url: shown } => old(self)@.len() < old(
                            self,
                        ).spec_max_mirrors() && place_of(old(self)@, url@) is Some && shown == url@,
                    }
                },
            },
    {
        let ghost start = self@;
        if self.mirrors.len() >= self.max_mirrors {
            return Err(MirrorRegistryError::Full { max: self.max_mirrors });
        }
        if self.find(url.as_str()).is_some() {
            return Err(MirrorRegistryError::Duplicate { url });
        }
        proof {
            assert forall|i: int| 0 <= i < start.len() implies (#[trigger] start[i]).url != url@ by {
                assert(!is_at(start, url@, i));
            }
        }
        let entry = MirrorEntry::new(url, now);
        let ghost view = entry@;
        self.mirrors.push(entry);
        assert(self@ == start.push(view));
        Ok(())
    }

    /// Records a successful response for the given mirror URL.
    pub fn record_success(
        &mut self,
        url: &str,
        latency: Duration,
        suspicion: Suspicion,
        now: Instant,
    )
        requires
            old(self).wf(),
        ensures
            final(self).wf(),
            final(self).spec_max_mirrors() == old(self).spec_max_mirrors(),
            final(self)@ == (match place_of(old(self)@, url@) {
                Some(i) => old(self)@.update(
                    i,
                    old(self)@[i].after_success(latency, suspicion, now),
                ),
                None => old(self)@,
            }),
    {
        let ghost start = self@;
        match self.find(url) {
            Some(i) => {
                assert(self.mirrors@[i as int]@ == start[i as int]);
                self.mirrors[i].record_success(latency, suspicion, now);
                assert(self@ == start.update(
                    i as int,
                    start[i as int].after_success(latency, suspicion, now),
                ));
                assert(self.mirrors@[i as int]@ == self@[i as int]);
            },
            None => {},
        }
    }

    /// Records a failure for the given mirror URL.
    pub fn record_failure(&mut self, url: &str, suspicion: Suspicion, now: Instant)
        requires
            old(self).wf(),
        ensures
            final(self).wf(),
            final(self).spec_max_mirrors() == old(self).spec_max_mirrors(),
            final(self)@ == (match place_of(old(self)@, url@) {
                Some(i) => old(self)@.update(i, old(self)@[i].after_failure(suspicion, now)),
                None => old(self)@,
            }),
    {
        let ghost start = self@;
        match self.find(url) {
            Some(i) => {
                assert(self.mirrors@[i as int]@ == start[i as int]);
                self.mirrors[i].record_failure(suspicion, now);
                assert(self@ == start.update(
                    i as int,
                    start[i as int].after_failure(suspicion, now),
                ));
                assert(self.mirrors@[i as int]@ == self@[i as int]);
            },
            None => {},
        }
    }

    /// Returns the mirrors in the order in which they were added.
    pub fn mirrors(&self) -> (r: &[MirrorEntry])
        ensures
            mirror_views(r@) == self@,
    {
        self.mirrors.as_slice()
    }

    /// Returns all mirrors sorted by health (best first): by tier, then by
    /// score. `scores` holds the composite score of each mirror.
    ///
    /// Dead mirrors are excluded unless they are eligible for probing.
    pub fn select_best(&self, scores: &[u64], now: Instant) -> (r: Vec<&MirrorEntry>)
        requires
            scores@.len() == self@.len(),
        ensures
            is_ranked_by(
                referred(r@),
                candidates(self@, now),
                candidate_keys(self@, scores@, now),
            ),
    {
        let mut chosen: Vec<&MirrorEntry> = Vec::new();
        let mut keys: Vec<u128> = Vec::new();
        let ghost all = self@;
        let mut i: usize = 0;
        assert(all.take(0) == Seq::<MirrorView>::empty());
        while i < self.mirrors.len()
            invariant
                all == mirror_views(self.mirrors@),
                scores@.len() == all.len(),
                i <= self.mirrors@.len(),
                referred(chosen@) == candidates(all.take(i as int), now),
                keys@ == candidate_keys(all.take(i as int), scores@, now),
                keys@.len() == chosen@.len(),
            decreases self.mirrors@.len() - i,
        {
            let mirror = &self.mirrors[i];
            proof {
                assert(all.take(i + 1).drop_last() == all.take(i as int));
                assert(all[i as int] == mirror@);
            }
            if mirror.tier != HealthTier::Dead || mirror.should_probe(now) {
                let ghost before = referred(chosen@);
                chosen.push(mirror);
                let low: u64 = 0xffff_ffff_ffff_ffff - scores[i];
                keys.push(mirror.tier.rank() * 0x1_0000_0000_0000_0000 + low as u128);
                assert(referred(chosen@) == before.push(mirror@));
            }
            i += 1;
        }
        assert(all.take(i as int) == all);
        let order = stable_order(&keys);
        let mut ranked: Vec<&MirrorEntry> = Vec::new();
        let mut k: usize = 0;
        while k < order.len()
            invariant
                is_stable_order(keys@, order@),
                keys@.len() == chosen@.len(),
                k <= order@.len(),
                ranked@.len() == k,
                forall|p: int| 0 <= p < k ==> ranked@[p] == chosen@[#[trigger] order@[p] as int],
            decreases order@.len() - k,
        {
            ranked.push(chosen[order[k]]);
            k += 1;
        }
        assert(referred(ranked@) == arranged(referred(chosen@), order@)) by {
            assert forall|p: int| 0 <= p < order@.len() implies referred(ranked@)[p] == referred(
                chosen@,
            )[#[trigger] order@[p] as int] by {}
        }
        ranked
    }

    /// Returns mirrors eligible for dead-probe recovery checks.
    pub fn dead_probeable(&self, now: Instant) -> (r: Vec<&MirrorEntry>)
        ensures
            referred(r@) == probeable_mirrors(self@, now),
    {
        let mut ready: Vec<&MirrorEntry> = Vec::new();
        let ghost all = self@;
        let mut i: usize = 0;
        assert(all.take(0) == Seq::<MirrorView>::empty());
        while i < self.mirrors.len()
            invariant
                all == mirror_views(self.mirrors@),
                i <= self.mirrors@.len(),
                referred(ready@) == probeable_mirrors(all.take(i as int), now),
            decreases self.mirrors@.len() - i,
        {
            let mirror = &self.mirrors[i];
            proof {
                assert(all.take(i + 1).drop_last() == all.take(i as int));
                assert(all[i as int] == mirror@);
            }
            if mirror.should_probe(now) {
                let ghost before = referred(ready@);
                ready.push(mirror);
                assert(referred(ready@) == before.push(mirror@));
            }
            i += 1;
        }
        assert(all.take(i as int) == all);
        ready
    }

    /// Returns the number of mirrors in the registry.
    pub fn len(&self) -> (r: usize)
        ensures
            r == self@.len(),
    {
        self.mirrors.len()
    }

    /// Returns whether the registry has no mirrors.
    pub fn is_empty(&self) -> (r: bool)
        ensures
            r == (self@.len() == 0),
    {
        self.mirrors.len() == 0
    }

    /// Returns a reference to a mirror by URL.
    pub fn get(&self, url: &str) -> (r: Option<&MirrorEntry>)
        requires
            self.wf(),
        ensures
            match r {
                Some(entry) => place_of(self@, url@) matches Some(i) && entry@ == self@[i],
                None => place_of(self@, url@) is None,
            },
    {
        match self.find(url) {
            Some(i) => Some(&self.mirrors[i]),
            None => None,
        }
    }

    /// Returns the count of mirrors at each health tier.
    pub fn tier_counts(&self, now: Instant) -> (r: TierCounts)
        ensures
            r.healthy == tier_count(self@, HealthTier::Healthy, false, now),
            r.suspect == tier_count(self@, HealthTier::Suspect, false, now),
            r.degraded == tier_count(self@, HealthTier::Degraded, false, now),
            r.dead == tier_count(self@, HealthTier::Dead, false, now),
            r.dead_probeable == tier_count(self@, HealthTier::Dead, true, now),
    {
        let mut counts = TierCounts::default();
        let ghost all = self@;
        let mut i: usize = 0;
        assert(all.take(0) == Seq::<MirrorView>::empty());
        while i < self.mirrors.len()
            invariant
                all == mirror_views(self.mirrors@),
                i <= self.mirrors@.len(),
                counts.healthy <= i,
                counts.suspect <= i,
                counts.degraded <= i,
                counts.dead <= i,
                counts.dead_probeable <= i,
                counts.healthy == tier_count(
                    all.take(i as int),
                    HealthTier::Healthy,
                    false,
                    now,
                ),
                counts.suspect == tier_count(
                    all.take(i as int),
                    HealthTier::Suspect,
                    false,
                    now,
                ),
                counts.degraded == tier_count(
                    all.take(i as int),
                    HealthTier::Degraded,
                    false,
                    now,
                ),
                counts.dead == tier_count(all.take(i as int), HealthTier::Dead, false, now),
                counts.dead_probeable == tier_count(
                    all.take(i as int),
                    HealthTier::Dead,
                    true,
                    now,
                ),
            decreases self.mirrors@.len() - i,
        {
            let mirror = &self.mirrors[i];
            proof {
                assert(all.take(i + 1).drop_last() == all.take(i as int));
                assert(all[i as int] == mirror@);
                assert(all.take(i + 1).last() == mirror@);
            }
            match mirror.tier {
                HealthTier::Healthy => {
                    counts.healthy = counts.healthy + 1;
                },
                HealthTier::Suspect => {
                    counts.suspect = counts.suspect + 1;
                },
                HealthTier::Degraded => {
                    counts.degraded = counts.degraded + 1;
                },
                HealthTier::Dead => {
                    if mirror.should_probe(now) {
                        counts.dead_probeable = counts.dead_probeable + 1;
                    } else {
                        counts.dead = counts.dead + 1;
                    }
                },
            }
            i += 1;
        }
        assert(all.take(i as int) == all);
        counts
    }

    /// Removes all mirrors that have been dead for longer than the given
    /// duration, without a success since they were declared dead. Returns how
    /// many there were.
    pub fn prune_dead(&mut self, older_than: Duration, now: Instant) -> (r: usize)
        requires
            old(self).wf(),
        ensures
            final(self).wf(),
            final(self).spec_max_mirrors() == old(self).spec_max_mirrors(),
            final(self)@ == unpruned(old(self)@, older_than, now),
            r == old(self)@.len() - final(self)@.len(),
    {
        let before: usize = self.mirrors.len();
        proof {
            lemma_unpruned(self@, older_than, now);
            lemma_filter_mirrors(self.mirrors@, older_than, now);
        }
        let keep = |m: &MirrorEntry| -> (kept: bool)
            ensures
                kept == !m@.prunable(older_than, now),
        {
            if m.tier != HealthTier::Dead {
                true
            } else {
                match m.last_dead_at {
                    Some(dead_at) => {
                        let revived = match m.last_success {
                            Some(success) => success.nanos > dead_at.nanos,
                            None => false,
                        };
                        revived || now.duration_since(dead_at).nanos <= older_than.nanos
                    },
                    None => true,
                }
            }
        };
        retain(
            &mut self.mirrors,
            keep,
            Ghost(|m: MirrorEntry| !m@.prunable(older_than, now)),
        );
        before - self.mirrors.len()
    }
}

// ── Laws ────────────────────────────────────────────────────────────

/// Better tiers are selected first, whatever the scores; within a tier the
/// higher score is.
pub proof fn law_selection_prefers_better_tiers(
    a: HealthTier,
    score_a: u64,
    b: HealthTier,
    score_b: u64,
)
    ensures
        selection_key(a, score_a) < selection_key(b, score_b) <==> a.depth() < b.depth()
            || a.depth() == b.depth() && score_a > score_b,
{
}

/// Three failures in a row make a mirror dead, whatever the suspicion, and a
/// success makes an end of them.
pub proof fn law_failure_streak(m: MirrorView, suspicion: Suspicion, now: Instant, latency: Duration)
    ensures
        m.consecutive_failures >= CONSECUTIVE_FAILURE_THRESHOLD - 1 ==> m.after_failure(
            suspicion,
            now,
        ).tier is Dead,
        m.after_success(latency, suspicion, now).consecutive_failures == 0,
        m.after_success(latency, suspicion, now).tier is Dead ==> suspicion is Critical,
{
}

/// A mirror that dies is not probed before the interval is over, and is
/// probed from then on.
pub proof fn law_dead_mirror_waits(m: MirrorView, suspicion: Suspicion, died: Instant, now: Instant)
    requires
        !(m.tier is Dead),
        m.after_failure(suspicion, died).tier is Dead,
    ensures
        m.after_failure(suspicion, died).probeable(now) <==> elapsed(now, died)
            >= DEAD_PROBE_NANOS,
{
}

/// What the tier says of the record: after any outcome, a mirror that fewer than
/// half of the requests to succeeded is degraded or dead, one that fewer than nine
/// tenths did is not healthy, and one that at least nine tenths did is healthy,
/// unless it is suspected or failed three times in a row.
pub proof fn law_tier_follows_success_rate(
    m: MirrorView,
    latency: Duration,
    suspicion: Suspicion,
    now: Instant,
    failed: bool,
)
    requires
        m.wf(),
    ensures
        ({
            let r = if failed {
                m.after_failure(suspicion, now)
            } else {
                m.after_success(latency, suspicion, now)
            };
            &&& r.total_requests > 0
            &&& 2 * r.total_successes < r.total_requests ==> r.tier == HealthTier::Degraded
                || r.tier == HealthTier::Dead
            &&& 10 * r.total_successes < 9 * r.total_requests ==> r.tier != HealthTier::Healthy
            &&& suspicion == Suspicion::Low && r.consecutive_failures < 3 && 10
                * r.total_successes >= 9 * r.total_requests ==> r.tier == HealthTier::Healthy
            &&& suspicion == Suspicion::Low && r.consecutive_failures < 3 && 2 * r.total_successes
                >= r.total_requests && 10 * r.total_successes < 9 * r.total_requests ==> r.tier
                == HealthTier::Suspect
            &&& suspicion == Suspicion::Low && r.consecutive_failures < 3 && 2 * r.total_successes
                < r.total_requests ==> r.tier == HealthTier::Degraded
        }),
{
}

/// What the tier says of suspicion: a critical one or three failures in a row
/// make a mirror dead and nothing else does, a high one makes it degraded at
/// least, and an elevated one keeps it from being healthy.
pub proof fn law_tier_follows_suspicion(
    m: MirrorView,
    latency: Duration,
    suspicion: Suspicion,
    now: Instant,
    failed: bool,
)
    ensures
        ({
            let r = if failed {
                m.after_failure(suspicion, now)
            } else {
                m.after_success(latency, suspicion, now)
            };
            &&& r.tier == HealthTier::Dead <==> suspicion == Suspicion::Critical
                || r.consecutive_failures >= 3
            &&& suspicion == Suspicion::High && r.consecutive_failures < 3 ==> r.tier
                == HealthTier::Degraded
            &&& suspicion == Suspicion::Elevated ==> r.tier != HealthTier::Healthy
            &&& r.tier == HealthTier::Dead && m.tier != HealthTier::Dead ==> r.last_dead_at
                == Some(now)
            &&& r.tier != HealthTier::Dead || m.tier == HealthTier::Dead ==> r.last_dead_at
                == m.last_dead_at
        }),
{
}

/// What outcomes count: a success counts a request, a success, a heartbeat and a
/// latency and ends the failures in a row; a failure counts a request and one more
/// failure in a row. The latencies are the latest 100.
pub proof fn law_outcomes_are_counted(
    m: MirrorView,
    latency: Duration,
    suspicion: Suspicion,
    now: Instant,
)
    requires
        m.wf(),
        m.total_requests < u64::MAX,
        m.consecutive_failures < u32::MAX,
    ensures
        ({
            let s = m.after_success(latency, suspicion, now);
            let f = m.after_failure(suspicion, now);
            &&& s.total_requests == m.total_requests + 1
            &&& s.total_successes == m.total_successes + 1
            &&& s.consecutive_failures == 0
            &&& s.last_success == Some(now)
            &&& s.phi.last_heartbeat == now
            &&& s.phi == m.phi.after_heartbeat(now)
            &&& s.latencies[s.latencies.len() - 1] == latency
            &&& s.latencies.len() == (if m.latencies.len() < 100 {
                m.latencies.len() + 1
            } else {
                100
            })
            &&& s.latencies == m.latencies.push(latency).skip(
                m.latencies.len() + 1 - s.latencies.len(),
            )
            &&& s.url == m.url
            &&& f.total_requests == m.total_requests + 1
            &&& f.total_successes == m.total_successes
            &&& f.consecutive_failures == m.consecutive_failures + 1
            &&& f.last_success == m.last_success
            &&& f.phi == m.phi
            &&& f.latencies == m.latencies
            &&& f.url == m.url
        }),
{
    crate::phi_detector::law_window_keeps_latest(m.latencies, 100, latency);
}

/// Who may be selected, probed and pruned: a dead mirror is probed from 5
/// minutes after it was declared dead and selected only then, and pruned once it
/// has been dead for longer than given without a success since.
pub proof fn law_dead_mirrors(m: MirrorView, older_than: Duration, now: Instant)
    ensures
        m.tier != HealthTier::Dead ==> m.selectable(now) && !m.probeable(now) && !m.prunable(
            older_than,
            now,
        ),
        m.tier == HealthTier::Dead ==> (m.selectable(now) <==> m.probeable(now)),
        m.tier == HealthTier::Dead && m.last_dead_at is None ==> !m.probeable(now) && !m.prunable(
            older_than,
            now,
        ),
        m.tier == HealthTier::Dead && m.last_dead_at is Some ==> {
            let died = m.last_dead_at->0.nanos;
            &&& m.probeable(now) <==> now.nanos >= died + 300_000_000_000
            &&& m.prunable(older_than, now) <==> now.nanos > died + older_than.nanos && (
            m.last_success is Some ==> m.last_success->0.nanos <= died)
        },
{
}

/// What is listed: the mirrors that may be selected, those that may be probed,
/// and after pruning all but the prunable ones, each in order; and how many there
/// are of each tier.
pub proof fn law_lists_select_by_record(
    mirrors: Seq<MirrorView>,
    older_than: Duration,
    now: Instant,
    tier: HealthTier,
    probeable: bool,
)
    ensures
        candidates(mirrors, now) == mirrors.filter(|m: MirrorView| m.selectable(now)),
        probeable_mirrors(mirrors, now) == mirrors.filter(|m: MirrorView| m.probeable(now)),
        unpruned(mirrors, older_than, now) == mirrors.filter(
            |m: MirrorView| !m.prunable(older_than, now),
        ),
        tier_count(mirrors, tier, probeable, now) == mirrors.filter(
            |m: MirrorView| m.tier == tier && m.probeable(now) == probeable,
        ).len(),
    decreases mirrors.len(),
{
    reveal(Seq::filter);
    if mirrors.len() > 0 {
        law_lists_select_by_record(mirrors.drop_last(), older_than, now, tier, probeable);
    }
}

/// Tiers stand in this order: healthy, suspect, degraded, dead.
pub proof fn law_tiers_are_ordered()
    ensures
        HealthTier::Healthy.depth() < HealthTier::Suspect.depth(),
        HealthTier::Suspect.depth() < HealthTier::Degraded.depth(),
        HealthTier::Degraded.depth() < HealthTier::Dead.depth(),
{
}

/// Each candidate has the key of its tier and score.
proof fn lemma_candidate_keys(
    mirrors: Seq<MirrorView>,
    scores: Seq<u64>,
    now: Instant,
)
    requires
        scores.len() == mirrors.len(),
    ensures
        candidate_keys(mirrors, scores, now).len() == candidates(mirrors, now).len(),
        forall|k: int|
            0 <= k < candidates(mirrors, now).len() ==> #[trigger] has_score(
                mirrors,
                scores,
                candidates(mirrors, now)[k],
                candidate_keys(mirrors, scores, now)[k],
            ),
    decreases mirrors.len(),
{
    if mirrors.len() > 0 {
        let front = mirrors.drop_last();
        let n = mirrors.len() - 1;
        lemma_candidate_keys_prefix(front, scores, scores.drop_last(), now);
        lemma_candidate_keys(front, scores.drop_last(), now);
        let c = candidates(mirrors, now);
        let keys = candidate_keys(mirrors, scores, now);
        assert forall|k: int| 0 <= k < c.len() implies #[trigger] has_score(
            mirrors,
            scores,
            c[k],
            keys[k],
        ) by {
            let rest = candidates(front, now);
            if k < rest.len() {
                assert(has_score(
                    front,
                    scores.drop_last(),
                    rest[k],
                    candidate_keys(front, scores.drop_last(), now)[k],
                ));
                let i = choose|i: int|
                    0 <= i < front.len() && #[trigger] front[i] == rest[k]
                        && candidate_keys(front, scores.drop_last(), now)[k] == selection_key(
                        front[i].tier,
                        scores.drop_last()[i],
                    );
                assert(mirrors[i] == c[k] && scores[i] == scores.drop_last()[i]);
            } else {
                assert(mirrors[n] == c[k]);
            }
        }
    }
}

/// Keys depend on the scores of the mirrors alone.
proof fn lemma_candidate_keys_prefix(
    mirrors: Seq<MirrorView>,
    scores: Seq<u64>,
    fewer: Seq<u64>,
    now: Instant,
)
    requires
        mirrors.len() <= scores.len(),
        mirrors.len() <= fewer.len(),
        forall|i: int| 0 <= i < mirrors.len() ==> scores[i] == fewer[i],
    ensures
        candidate_keys(mirrors, scores, now) == candidate_keys(mirrors, fewer, now),
    decreases mirrors.len(),
{
    if mirrors.len() > 0 {
        lemma_candidate_keys_prefix(mirrors.drop_last(), scores, fewer, now);
    }
}

/// A mirror and its key are those of one place in the list.
spec fn has_score(mirrors: Seq<MirrorView>, scores: Seq<u64>, m: MirrorView, key: u128) -> bool {
    exists|i: int|
        0 <= i < mirrors.len() && #[trigger] mirrors[i] == m && key == selection_key(
            mirrors[i].tier,
            scores[i],
        )
}

/// A selection holds exactly the mirrors that may be selected, those of better
/// tiers first, and within a tier those with higher scores.
pub proof fn law_selection_is_by_health(
    out: Seq<MirrorView>,
    mirrors: Seq<MirrorView>,
    scores: Seq<u64>,
    now: Instant,
    p: int,
    q: int,
)
    requires
        scores.len() == mirrors.len(),
        is_ranked_by(out, candidates(mirrors, now), candidate_keys(mirrors, scores, now)),
        0 <= p < q < out.len(),
    ensures
        out.len() == mirrors.filter(|m: MirrorView| m.selectable(now)).len(),
        out[p].tier.depth() <= out[q].tier.depth(),
        exists|i: int, j: int|
            0 <= i < mirrors.len() && 0 <= j < mirrors.len() && #[trigger] mirrors[i] == out[p]
                && #[trigger] mirrors[j] == out[q] && (out[p].tier == out[q].tier ==> scores[i]
                >= scores[j]),
        forall|i: int|
            0 <= i < mirrors.len() && (#[trigger] mirrors[i]).selectable(now) ==> out.contains(
                mirrors[i],
            ),
{
    let c = candidates(mirrors, now);
    let keys = candidate_keys(mirrors, scores, now);
    let order = choose|order: Seq<usize>| #[trigger]
        is_stable_order(keys, order) && out == arranged(c, order);
    lemma_candidate_keys(mirrors, scores, now);
    law_lists_select_by_record(
        mirrors,
        Duration { nanos: 0 },
        now,
        HealthTier::Healthy,
        false,
    );
    assert(crate::rank::goes_before(keys, order[p] as int, order[q] as int));
    assert(has_score(mirrors, scores, c[order[p] as int], keys[order[p] as int]));
    assert(has_score(mirrors, scores, c[order[q] as int], keys[order[q] as int]));
    let i = choose|i: int|
        0 <= i < mirrors.len() && #[trigger] mirrors[i] == out[p] && keys[order[p] as int]
            == selection_key(mirrors[i].tier, scores[i]);
    let j = choose|j: int|
        0 <= j < mirrors.len() && #[trigger] mirrors[j] == out[q] && keys[order[q] as int]
            == selection_key(mirrors[j].tier, scores[j]);
    law_selection_prefers_better_tiers(mirrors[j].tier, scores[j], mirrors[i].tier, scores[i]);
    assert(mirrors[i] == out[p] && mirrors[j] == out[q]);
    let may = |m: MirrorView| m.selectable(now);
    assert forall|i: int|
        0 <= i < mirrors.len() && (#[trigger] mirrors[i]).selectable(now) implies out.contains(
        mirrors[i],
    ) by {
        mirrors.lemma_filter_contains(may, i);
        let a = choose|a: int| 0 <= a < c.len() && c[a] == mirrors[i];
        crate::rank::lemma_stable_order_covers(keys, order, a);
        let at = choose|at: int| 0 <= at < order.len() && #[trigger] order[at] == a;
        assert(out[at] == mirrors[i]);
    }
}

/// A mirror is found exactly if it is registered, with its own record.
pub proof fn law_mirror_is_found(mirrors: Seq<MirrorView>, url: Seq<char>, i: int)
    requires
        mirrors_wf(mirrors),
    ensures
        0 <= i < mirrors.len() && mirrors[i].url == url ==> place_of(mirrors, url) == Some(i),
        place_of(mirrors, url) matches Some(k) ==> 0 <= k < mirrors.len() && mirrors[k].url == url,
{
    if 0 <= i < mirrors.len() && mirrors[i].url == url {
        assert(is_at(mirrors, url, i));
        lemma_place(mirrors, url, i);
    }
    if place_of(mirrors, url) is Some {
        assert(is_at(mirrors, url, place_of(mirrors, url)->0));
    }
}

/// A mirror without history is healthy and has nothing counted.
pub proof fn law_new_mirror_is_healthy(url: Seq<char>, now: Instant)
    ensures
        MirrorView::fresh(url, now).url == url,
        MirrorView::fresh(url, now).tier == HealthTier::Healthy,
        MirrorView::fresh(url, now).total_requests == 0,
        MirrorView::fresh(url, now).total_successes == 0,
        MirrorView::fresh(url, now).consecutive_failures == 0,
        MirrorView::fresh(url, now).latencies.len() == 0,
        MirrorView::fresh(url, now).last_success is None,
        MirrorView::fresh(url, now).last_dead_at is None,
{
}

/// How many latencies are kept, from how many a percentile is taken, how many
/// failures in a row are fatal, and after how many nanoseconds the dead are probed.
pub proof fn law_limits()
    ensures
        MAX_LATENCY_SAMPLES == 100,
        MIN_P90_SAMPLES == 5,
        CONSECUTIVE_FAILURE_THRESHOLD == 3,
        DEAD_PROBE_NANOS == 300_000_000_000,
{
}

} // verus!
