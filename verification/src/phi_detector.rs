//! Heartbeat history of a phi accrual failure detector.
//!
//! [`PhiDetector`] keeps a sliding window of the times between heartbeats of a
//! peer. The suspicion level is a statistic of this window and of the time
//! since the last heartbeat; whoever computes it reads both from here. What
//! the level means is a matter of bands, see [`Suspicion`].

use vstd::prelude::*;

use crate::time::elapsed;
use crate::time::Duration;
use crate::time::Instant;

verus! {

/// Default sliding window size for inter-arrival time samples.
pub const DEFAULT_WINDOW_SIZE: usize = 50;

/// Fewest samples from which a suspicion level can be inferred.
pub const MIN_SAMPLES: usize = 2;

/// How strongly a peer is suspected to have failed.
#[derive(Debug, Clone, Copy, PartialEq, Eq, Structural)]
pub enum Suspicion {
    /// A level below 3: the peer is healthy.
    Low,
    /// A level from 3 to below 5.
    Elevated,
    /// A level from 5 to below 8.
    High,
    /// A level of 8 or more: the peer is almost certainly dead.
    Critical,
}

/// What a detector remembers.
#[verifier::ext_equal]
pub struct DetectorView {
    /// Times between heartbeats, oldest first.
    pub intervals: Seq<Duration>,
    /// Most intervals that are kept.
    pub max_window: usize,
    /// Time of the last heartbeat, or of the start.
    pub last_heartbeat: Instant,
    /// Whether there was a heartbeat.
    pub has_baseline: bool,
}

/// `samples` with one more, the oldest dropped where there are too many.
pub open spec fn slid(samples: Seq<Duration>, max: int, sample: Duration) -> Seq<Duration> {
    if samples.len() >= max {
        samples.drop_first().push(sample)
    } else {
        samples.push(sample)
    }
}

impl DetectorView {
    /// The window is bounded.
    pub open spec fn wf(self) -> bool {
        &&& self.max_window >= 2
        &&& self.intervals.len() <= self.max_window
        &&& self.intervals.len() > 0 ==> self.has_baseline
    }

    /// The detector after a heartbeat. The first one gives no interval.
    pub open spec fn after_heartbeat(self, now: Instant) -> DetectorView {
        DetectorView {
            intervals: if self.has_baseline {
                slid(
                    self.intervals,
                    self.max_window as int,
                    Duration { nanos: elapsed(now, self.last_heartbeat) as u128 },
                )
            } else {
                self.intervals
            },
            last_heartbeat: now,
            has_baseline: true,
            ..self
        }
    }

    /// A detector that has seen nothing.
    pub open spec fn fresh(now: Instant, max_window: usize) -> DetectorView {
        DetectorView {
            intervals: Seq::empty(),
            max_window,
            last_heartbeat: now,
            has_baseline: false,
        }
    }
}

/// Heartbeat history of a single peer.
#[derive(Debug)]
pub struct PhiDetector {
    intervals: Vec<Duration>,
    max_window: usize,
    last_heartbeat: Instant,
    has_baseline: bool,
}

impl View for PhiDetector {
    type V = DetectorView;

    closed spec fn view(&self) -> DetectorView {
        DetectorView {
            intervals: self.intervals@,
            max_window: self.max_window,
            last_heartbeat: self.last_heartbeat,
            has_baseline: self.has_baseline,
        }
    }
}

impl Clone for PhiDetector {
    fn clone(&self) -> (r: PhiDetector)
        ensures
            r@ == self@,
    {
        PhiDetector {
            intervals: vstd::slice::slice_to_vec(self.intervals.as_slice()),
            max_window: self.max_window,
            last_heartbeat: self.last_heartbeat,
            has_baseline: self.has_baseline,
        }
    }
}

impl PhiDetector {
    /// The window is bounded.
    pub open spec fn wf(self) -> bool {
        self@.wf()
    }

    /// Creates a new detector.
    pub fn new(now: Instant) -> (r: PhiDetector)
        ensures
            r.wf(),
            r@ == DetectorView::fresh(now, DEFAULT_WINDOW_SIZE),
    {
        PhiDetector {
            intervals: Vec::new(),
            max_window: DEFAULT_WINDOW_SIZE,
            last_heartbeat: now,
            has_baseline: false,
        }
    }

    /// Creates a detector with a custom window size, at least 2.
    pub fn with_window(now: Instant, window_size: usize) -> (r: PhiDetector)
        ensures
            r.wf(),
            r@ == DetectorView::fresh(
                now,
                if window_size < 2 {
                    2
                } else {
                    window_size
                },
            ),
    {
        PhiDetector {
            intervals: Vec::new(),
            max_window: if window_size < 2 {
                2
            } else {
                window_size
            },
            last_heartbeat: now,
            has_baseline: false,
        }
    }

    /// Records a heartbeat (successful piece delivery or keep-alive).
    ///
    /// The time since the previous heartbeat is added to the sliding window.
    pub fn record_heartbeat(&mut self, now: Instant)
        requires
            old(self).wf(),
        ensures
            final(self).wf(),
            final(self)@ == old(self)@.after_heartbeat(now),
    {
        if self.has_baseline {
            let interval = now.duration_since(self.last_heartbeat);
            slide(&mut self.intervals, self.max_window, interval);
        }
        self.last_heartbeat = now;
        self.has_baseline = true;
    }

    /// Number of inter-arrival samples collected.
    pub fn sample_count(&self) -> (r: usize)
        ensures
            r == self@.intervals.len(),
    {
        self.intervals.len()
    }

    /// The times between heartbeats, oldest first.
    pub fn intervals(&self) -> (r: &[Duration])
        ensures
            r@ == self@.intervals,
    {
        self.intervals.as_slice()
    }

    /// Whether there are enough samples for a suspicion level.
    pub fn has_enough_samples(&self) -> (r: bool)
        ensures
            r == (self@.intervals.len() >= MIN_SAMPLES),
    {
        self.intervals.len() >= MIN_SAMPLES
    }

    /// The time since the last heartbeat.
    pub fn silence(&self, now: Instant) -> (r: Duration)
        ensures
            r.nanos == elapsed(now, self@.last_heartbeat),
    {
        now.duration_since(self.last_heartbeat)
    }
}

/// Adds a sample to a bounded window.
pub(crate) fn slide(samples: &mut Vec<Duration>, max: usize, sample: Duration)
    requires
        max > 0,
        old(samples)@.len() <= max,
    ensures
        final(samples)@ == slid(old(samples)@, max as int, sample),
        final(samples)@.len() <= max,
{
    if samples.len() >= max {
        let ghost before = samples@;
        samples.remove(0);
        assert(samples@ == before.drop_first());
    }
    samples.push(sample);
}

/// The window holds the most recent intervals: the newest stands last, and it
/// never grows beyond its size.
pub proof fn law_window_is_bounded(d: DetectorView, now: Instant)
    requires
        d.wf(),
    ensures
        d.after_heartbeat(now).wf(),
        d.has_baseline ==> d.after_heartbeat(now).intervals.last().nanos == elapsed(
            now,
            d.last_heartbeat,
        ),
        d.has_baseline && d.intervals.len() < d.max_window ==> d.after_heartbeat(
            now,
        ).intervals.len() == d.intervals.len() + 1,
        d.has_baseline && d.intervals.len() == d.max_window ==> d.after_heartbeat(
            now,
        ).intervals.len() == d.max_window,
{
}

/// A bounded window is the end of all samples: what it holds after one more is
/// the last of the former samples and then the new one, as many as there is room
/// for.
pub proof fn law_window_keeps_latest(samples: Seq<Duration>, max: int, sample: Duration)
    requires
        0 < max,
        samples.len() <= max,
    ensures
        slid(samples, max, sample)[slid(samples, max, sample).len() - 1] == sample,
        samples.len() < max ==> slid(samples, max, sample).len() == samples.len() + 1,
        samples.len() == max ==> slid(samples, max, sample).len() == max,
        slid(samples, max, sample) == samples.push(sample).skip(
            samples.len() + 1 - slid(samples, max, sample).len(),
        ),
{
    if samples.len() >= max {
        assert(samples.push(sample).skip(1) == samples.drop_first().push(sample));
    } else {
        assert(samples.push(sample).skip(0) == samples.push(sample));
    }
}

/// A heartbeat becomes the last one, and adds the time since the one before to
/// the window; the first one has none before it. Fresh detectors hold nothing.
pub proof fn law_heartbeat(d: DetectorView, now: Instant, window: usize)
    requires
        d.wf(),
    ensures
        d.after_heartbeat(now).last_heartbeat == now,
        d.after_heartbeat(now).has_baseline,
        d.after_heartbeat(now).max_window == d.max_window,
        !d.has_baseline ==> d.after_heartbeat(now).intervals == d.intervals,
        d.has_baseline && now.nanos >= d.last_heartbeat.nanos ==> d.after_heartbeat(now).intervals
            == d.intervals.push(
            Duration { nanos: (now.nanos - d.last_heartbeat.nanos) as u128 },
        ).skip(
            if d.intervals.len() < d.max_window {
                0
            } else {
                1
            },
        ),
        DetectorView::fresh(now, window).intervals.len() == 0,
        !DetectorView::fresh(now, window).has_baseline,
        DetectorView::fresh(now, window).last_heartbeat == now,
        DetectorView::fresh(now, window).max_window == window,
{
    let sample = Duration { nanos: elapsed(now, d.last_heartbeat) as u128 };
    law_window_keeps_latest(d.intervals, d.max_window as int, sample);
}

/// How many intervals are kept, and from how many suspicion is measured.
pub proof fn law_limits()
    ensures
        DEFAULT_WINDOW_SIZE == 50,
        MIN_SAMPLES == 2,
{
}

} // verus!
