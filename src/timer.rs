//! A single countdown timer and the rules by which a poll advances it.
//!
//! Time is a monotonic clock reading in milliseconds; intervals are whole seconds.
use vstd::prelude::*;

verus! {

/// Milliseconds in one second of a timer's interval.
pub const MS_PER_SECOND: u64 = 1000;

/// A named timer with its notification payload and its runtime state.
pub struct Timer {
    pub name: String,
    pub notification: String,
    /// Seconds after `started_at` at which the timer fires.
    pub interval: u64,
    /// A repeating timer rearms after it fires; the other kind ends.
    pub repeating: bool,
    /// Clock reading (ms) at which the current countdown began.
    pub started_at: u64,
    /// Set once a non-repeating timer has fired.
    pub ended: bool,
}

impl Timer {
    /// A repeating timer never ends.
    pub open spec fn wf(&self) -> bool {
        self.repeating ==> !self.ended
    }

    /// Milliseconds counted so far at clock reading `now` (none before the start).
    pub open spec fn elapsed(&self, now: u64) -> int {
        if now >= self.started_at {
            now - self.started_at
        } else {
            0
        }
    }

    /// The timer fires at a poll made at `now`.
    pub open spec fn due(&self, now: u64) -> bool {
        !self.ended && self.elapsed(now) >= MS_PER_SECOND * self.interval
    }

    /// The timer after a poll made at `now`.
    pub open spec fn polled(self, now: u64) -> Timer {
        if self.due(now) {
            if self.repeating {
                Timer { started_at: now, ..self }
            } else {
                Timer { ended: true, ..self }
            }
        } else {
            self
        }
    }

    /// The timer after one poll at each of `times`, in order.
    pub open spec fn run(self, times: Seq<u64>) -> Timer
        decreases times.len(),
    {
        if times.len() == 0 {
            self
        } else {
            self.run(times.drop_last()).polled(times.last())
        }
    }

    /// How many of the polls at `times` fire the timer.
    pub open spec fn fire_count(self, times: Seq<u64>) -> nat
        decreases times.len(),
    {
        if times.len() == 0 {
            0
        } else {
            self.fire_count(times.drop_last()) + if self.run(times.drop_last()).due(times.last()) {
                1nat
            } else {
                0nat
            }
        }
    }

    /// A timer that starts counting at `now`.
    pub fn new(name: String, notification: String, interval: u64, repeating: bool, now: u64) -> (r: Timer)
        ensures
            r == (Timer { name, notification, interval, repeating, started_at: now, ended: false }),
            r.wf(),
    {
        Timer { name, notification, interval, repeating, started_at: now, ended: false }
    }

    /// Whether a poll at `now` fires the timer.
    pub fn is_due(&self, now: u64) -> (r: bool)
        ensures
            r == self.due(now),
    {
        if self.ended {
            return false;
        }
        let elapsed: u64 = if now >= self.started_at {
            now - self.started_at
        } else {
            0
        };
        let secs: u64 = elapsed / MS_PER_SECOND;
        proof {
            let e = elapsed as int;
            let i = self.interval as int;
            assert(secs >= i <==> e >= 1000 * i) by (nonlinear_arith)
                requires
                    secs == e / 1000,
                    e >= 0,
                    i >= 0,
            ;
        }
        secs >= self.interval
    }

    /// Polls the timer at `now`; returns whether it fired.
    pub fn poll(&mut self, now: u64) -> (fired: bool)
        ensures
            fired == old(self).due(now),
            *final(self) == old(self).polled(now),
    {
        let fired = self.is_due(now);
        if fired {
            if self.repeating {
                self.started_at = now;
            } else {
                self.ended = true;
            }
        }
        fired
    }
}

/// The scheduler's wait between two passes, in milliseconds.
pub const POLL_QUANTUM_MS: u64 = 1000;

proof fn lemma_once_keeps_start(t: Timer, times: Seq<u64>)
    requires
        !t.repeating,
        !t.ended,
    ensures
        t.run(times).started_at == t.started_at,
        t.run(times).interval == t.interval,
        !t.run(times).repeating,
        t.fire_count(times) == if t.run(times).ended { 1nat } else { 0nat },
    decreases times.len(),
{
    if times.len() > 0 {
        lemma_once_keeps_start(t, times.drop_last());
    }
}

proof fn lemma_once_ends(t: Timer, times: Seq<u64>, k: int)
    requires
        !t.repeating,
        !t.ended,
        0 <= k < times.len(),
        times[k] >= t.started_at + MS_PER_SECOND * t.interval,
    ensures
        t.run(times).ended,
    decreases times.len(),
{
    let d = times.drop_last();
    lemma_once_keeps_start(t, d);
    if k < times.len() - 1 {
        assert(d[k] == times[k]);
        lemma_once_ends(t, d, k);
    }
}

/// A non-repeating timer that is polled at some moment `interval` seconds or
/// more after it started has then ended, and has fired exactly once.
///
/// Polls come one quantum apart, so a run that lasts the interval plus one
/// quantum holds such a poll.
pub proof fn lemma_one_shot_fires_once(t: Timer, times: Seq<u64>, k: int)
    requires
        !t.repeating,
        !t.ended,
        0 <= k < times.len(),
        times[k] >= t.started_at + MS_PER_SECOND * t.interval,
    ensures
        t.run(times).ended,
        t.fire_count(times) == 1,
{
    lemma_once_ends(t, times, k);
    lemma_once_keeps_start(t, times);
}

/// A repeating timer never ends, whatever the polls.
pub proof fn lemma_repeating_never_ends(t: Timer, times: Seq<u64>)
    requires
        t.repeating,
        !t.ended,
    ensures
        !t.run(times).ended,
        t.run(times).repeating,
        t.run(times).interval == t.interval,
    decreases times.len(),
{
    if times.len() > 0 {
        lemma_repeating_never_ends(t, times.drop_last());
    }
}

/// Polls in order, each at most one quantum after the one before, the first at
/// most one quantum after `start`.
pub open spec fn steady_polls(times: Seq<u64>, start: u64) -> bool {
    &&& times.len() > 0
    &&& start <= times[0] <= start + POLL_QUANTUM_MS
    &&& forall|k: int| 0 < k < times.len() ==> times[k - 1] <= #[trigger] times[k] <= times[k - 1] + POLL_QUANTUM_MS
}

proof fn lemma_repeating_bounds(t: Timer, times: Seq<u64>)
    requires
        t.repeating,
        !t.ended,
        t.interval >= 1,
        steady_polls(times, t.started_at),
    ensures
        ({
            let r = t.run(times);
            let c = t.fire_count(times) as int;
            let p = MS_PER_SECOND * t.interval;
            let q = POLL_QUANTUM_MS as int;
            &&& t.started_at <= r.started_at <= times.last()
            &&& times.last() - r.started_at < p
            &&& c * p <= r.started_at - t.started_at
            &&& r.started_at - t.started_at <= c * (p + q)
        }),
    decreases times.len(),
{
    let p = MS_PER_SECOND * t.interval;
    let q = POLL_QUANTUM_MS as int;
    let d = times.drop_last();
    lemma_repeating_never_ends(t, d);
    lemma_repeating_never_ends(t, times);
    assert(p >= 1000);
    if times.len() == 1 {
        assert(d.len() == 0);
        let c = t.fire_count(times) as int;
        assert(t.run(d) == t);
        assert(t.fire_count(d) == 0);
        assert(times.last() == times[0]);
        if t.due(times[0]) {
            assert(c == 1);
            assert(c * (p + q) == p + q);
            assert(t.run(times).started_at == times[0]);
            assert(c * p == p);
        } else {
            assert(c == 0);
            assert(t.run(times) == t);
        }
    } else {
        assert(steady_polls(d, t.started_at)) by {
            assert forall|k: int| 0 < k < d.len() implies d[k - 1] <= #[trigger] d[k] <= d[k - 1] + POLL_QUANTUM_MS by {
                assert(d[k] == times[k] && d[k - 1] == times[k - 1]);
            }
        }
        lemma_repeating_bounds(t, d);
        let r0 = t.run(d);
        let c0 = t.fire_count(d) as int;
        let last = times.last();
        let prev = d.last();
        assert(prev == times[times.len() - 2]);
        assert(prev <= last <= prev + q);
        assert(t.run(times) == r0.polled(last));
        assert(r0.interval == t.interval);
        if r0.due(last) {
            assert(t.fire_count(times) == c0 + 1);
            assert((c0 + 1) * p == c0 * p + p) by (nonlinear_arith);
            assert((c0 + 1) * (p + q) == c0 * (p + q) + p + q) by (nonlinear_arith);
            assert(t.run(times).started_at == last);
        } else {
            assert(t.fire_count(times) == c0);
            assert(t.run(times) == r0);
        }
    }
}

/// Over a run of steady polls lasting `D` ms from the start, a repeating timer
/// of `i` seconds fires `c` times with `c * i` seconds at most `D`, and `D`
/// under `(c + 1) * i` seconds plus one quantum for each firing: the count is
/// `D / i`, each firing at most one quantum late. It never ends meanwhile.
pub proof fn lemma_repeating_fire_count(t: Timer, times: Seq<u64>)
    requires
        t.repeating,
        !t.ended,
        t.interval >= 1,
        steady_polls(times, t.started_at),
    ensures
        ({
            let c = t.fire_count(times) as int;
            let dur = times.last() - t.started_at;
            let p = MS_PER_SECOND * t.interval;
            &&& c * p <= dur
            &&& dur < (c + 1) * p + c * POLL_QUANTUM_MS
        }),
        forall|k: int| 0 <= k <= times.len() ==> !#[trigger] t.run(times.take(k)).ended,
{
    lemma_repeating_bounds(t, times);
    let c = t.fire_count(times) as int;
    let p = MS_PER_SECOND * t.interval;
    let q = POLL_QUANTUM_MS as int;
    assert(c * (p + q) == c * p + c * q) by (nonlinear_arith);
    assert((c + 1) * p == c * p + p) by (nonlinear_arith);
    assert forall|k: int| 0 <= k <= times.len() implies !#[trigger] t.run(times.take(k)).ended by {
        lemma_repeating_never_ends(t, times.take(k));
    }
}

proof fn lemma_steady_prefix(times: Seq<u64>, start: u64, k: int)
    requires
        steady_polls(times, start),
        1 <= k <= times.len(),
    ensures
        steady_polls(times.take(k), start),
        times.take(k).last() == times[k - 1],
{
    let d = times.take(k);
    assert forall|j: int| 0 < j < d.len() implies d[j - 1] <= #[trigger] d[j] <= d[j - 1] + POLL_QUANTUM_MS by {
        assert(d[j] == times[j] && d[j - 1] == times[j - 1]);
    }
}

proof fn lemma_steady_from_start(times: Seq<u64>, start: u64, k: int)
    requires
        steady_polls(times, start),
        0 <= k < times.len(),
    ensures
        start <= times[k],
    decreases k,
{
    if k > 0 {
        lemma_steady_from_start(times, start, k - 1);
        assert(times[k - 1] <= times[k]);
    }
}

proof fn lemma_take_step(t: Timer, times: Seq<u64>, k: int)
    requires
        0 <= k < times.len(),
    ensures
        t.run(times.take(k + 1)) == t.run(times.take(k)).polled(times[k]),
{
    assert(times.take(k + 1).drop_last() == times.take(k));
}

/// Under steady polls, the poll at which a non-repeating timer of `i` seconds
/// fires comes between `i` seconds and `i` seconds plus one quantum after it
/// started.
pub proof fn lemma_one_shot_window(t: Timer, times: Seq<u64>, k: int)
    requires
        !t.repeating,
        !t.ended,
        steady_polls(times, t.started_at),
        0 <= k < times.len(),
        !t.run(times.take(k)).ended,
        t.run(times.take(k + 1)).ended,
    ensures
        t.started_at + MS_PER_SECOND * t.interval <= times[k],
        times[k] <= t.started_at + MS_PER_SECOND * t.interval + POLL_QUANTUM_MS,
{
    lemma_take_step(t, times, k);
    lemma_once_keeps_start(t, times.take(k));
    lemma_steady_from_start(times, t.started_at, k);
    if k > 0 {
        lemma_take_step(t, times, k - 1);
        lemma_once_keeps_start(t, times.take(k - 1));
        lemma_steady_from_start(times, t.started_at, k - 1);
        assert(times[k - 1] <= times[k] <= times[k - 1] + POLL_QUANTUM_MS);
    }
}

/// Under steady polls, a repeating timer of `i` seconds fires between `i`
/// seconds and `i` seconds plus one quantum after its previous firing (or its
/// start), and a poll never moves its start backward.
pub proof fn lemma_repeating_spacing(t: Timer, times: Seq<u64>, k: int)
    requires
        t.repeating,
        !t.ended,
        t.interval >= 1,
        steady_polls(times, t.started_at),
        0 <= k < times.len(),
    ensures
        t.run(times.take(k)).started_at <= t.run(times.take(k + 1)).started_at,
        t.run(times.take(k)).due(times[k]) ==> {
            &&& t.run(times.take(k)).started_at + MS_PER_SECOND * t.interval <= times[k]
            &&& times[k] < t.run(times.take(k)).started_at + MS_PER_SECOND * t.interval + POLL_QUANTUM_MS
        },
{
    let r = t.run(times.take(k));
    lemma_take_step(t, times, k);
    lemma_repeating_never_ends(t, times.take(k));
    lemma_steady_from_start(times, t.started_at, k);
    assert(MS_PER_SECOND * t.interval >= 1000);
    if k == 0 {
        assert(times.take(0).len() == 0);
        assert(r == t);
    } else {
        lemma_steady_prefix(times, t.started_at, k);
        lemma_repeating_bounds(t, times.take(k));
        assert(times[k - 1] <= times[k] <= times[k - 1] + POLL_QUANTUM_MS);
    }
}

} // verus!
