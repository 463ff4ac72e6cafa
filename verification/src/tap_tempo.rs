//! The timing filter behind tap tempo: it turns the times of taps into a run
//! of intervals that belong to one tempo.

use vstd::prelude::*;

verus! {

/// The mathematical content of a [`TapTempo`]. Times are in nanoseconds.
pub struct TapState {
    /// The accepted intervals between taps, oldest first.
    pub intervals: Seq<u64>,
    /// The time of the last tap.
    pub last: u64,
}

/// Whether `interval` differs from the last accepted interval `previous` by
/// more than a factor of two, in either direction.
pub open spec fn breaks_tempo(previous: u64, interval: u64) -> bool {
    2 * previous < interval || previous > 2 * interval
}

impl TapState {
    /// The time from the last tap to a tap at `now`; zero where the clock
    /// went backwards.
    pub open spec fn interval_to(self, now: u64) -> u64 {
        if now >= self.last {
            (now - self.last) as u64
        } else {
            0
        }
    }

    /// Whether a tap at `now` continues the run of accepted intervals.
    pub open spec fn accepts(self, now: u64) -> bool {
        self.intervals.len() == 0 || !breaks_tempo(self.intervals.last(), self.interval_to(now))
    }

    /// The state after a tap at `now`: the interval joins the run, or the run
    /// starts over empty.
    pub open spec fn tapped(self, now: u64) -> TapState {
        if self.accepts(now) {
            TapState { intervals: self.intervals.push(self.interval_to(now)), last: now }
        } else {
            TapState { intervals: Seq::empty(), last: now }
        }
    }
}

/// Whether `e` is a result of `estimate` on a slice that holds `intervals`.
pub open spec fn estimated<E, F: Fn(&[u64]) -> E>(estimate: &F, intervals: Seq<u64>, e: E) -> bool {
    exists|held: &[u64]| held@ == intervals && #[trigger] call_ensures(estimate, (held,), e)
}

/// A tap-tempo filter. It holds the intervals that a tempo estimate is taken
/// over; the estimate itself, sixty seconds over their geometric mean, is the
/// caller's function.
pub struct TapTempo {
    taps: Vec<u64>,
    last: u64,
}

impl View for TapTempo {
    type V = TapState;

    closed spec fn view(&self) -> TapState {
        TapState { intervals: self.taps@, last: self.last }
    }
}

impl TapTempo {
    /// A filter with no intervals yet, made at time `now`.
    pub fn new(now: u64) -> (t: TapTempo)
        ensures
            t@ == (TapState { intervals: Seq::empty(), last: now }),
    {
        TapTempo { taps: Vec::new(), last: now }
    }

    /// Records a tap at time `now` and reports the tempo estimate, if there
    /// is one.
    ///
    /// Where the interval since the last tap is within a factor of two of the
    /// last accepted interval, or there is none yet, the interval is accepted,
    /// and the result is what `estimate` makes of the accepted intervals,
    /// oldest first. Otherwise the run of intervals is cleared, and there is
    /// no estimate.
    pub fn tap<E, F: Fn(&[u64]) -> E>(&mut self, now: u64, estimate: &F) -> (r: Option<E>)
        requires
            forall|intervals: &[u64]| call_requires(estimate, (intervals,)),
        ensures
            final(self)@ == old(self)@.tapped(now),
            r is Some <==> old(self)@.accepts(now),
            r matches Some(e) ==> estimated(estimate, final(self)@.intervals, e),
    {
        let interval = if now >= self.last { now - self.last } else { 0 };
        self.last = now;
        let n = self.taps.len();
        if n > 0 && breaks(self.taps[n - 1], interval) {
            self.taps.clear();
            None
        } else {
            self.taps.push(interval);
            let intervals = self.taps.as_slice();
            let e = estimate(intervals);
            assert(call_ensures(estimate, (intervals,), e));
            Some(e)
        }
    }

    /// The accepted intervals in nanoseconds, oldest first.
    pub fn intervals(&self) -> (intervals: &Vec<u64>)
        ensures
            intervals@ == self@.intervals,
    {
        &self.taps
    }

    /// The time of the last tap.
    pub fn last(&self) -> (last: u64)
        ensures
            last == self@.last,
    {
        self.last
    }
}

/// Whether `interval` differs from `previous` by more than a factor of two.
fn breaks(previous: u64, interval: u64) -> (b: bool)
    ensures
        b == breaks_tempo(previous, interval),
{
    let p = previous as u128;
    let i = interval as u128;
    2 * p < i || p > 2 * i
}

} // verus!
