//! The mathematical content of a playback: when its soundings begin, what a
//! read of a window reports, and what it leaves in the buffer.

use vstd::prelude::*;
use vstd::arithmetic::div_mod::{
    lemma_basic_div, lemma_fundamental_div_mod, lemma_fundamental_div_mod_converse, lemma_small_mod,
};
use crate::playback::ReadResult;
use crate::sample::Sample;

verus! {

/// The mathematical content of a [`Playback`](crate::playback::Playback).
pub struct Schedule<S> {
    /// Clock index at which the first sounding begins.
    pub start: nat,
    /// Samples between the starts of successive soundings.
    pub period: nat,
    /// Soundings after the first, or `None` for a playback that repeats forever.
    pub count: Option<nat>,
    /// The waveform.
    pub samples: Seq<S>,
}

impl<S> Schedule<S> {
    /// A period of zero is meaningful only for a playback that sounds once.
    pub open spec fn valid(self) -> bool {
        self.period > 0 || self.count == Some(0nat)
    }

    /// The clock index just past the last sounding, where there is a last one.
    pub open spec fn end(self) -> Option<nat> {
        match self.count {
            Some(n) => Some(self.start + self.samples.len() + self.period * n),
            None => None,
        }
    }

    /// What a read of the window `[time, time + len)` reports.
    pub open spec fn status(self, time: nat, len: nat) -> ReadResult {
        if time + len < self.start {
            ReadResult::NotYetStarted
        } else if self.end() matches Some(e) && time > e {
            ReadResult::Ended
        } else {
            ReadResult::Rendered
        }
    }

    /// The index of the first repetition that a read at `time` considers: the
    /// one in whose period `time` falls, and the first of all before `start`.
    pub open spec fn first_repetition(self, time: nat) -> nat {
        if self.period == 0 || time <= self.start {
            0
        } else {
            ((time - self.start) / (self.period as int)) as nat
        }
    }

    /// The clock index at which repetition `k` begins.
    pub open spec fn repetition_start(self, k: nat) -> nat {
        self.start + k * self.period
    }

    /// Whether repetition `k`, which begins at `at`, sounds in a window that
    /// ends at `limit`: it begins before the window ends, and a finite count
    /// allows it.
    pub open spec fn sounds(self, k: nat, at: nat, limit: nat) -> bool {
        &&& at < limit
        &&& self.count matches Some(n) ==> k <= n
    }

    /// A bound on how many repetitions from `k` on can still sound.
    pub open spec fn repetitions_left(self, k: nat, at: nat, limit: nat) -> nat {
        let by_time = if at < limit { limit - at } else { 0 };
        let by_count = match self.count {
            Some(n) => if k <= n { n + 1 - k } else { 0 },
            None => 0,
        };
        (by_time + by_count) as nat
    }

    /// This schedule moved so that its first sounding begins at `start`.
    pub open spec fn with_start(self, start: nat) -> Self {
        Schedule { start, ..self }
    }

    /// This schedule with another period and repetition count.
    pub open spec fn with_repetition(self, period: nat, count: Option<nat>) -> Self {
        Schedule { period, count, ..self }
    }

    /// Whether the whole schedule lies within the range of the sample clock.
    pub open spec fn in_range(self) -> bool {
        &&& self.start <= usize::MAX
        &&& self.period <= usize::MAX
        &&& self.samples.len() <= usize::MAX
        &&& self.count matches Some(n) ==> n <= usize::MAX
        &&& self.end() matches Some(e) ==> e <= usize::MAX
    }
}

impl<S: Sample> Schedule<S> {
    /// `buffer`, which stands for the window that begins at `time`, after
    /// repetition `k` (which begins at `at`) and every later one that sounds
    /// in the window have been mixed onto it, in this order.
    pub open spec fn mixed_from(self, k: nat, at: nat, time: nat, buffer: Seq<S>) -> Seq<S>
        decreases self.repetitions_left(k, at, time + buffer.len()),
    {
        if self.valid() && self.sounds(k, at, time + buffer.len()) {
            self.mixed_from(
                k + 1,
                at + self.period,
                time,
                overlay(buffer, self.samples, at - time),
            )
        } else {
            buffer
        }
    }

    /// What a read of the window that begins at `time` leaves in `buffer`.
    pub open spec fn rendered(self, time: nat, buffer: Seq<S>) -> Seq<S> {
        if self.status(time, buffer.len()) == ReadResult::Rendered {
            let k = self.first_repetition(time);
            self.mixed_from(k, self.repetition_start(k), time, buffer)
        } else {
            buffer
        }
    }

    /// The number of repetitions from `k` on, the first of which begins at
    /// `at`, that sound in a window that ends at `limit`.
    pub open spec fn soundings_from(self, k: nat, at: nat, limit: nat) -> nat
        decreases self.repetitions_left(k, at, limit),
    {
        if self.valid() && self.sounds(k, at, limit) {
            1 + self.soundings_from(k + 1, at + self.period, limit)
        } else {
            0
        }
    }

    /// The number of repetitions that a read of the window of `len` samples
    /// at `time` mixes in.
    pub open spec fn soundings(self, time: nat, len: nat) -> nat {
        if self.status(time, len) == ReadResult::Rendered {
            let k = self.first_repetition(time);
            self.soundings_from(k, self.repetition_start(k), time + len)
        } else {
            0
        }
    }

    /// Whether the soundings do not overlap: each has ended when the next
    /// begins.
    pub open spec fn separate(self) -> bool {
        self.period == 0 || self.samples.len() <= self.period
    }

    /// The sample that repetition `k`, which begins at `at`, or a later one
    /// sounds at clock index `t`, where the soundings do not overlap: `t`
    /// falls into the period of one repetition, and at a position of the
    /// waveform, if the count allows that repetition and the waveform is that
    /// long.
    pub open spec fn sample_from(self, k: nat, at: nat, t: nat) -> Option<S> {
        if t < at {
            None
        } else {
            let since = t - at;
            let later = if self.period == 0 {
                0
            } else {
                since / (self.period as int)
            };
            let position = if self.period == 0 {
                since
            } else {
                since % (self.period as int)
            };
            if (self.count matches Some(n) ==> k + later <= n) && position < self.samples.len() {
                Some(self.samples[position])
            } else {
                None
            }
        }
    }

    /// The sample that sounds at clock index `t`, where the soundings do not
    /// overlap.
    pub open spec fn sample_at(self, t: nat) -> Option<S> {
        self.sample_from(0, self.start, t)
    }
}

/// A playback that repeats forever never reports [`ReadResult::Ended`],
/// however far the clock has advanced.
pub proof fn lemma_unbounded_never_ends<S: Sample>(schedule: Schedule<S>, time: nat, len: nat)
    requires
        schedule.count is None,
    ensures
        schedule.status(time, len) != ReadResult::Ended,
{
}

/// A playback that begins at clock index zero, is not repeated, and has its
/// waveform's length as period sounds exactly once: a read of any window
/// that begins no later than the waveform's end mixes in the one sounding at
/// clock index zero and nothing else, and a read of any window that begins
/// after the waveform's end reports [`ReadResult::Ended`] and changes nothing.
pub proof fn lemma_single_sounding<S: Sample>(schedule: Schedule<S>, time: nat, buffer: Seq<S>)
    requires
        schedule.start == 0,
        schedule.period == schedule.samples.len(),
        schedule.count == Some(0nat),
    ensures
        time > schedule.samples.len() ==> schedule.status(time, buffer.len()) == ReadResult::Ended
            && schedule.rendered(time, buffer) == buffer,
        time <= schedule.samples.len() ==> schedule.status(time, buffer.len())
            == ReadResult::Rendered && schedule.rendered(time, buffer) == overlay(
            buffer,
            schedule.samples,
            0 - time,
        ),
        time == schedule.samples.len() ==> schedule.rendered(time, buffer) == buffer,
{
    let len = schedule.samples.len();
    assert(schedule.end() == Some(len)) by {
        assert(schedule.period * 0 == 0);
    }
    if time <= len {
        let once = overlay(buffer, schedule.samples, 0 - time);
        if time == 0 || len == 0 {
            // The read begins with the sounding at zero, if the window is
            // not empty, and the count allows no other.
            assert(schedule.first_repetition(time) == 0);
            assert(schedule.repetition_start(0) == 0);
            assert(schedule.mixed_from(1, schedule.period, time, once) == once);
            if time + buffer.len() == 0 {
                assert(once =~= buffer);
            }
        } else if time < len {
            assert(schedule.first_repetition(time) == 0) by (nonlinear_arith)
                requires
                    0 < time < len,
                    schedule.first_repetition(time) == (time - 0) / (len as int),
            ;
            assert(schedule.repetition_start(0) == 0);
            assert(schedule.mixed_from(1, schedule.period, time, once) == once);
        } else {
            // The read begins with a repetition that the count does not
            // allow, and the sounding at zero does not reach the window.
            assert(schedule.first_repetition(time) == 1) by (nonlinear_arith)
                requires
                    0 < time == len,
                    schedule.first_repetition(time) == (time - 0) / (len as int),
            ;
            assert(once =~= buffer);
        }
    }
}

/// `value` with `sample` mixed onto it, where there is one.
pub open spec fn mixed_with<S: Sample>(value: S, sample: Option<S>) -> S {
    match sample {
        Some(x) => value.mixed(x),
        None => value,
    }
}

/// Where the soundings do not overlap, repetition `k` and the later ones mix
/// onto each index of the buffer the one sample that sounds at its clock
/// index, if any.
proof fn lemma_mixed_from_pointwise<S: Sample>(
    schedule: Schedule<S>,
    k: nat,
    at: nat,
    time: nat,
    buffer: Seq<S>,
)
    requires
        schedule.valid(),
        schedule.separate(),
    ensures
        schedule.mixed_from(k, at, time, buffer).len() == buffer.len(),
        forall|j: int|
            0 <= j < buffer.len() ==> (#[trigger] schedule.mixed_from(k, at, time, buffer)[j])
                == mixed_with(buffer[j], schedule.sample_from(k, at, (time + j) as nat)),
    decreases schedule.repetitions_left(k, at, time + buffer.len()),
{
    let limit = time + buffer.len();
    let period = schedule.period as int;
    let result = schedule.mixed_from(k, at, time, buffer);
    if schedule.sounds(k, at, limit) {
        let next = overlay(buffer, schedule.samples, at - time);
        lemma_mixed_from_pointwise(schedule, k + 1, at + schedule.period, time, next);
        assert forall|j: int| 0 <= j < buffer.len() implies (#[trigger] result[j]) == mixed_with(
            buffer[j],
            schedule.sample_from(k, at, (time + j) as nat),
        ) by {
            let t = (time + j) as nat;
            if t < at || period == 0 {
                // No later repetition reaches `t`.
            } else if t < at + period {
                lemma_basic_div(t - at, period);
                lemma_small_mod((t - at) as nat, period as nat);
            } else {
                // Repetition `k` has ended at `t`, and `t` lies as far into
                // the period of a later one as it lies behind `at`.
                let rest = t - at - period;
                lemma_fundamental_div_mod(rest, period);
                assert(t - at == (rest / period + 1) * period + rest % period)
                    by (nonlinear_arith)
                    requires
                        rest == period * (rest / period) + rest % period,
                        rest == t - at - period,
                ;
                lemma_fundamental_div_mod_converse(
                    t - at,
                    period,
                    rest / period + 1,
                    rest % period,
                );
            }
        }
    }
}

/// Where the soundings of a playback do not overlap, a read mixes onto each
/// index of the buffer the one sample that sounds at its clock index, and
/// leaves the index as it was where none sounds: the sample at position
/// `(t - start) % period` of the waveform, in repetition
/// `(t - start) / period`, for the clock index `t` of the buffer index.
pub proof fn lemma_rendered_pointwise<S: Sample>(schedule: Schedule<S>, time: nat, buffer: Seq<S>)
    requires
        schedule.valid(),
        schedule.separate(),
    ensures
        schedule.rendered(time, buffer).len() == buffer.len(),
        forall|j: int|
            0 <= j < buffer.len() ==> (#[trigger] schedule.rendered(time, buffer)[j])
                == mixed_with(buffer[j], schedule.sample_at((time + j) as nat)),
{
    let period = schedule.period as int;
    let start = schedule.start as int;
    let len = schedule.samples.len() as int;
    let result = schedule.rendered(time, buffer);
    match schedule.status(time, buffer.len()) {
        ReadResult::Rendered => {
            let first = schedule.first_repetition(time);
            let at = schedule.repetition_start(first);
            lemma_mixed_from_pointwise(schedule, first, at, time, buffer);
            assert forall|j: int| 0 <= j < buffer.len() implies (#[trigger] result[j])
                == mixed_with(buffer[j], schedule.sample_at((time + j) as nat)) by {
                let t = (time + j) as nat;
                if period == 0 || time <= start {
                    assert(at == start) by (nonlinear_arith)
                        requires
                            first == 0,
                            at == start + first * period,
                    ;
                } else {
                    lemma_fundamental_div_mod(time - start, period);
                    assert(at <= time) by (nonlinear_arith)
                        requires
                            at == start + first * period,
                            first == (time - start) / period,
                            time - start == period * ((time - start) / period) + (time - start)
                                % period,
                            (time - start) % period >= 0,
                    ;
                    let rest = t - at;
                    lemma_fundamental_div_mod(rest, period);
                    assert(t - start == (first + rest / period) * period + rest % period)
                        by (nonlinear_arith)
                        requires
                            rest == period * (rest / period) + rest % period,
                            rest == t - at,
                            at == start + first * period,
                    ;
                    lemma_fundamental_div_mod_converse(
                        t - start,
                        period,
                        first + rest / period,
                        rest % period,
                    );
                }
            }
        },
        ReadResult::NotYetStarted => {},
        ReadResult::Ended => {
            let n = schedule.count->0 as int;
            assert forall|j: int| 0 <= j < buffer.len() implies (#[trigger] result[j])
                == mixed_with(buffer[j], schedule.sample_at((time + j) as nat)) by {
                let t = (time + j) as nat;
                let since = t - start;
                if period > 0 {
                    lemma_fundamental_div_mod(since, period);
                    if since / period <= n {
                        assert(since % period > len) by (nonlinear_arith)
                            requires
                                since == period * (since / period) + since % period,
                                since > len + period * n,
                                since / period <= n,
                                period > 0,
                        ;
                    }
                }
            }
        },
    }
}

/// `buffer` with `samples` mixed onto it, the first of them on index `offset`.
/// Samples that fall before or behind the buffer are left out.
pub open spec fn overlay<S: Sample>(buffer: Seq<S>, samples: Seq<S>, offset: int) -> Seq<S> {
    Seq::new(
        buffer.len(),
        |j: int|
            if 0 <= j - offset < samples.len() {
                buffer[j].mixed(samples[j - offset])
            } else {
                buffer[j]
            },
    )
}

} // verus!
