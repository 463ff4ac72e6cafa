//! One scheduled, optionally repeating sounding of a waveform.

use std::sync::Arc;
use vstd::prelude::*;
use vstd::arithmetic::div_mod::lemma_fundamental_div_mod;
use crate::sample::Sample;
use crate::schedule::{overlay, Schedule};

verus! {

/// What a playback did with a window of the sample clock.
#[derive(Clone, Copy, Debug, PartialEq, Eq, Structural)]
pub enum ReadResult {
    /// The window was rendered: every repetition that sounds in it was mixed in.
    Rendered,
    /// The whole window lies before the first sounding.
    NotYetStarted,
    /// The window begins after the end of the last sounding.
    Ended,
}

/// Why a schedule was refused.
#[derive(Clone, Copy, Debug, PartialEq, Eq, Structural)]
pub enum ScheduleError {
    /// A period of zero together with a repetition count other than zero.
    ZeroPeriod,
    /// The end of the last sounding lies beyond the range of the sample clock.
    OutOfRange,
}

/// A repetition count as the model holds it.
pub open spec fn count_model(count: Option<usize>) -> Option<nat> {
    match count {
        Some(n) => Some(n as nat),
        None => None,
    }
}

/// Whether a schedule with a finite count ends within the clock's range.
fn end_in_range(start: usize, len: usize, period: usize, count: Option<usize>) -> (b: bool)
    ensures
        b == (count matches Some(n) ==> start + len + period * n <= usize::MAX),
{
    match count {
        None => true,
        Some(n) => match period.checked_mul(n) {
            None => {
                assert(period * n >= 0) by (nonlinear_arith);
                false
            },
            Some(span) => match span.checked_add(len) {
                None => false,
                Some(sounding) => sounding.checked_add(start).is_some(),
            },
        },
    }
}

/// A waveform scheduled on the sample clock.
///
/// The waveform is shared, never copied: playbacks of one click hold the same
/// samples.
pub struct Playback<S> {
    start: usize,
    repetition_period: usize,
    repetition_count: Option<usize>,
    samples: Arc<Vec<S>>,
}

impl<S> View for Playback<S> {
    type V = Schedule<S>;

    closed spec fn view(&self) -> Schedule<S> {
        Schedule {
            start: self.start as nat,
            period: self.repetition_period as nat,
            count: count_model(self.repetition_count),
            samples: self.samples@,
        }
    }
}

impl<S> Playback<S> {
    #[verifier::type_invariant]
    spec fn well_formed(&self) -> bool {
        self@.valid() && self@.in_range()
    }
}

/// Another handle to the same waveform, by `Arc::clone`: the new handle
/// points to the allocation that `samples` points to, so it holds the same
/// samples.
#[verifier::external_body]
pub(crate) fn share<S>(samples: &Arc<Vec<S>>) -> (shared: Arc<Vec<S>>)
    ensures
        shared == *samples,
{
    Arc::clone(samples)
}

impl<S> Clone for Playback<S> {
    /// A playback with the same schedule that shares the waveform.
    fn clone(&self) -> (p: Self)
        ensures
            p@ == self@,
    {
        proof {
            use_type_invariant(self);
        }
        Playback {
            start: self.start,
            repetition_period: self.repetition_period,
            repetition_count: self.repetition_count,
            samples: share(&self.samples),
        }
    }
}

impl<S> Playback<S> {
    /// A playback of `samples` that sounds once, at clock index zero.
    pub fn new(samples: Arc<Vec<S>>) -> (p: Self)
        ensures
            p@ == (Schedule { start: 0, period: 0, count: Some(0nat), samples: samples@ }),
            p@.in_range(),
    {
        let _ = samples.len();
        Playback { start: 0, repetition_period: 0, repetition_count: Some(0), samples }
    }

    /// Moves the first sounding to the clock index `offset`.
    ///
    /// Fails where the last sounding would then end beyond the clock's range.
    pub fn offset(self, offset: usize) -> (r: Result<Self, ScheduleError>)
        ensures
            r is Ok <==> self@.with_start(offset as nat).in_range(),
            r matches Ok(p) ==> p@ == self@.with_start(offset as nat),
            r matches Err(e) ==> e == ScheduleError::OutOfRange,
    {
        proof {
            use_type_invariant(&self);
        }
        if end_in_range(offset, self.samples.len(), self.repetition_period, self.repetition_count) {
            Ok(
                Playback {
                    start: offset,
                    repetition_period: self.repetition_period,
                    repetition_count: self.repetition_count,
                    samples: self.samples,
                },
            )
        } else {
            Err(ScheduleError::OutOfRange)
        }
    }

    /// Whether [`offset`](Self::offset) to `offset` would succeed.
    pub fn fits_at(&self, offset: usize) -> (b: bool)
        ensures
            b == self@.with_start(offset as nat).in_range(),
    {
        proof {
            use_type_invariant(self);
        }
        end_in_range(offset, self.samples.len(), self.repetition_period, self.repetition_count)
    }

    /// Sets the period between soundings and the number of soundings after
    /// the first, `None` for a playback that repeats until it is cleared.
    ///
    /// A period of zero is refused unless `count` is `Some(0)`; so is a
    /// schedule whose last sounding would end beyond the clock's range.
    pub fn repeat(self, period: usize, count: Option<usize>) -> (r: Result<Self, ScheduleError>)
        ensures
            r is Ok <==> self@.with_repetition(period as nat, count_model(count)).valid()
                && self@.with_repetition(period as nat, count_model(count)).in_range(),
            r matches Ok(p) ==> p@ == self@.with_repetition(period as nat, count_model(count)),
            r matches Err(e) ==> (e == ScheduleError::ZeroPeriod <==> !self@.with_repetition(
                period as nat,
                count_model(count),
            ).valid()),
    {
        proof {
            use_type_invariant(&self);
        }
        let single = match count {
            Some(n) => n == 0,
            None => false,
        };
        if period == 0 && !single {
            Err(ScheduleError::ZeroPeriod)
        } else if end_in_range(self.start, self.samples.len(), period, count) {
            Ok(
                Playback {
                    start: self.start,
                    repetition_period: period,
                    repetition_count: count,
                    samples: self.samples,
                },
            )
        } else {
            Err(ScheduleError::OutOfRange)
        }
    }

    /// The clock index at which the first sounding begins.
    pub fn start(&self) -> (start: usize)
        ensures
            start == self@.start,
    {
        self.start
    }

    /// The number of samples between the starts of successive soundings.
    pub fn repetition_period(&self) -> (period: usize)
        ensures
            period == self@.period,
    {
        self.repetition_period
    }

    /// The number of soundings after the first; `None` for a playback that
    /// repeats forever.
    pub fn repetition_count(&self) -> (count: Option<usize>)
        ensures
            count_model(count) == self@.count,
    {
        self.repetition_count
    }

    /// The waveform.
    pub fn samples(&self) -> (samples: &Arc<Vec<S>>)
        ensures
            samples@ == self@.samples,
    {
        &self.samples
    }

    /// The clock index just past the last sounding; `None` for a playback that
    /// repeats forever.
    pub fn end(&self) -> (e: Option<usize>)
        ensures
            match e {
                Some(end) => self@.end() == Some(end as nat),
                None => self@.end() is None,
            },
    {
        proof {
            use_type_invariant(self);
        }
        match self.repetition_count {
            Some(n) => {
                Some(self.start + self.samples.len() + self.repetition_period * n)
            },
            None => None,
        }
    }

    /// Whether the repetition count allows a repetition with index `k`.
    fn allows(&self, k: u128) -> (b: bool)
        ensures
            b == (self@.count matches Some(n) ==> k <= n),
    {
        match self.repetition_count {
            Some(n) => k <= n as u128,
            None => true,
        }
    }
}

impl<S: Sample> Playback<S> {
    /// Renders this playback's part of the window `[time, time + buffer.len())`
    /// of the sample clock onto `buffer`, which stands for that window.
    ///
    /// Nothing is overwritten: every repetition that sounds in the window is
    /// mixed onto what `buffer` holds, clipped at both ends of the buffer.
    /// The repetitions that sound are the one in whose period `time` falls
    /// and those that begin later in the window, as far as the repetition
    /// count allows them. A window that lies before the first sounding, or
    /// begins after the end of the last one, is reported and left as it is.
    pub fn read(&self, time: usize, buffer: &mut [S]) -> (r: ReadResult)
        ensures
            r == self@.status(time as nat, old(buffer)@.len()),
            final(buffer)@ == self@.rendered(time as nat, old(buffer)@),
            final(buffer)@.len() == old(buffer)@.len(),
    {
        proof {
            use_type_invariant(self);
        }
        let ghost before = buffer@;
        let ghost limit = (time + buffer@.len()) as nat;
        let len = buffer.len();
        let period = self.repetition_period;
        if self.start > time && self.start - time > len {
            return ReadResult::NotYetStarted;
        }
        if let Some(end) = self.end() {
            if time > end {
                return ReadResult::Ended;
            }
        }
        // The first repetition to consider, and where it begins: `lag` samples
        // before the window, or `ahead` samples into it.
        let mut k: u128 = 0;
        let mut ahead: usize = 0;
        let ghost mut at: nat = self.start as nat;
        if time <= self.start {
            ahead = self.start - time;
            assert(self@.repetition_start(0) == at);
        } else {
            let elapsed = time - self.start;
            let lag = if period == 0 { elapsed } else { elapsed % period };
            k = if period == 0 { 0 } else { (elapsed / period) as u128 };
            proof {
                at = (time - lag) as nat;
                if period > 0 {
                    lemma_fundamental_div_mod(elapsed as int, period as int);
                    assert(at == self.start + k * period) by (nonlinear_arith)
                        requires
                            at == time - lag,
                            elapsed == time - self.start,
                            elapsed == period * (elapsed / period) + lag,
                            k == elapsed / period,
                    ;
                }
            }
            if lag > 0 {
                if !self.allows(k) {
                    return ReadResult::Rendered;
                }
                let skipped = if lag < self.samples.len() { lag } else { self.samples.len() };
                self.mix_span(skipped, 0, buffer);
                assert(buffer@ =~= overlay(before, self@.samples, at - time));
                if period == 0 {
                    // The one sounding has been mixed in, and no other follows.
                    assert(self@.mixed_from(1, at, time as nat, buffer@) == buffer@);
                    return ReadResult::Rendered;
                }
                k = k + 1;
                ahead = period - lag;
                proof {
                    at = (at + period) as nat;
                }
            }
        }
        loop
            invariant_except_break
                at == time + ahead,
                k <= at + 1,
            invariant
                self@.valid(),
                self@.in_range(),
                period == self@.period,
                len == before.len(),
                buffer@.len() == before.len(),
                limit == time + before.len(),
                self@.mixed_from(k as nat, at, time as nat, buffer@) == self@.rendered(
                    time as nat,
                    before,
                ),
            ensures
                buffer@ == self@.rendered(time as nat, before),
            decreases self@.repetitions_left(k as nat, at, limit),
        {
            if ahead >= len || !self.allows(k) {
                // Repetition `k` does not sound in the window, so none does
                // that has not been mixed in.
                assert(!self@.sounds(k as nat, at, limit));
                break;
            }
            let ghost current = buffer@;
            self.mix_span(0, ahead, buffer);
            proof {
                assert(self@.mixed_from(k as nat, at, time as nat, current) == self@.mixed_from(
                    (k + 1) as nat,
                    (at + period) as nat,
                    time as nat,
                    buffer@,
                ));
                at = (at + period) as nat;
            }
            k = k + 1;
            match ahead.checked_add(period) {
                Some(next) => {
                    ahead = next;
                },
                None => {
                    // The next repetition begins beyond the clock's range, and
                    // so behind the window.
                    assert(!self@.sounds(k as nat, at, limit));
                    break;
                },
            }
        }
        ReadResult::Rendered
    }

    /// Mixes the waveform onto `output`, the waveform's first sample on index
    /// `time_offset`, which may be negative or beyond the end of `output`.
    pub fn read_sample(&self, time_offset: isize, output: &mut [S])
        ensures
            final(output)@ == overlay(old(output)@, self@.samples, time_offset as int),
    {
        let ghost before = output@;
        if time_offset >= 0 {
            let write_offset = time_offset as usize;
            if write_offset < output.len() {
                self.mix_span(0, write_offset, output);
            } else {
            }
        } else {
            let read_offset = (-(time_offset + 1)) as usize + 1;
            if read_offset < self.samples.len() {
                self.mix_span(read_offset, 0, output);
            } else {
            }
        }
    }

    /// Mixes the waveform from index `read_offset` on onto `output` from
    /// index `write_offset` on, as far as both reach.
    fn mix_span(&self, read_offset: usize, write_offset: usize, output: &mut [S])
        requires
            read_offset == 0 || write_offset == 0,
            read_offset <= self@.samples.len(),
            write_offset <= old(output)@.len(),
        ensures
            final(output)@ == overlay(old(output)@, self@.samples, write_offset - read_offset),
    {
        let ghost before = output@;
        let room = output.len() - write_offset;
        let supply = self.samples.len() - read_offset;
        let count = if room < supply { room } else { supply };
        let mut i: usize = 0;
        while i < count
            invariant
                i <= count,
                write_offset + count <= before.len() <= usize::MAX,
                read_offset + count <= self.samples@.len() <= usize::MAX,
                output@.len() == before.len(),
                forall|j: int|
                    0 <= j < before.len() ==> output@[j] == if write_offset <= j < write_offset + i {
                        before[j].mixed(self.samples@[j - write_offset + read_offset])
                    } else {
                        before[j]
                    },
            decreases count - i,
        {
            let s = self.samples[read_offset + i];
            output[write_offset + i] = output[write_offset + i].mix(s);
            i += 1;
        }
    }
}

} // verus!
