//! The playbacks of one bar of clicks.

use std::sync::Arc;
use vstd::prelude::*;
use crate::playback::{share, Playback, ScheduleError};
use crate::schedule::Schedule;

verus! {

/// The schedule of beat `beat` in a bar of `beats` beats that are `beat_len`
/// samples apart: it begins `beat` beats into the bar and repeats with every
/// bar, forever. The first beat sounds `accent`, and after it the beats
/// alternate between `odd` and `even`.
pub open spec fn beat_schedule<S>(
    accent: Seq<S>,
    odd: Seq<S>,
    even: Seq<S>,
    beats: nat,
    beat_len: nat,
    beat: nat,
) -> Schedule<S> {
    Schedule {
        start: beat * beat_len,
        period: beats * beat_len,
        count: None,
        samples: if beat == 0 {
            accent
        } else if beat % 2 == 1 {
            odd
        } else {
            even
        },
    }
}

/// The playbacks of a bar of `beats` beats that are `beat_len` samples apart,
/// one playback for each beat, in the order of the beats.
///
/// A bar with beats of length zero is refused, and so is a bar that is longer
/// than the range of the sample clock. A bar of no beats has no playbacks.
pub fn bar<S>(
    accent: &Arc<Vec<S>>,
    odd: &Arc<Vec<S>>,
    even: &Arc<Vec<S>>,
    beats: usize,
    beat_len: usize,
) -> (r: Result<Vec<Playback<S>>, ScheduleError>)
    ensures
        r is Ok <==> beats == 0 || (beat_len > 0 && beats * beat_len <= usize::MAX),
        r matches Ok(list) ==> list@.len() == beats && forall|i: int|
            0 <= i < beats ==> (#[trigger] list@[i])@ == beat_schedule(
                accent@,
                odd@,
                even@,
                beats as nat,
                beat_len as nat,
                i as nat,
            ),
        r matches Err(e) ==> (e == ScheduleError::ZeroPeriod <==> beat_len == 0),
{
    let mut list: Vec<Playback<S>> = Vec::new();
    if beats == 0 {
        return Ok(list);
    }
    if beat_len == 0 {
        return Err(ScheduleError::ZeroPeriod);
    }
    let period = match beats.checked_mul(beat_len) {
        Some(period) => period,
        None => {
            return Err(ScheduleError::OutOfRange);
        },
    };
    let mut beat: usize = 0;
    while beat < beats
        invariant
            0 < beat_len,
            beat <= beats,
            period == beats * beat_len,
            list@.len() == beat,
            forall|i: int|
                0 <= i < beat ==> (#[trigger] list@[i])@ == beat_schedule(
                    accent@,
                    odd@,
                    even@,
                    beats as nat,
                    beat_len as nat,
                    i as nat,
                ),
        decreases beats - beat,
    {
        let samples = if beat == 0 {
            share(accent)
        } else if beat % 2 == 1 {
            share(odd)
        } else {
            share(even)
        };
        assert(beat * beat_len < beats * beat_len) by (nonlinear_arith)
            requires
                beat < beats,
                0 < beat_len,
        ;
        let start = beat * beat_len;
        // An unbounded playback has no end to keep within the clock's range,
        // so the period is set before the start.
        let repeated = match Playback::new(samples).repeat(period, None) {
            Ok(repeated) => repeated,
            Err(e) => {
                assert(false);
                return Err(e);
            },
        };
        let placed = match repeated.offset(start) {
            Ok(placed) => placed,
            Err(e) => {
                assert(false);
                return Err(e);
            },
        };
        list.push(placed);
        beat += 1;
    }
    Ok(list)
}

} // verus!
