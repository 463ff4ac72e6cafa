//! Signed 32-bit PCM as a sample format, and the conditions under which
//! mixing it is plain addition.

use vstd::prelude::*;
use crate::engine::{silence, EngineState};
use crate::playback::ReadResult;
use crate::schedule::{overlay, Schedule};
use crate::sample::Sample;

verus! {

/// The sum of two signed 32-bit amplitudes, held at the ends of the range.
pub open spec fn saturating_sum(a: i32, b: i32) -> i32 {
    if a + b > i32::MAX {
        i32::MAX
    } else if a + b < i32::MIN {
        i32::MIN
    } else {
        (a + b) as i32
    }
}

/// Signed 32-bit PCM: silence is zero, and mixing adds with saturation.
impl Sample for i32 {
    open spec fn silent() -> i32 {
        0i32
    }

    fn silence() -> (s: i32) {
        0
    }

    open spec fn mixed(self, other: i32) -> i32 {
        saturating_sum(self, other)
    }

    fn mix(self, other: i32) -> (r: i32) {
        let wide: i64 = self as i64 + other as i64;
        if wide > i32::MAX as i64 {
            i32::MAX
        } else if wide < i32::MIN as i64 {
            i32::MIN
        } else {
            wide as i32
        }
    }
}

/// The amplitude that a sounding whose first sample falls on index `offset`
/// adds at index `j` of a buffer.
pub open spec fn landing(samples: Seq<i32>, offset: int, j: int) -> int {
    if 0 <= j - offset < samples.len() {
        samples[j - offset] as int
    } else {
        0
    }
}

/// Whether mixing `samples` onto `buffer` at `offset` stays within the
/// sample range at every index, so that nothing is clipped.
pub open spec fn overlay_is_exact(buffer: Seq<i32>, samples: Seq<i32>, offset: int) -> bool {
    forall|j: int|
        0 <= j < buffer.len() ==> i32::MIN <= #[trigger] buffer[j] + landing(samples, offset, j)
            <= i32::MAX
}

/// Whether repetition `k` and every later one that sounds in the window are
/// mixed onto `buffer` without clipping.
pub open spec fn exact_from(
    schedule: Schedule<i32>,
    k: nat,
    at: nat,
    time: nat,
    buffer: Seq<i32>,
) -> bool
    decreases schedule.repetitions_left(k, at, time + buffer.len()),
{
    if schedule.valid() && schedule.sounds(k, at, time + buffer.len()) {
        &&& overlay_is_exact(buffer, schedule.samples, at - time)
        &&& exact_from(
            schedule,
            k + 1,
            at + schedule.period,
            time,
            overlay(buffer, schedule.samples, at - time),
        )
    } else {
        true
    }
}

/// The amplitude that repetition `k` and every later one that sounds in the
/// window of `len` samples at `time` add at index `j`, in exact arithmetic.
pub open spec fn gain_from(
    schedule: Schedule<i32>,
    k: nat,
    at: nat,
    time: nat,
    len: nat,
    j: int,
) -> int
    decreases schedule.repetitions_left(k, at, time + len),
{
    if schedule.valid() && schedule.sounds(k, at, time + len) {
        landing(schedule.samples, at - time, j) + gain_from(
            schedule,
            k + 1,
            at + schedule.period,
            time,
            len,
            j,
        )
    } else {
        0
    }
}

/// Whether a read of the window at `time` mixes onto `buffer` without
/// clipping.
pub open spec fn renders_exactly(schedule: Schedule<i32>, time: nat, buffer: Seq<i32>) -> bool {
    schedule.status(time, buffer.len()) == ReadResult::Rendered ==> exact_from(
        schedule,
        schedule.first_repetition(time),
        schedule.repetition_start(schedule.first_repetition(time)),
        time,
        buffer,
    )
}

/// The amplitude that a read of the window of `len` samples at `time` adds
/// at index `j`, in exact arithmetic.
pub open spec fn gain(schedule: Schedule<i32>, time: nat, len: nat, j: int) -> int {
    if schedule.status(time, len) == ReadResult::Rendered {
        gain_from(
            schedule,
            schedule.first_repetition(time),
            schedule.repetition_start(schedule.first_repetition(time)),
            time,
            len,
            j,
        )
    } else {
        0
    }
}

/// Where nothing is clipped, the repetitions add their amplitudes to the
/// buffer.
pub proof fn lemma_exact_from(schedule: Schedule<i32>, k: nat, at: nat, time: nat, buffer: Seq<i32>)
    requires
        exact_from(schedule, k, at, time, buffer),
    ensures
        schedule.mixed_from(k, at, time, buffer).len() == buffer.len(),
        forall|j: int|
            0 <= j < buffer.len() ==> (#[trigger] schedule.mixed_from(k, at, time, buffer)[j])
                == buffer[j] + gain_from(schedule, k, at, time, buffer.len(), j),
    decreases schedule.repetitions_left(k, at, time + buffer.len()),
{
    if schedule.valid() && schedule.sounds(k, at, time + buffer.len()) {
        let next = overlay(buffer, schedule.samples, at - time);
        lemma_exact_from(schedule, k + 1, (at + schedule.period) as nat, time, next);
        assert forall|j: int| 0 <= j < buffer.len() implies (#[trigger] schedule.mixed_from(
            k,
            at,
            time,
            buffer,
        )[j]) == buffer[j] + gain_from(schedule, k, at, time, buffer.len(), j) by {
            assert(i32::MIN <= buffer[j] + landing(schedule.samples, at - time, j) <= i32::MAX);
            assert(next[j] == buffer[j] + landing(schedule.samples, at - time, j));
        }
    }
}

/// Where nothing is clipped, a read adds the playback's amplitudes to the
/// buffer.
pub proof fn lemma_exact_read(schedule: Schedule<i32>, time: nat, buffer: Seq<i32>)
    requires
        renders_exactly(schedule, time, buffer),
    ensures
        schedule.rendered(time, buffer).len() == buffer.len(),
        forall|j: int|
            0 <= j < buffer.len() ==> (#[trigger] schedule.rendered(time, buffer)[j]) == buffer[j]
                + gain(schedule, time, buffer.len(), j),
{
    if schedule.status(time, buffer.len()) == ReadResult::Rendered {
        let k = schedule.first_repetition(time);
        lemma_exact_from(schedule, k, schedule.repetition_start(k), time, buffer);
    }
}

/// Whether every value of `values` has a magnitude of at most `peak`.
pub open spec fn within(values: Seq<i32>, peak: nat) -> bool {
    forall|i: int| 0 <= i < values.len() ==> -peak <= #[trigger] values[i] <= peak
}

/// Headroom: where the buffer's level and one waveform peak for each
/// repetition that sounds add up to no more than the largest sample, the
/// repetitions are mixed without clipping, and what they add at an index is
/// no more than one peak for each.
pub proof fn lemma_headroom_from(
    schedule: Schedule<i32>,
    k: nat,
    at: nat,
    time: nat,
    buffer: Seq<i32>,
    peak: nat,
    level: nat,
)
    requires
        within(schedule.samples, peak),
        within(buffer, level),
        level + schedule.soundings_from(k, at, time + buffer.len()) * peak <= i32::MAX,
    ensures
        exact_from(schedule, k, at, time, buffer),
        forall|j: int|
            0 <= j < buffer.len() ==> -(schedule.soundings_from(k, at, time + buffer.len()) * peak)
                <= #[trigger] gain_from(schedule, k, at, time, buffer.len(), j)
                <= schedule.soundings_from(k, at, time + buffer.len()) * peak,
    decreases schedule.repetitions_left(k, at, time + buffer.len()),
{
    let limit = time + buffer.len();
    if schedule.valid() && schedule.sounds(k, at, limit) {
        let next = overlay(buffer, schedule.samples, at - time);
        let rest = schedule.soundings_from(k + 1, at + schedule.period, limit);
        assert((1 + rest) * peak == peak + rest * peak) by (nonlinear_arith);
        assert(rest * peak >= 0) by (nonlinear_arith)
            requires
                rest >= 0,
                peak >= 0,
        ;
        assert forall|j: int| 0 <= j < buffer.len() implies -(level + peak) <= #[trigger] next[j]
            <= level + peak && i32::MIN <= buffer[j] + landing(schedule.samples, at - time, j)
            <= i32::MAX by {
            assert(-level <= buffer[j] <= level);
            if 0 <= j - (at - time) < schedule.samples.len() {
                assert(-peak <= schedule.samples[j - (at - time)] <= peak);
            }
        }
        assert(overlay_is_exact(buffer, schedule.samples, at - time)) by {
            assert forall|j: int| 0 <= j < buffer.len() implies i32::MIN <= #[trigger] buffer[j]
                + landing(schedule.samples, at - time, j) <= i32::MAX by {
                assert(-(level + peak) <= next[j] <= level + peak);
            }
        }
        lemma_headroom_from(schedule, k + 1, at + schedule.period, time, next, peak, level + peak);
        assert forall|j: int| 0 <= j < buffer.len() implies -((1 + rest) * peak)
            <= #[trigger] gain_from(schedule, k, at, time, buffer.len(), j) <= (1 + rest)
            * peak by {
            assert(-(rest * peak) <= gain_from(
                schedule,
                k + 1,
                at + schedule.period,
                time,
                buffer.len(),
                j,
            ) <= rest * peak);
            if 0 <= j - (at - time) < schedule.samples.len() {
                assert(-peak <= schedule.samples[j - (at - time)] <= peak);
            }
        }
    }
}

/// Headroom for two: where twice one waveform peak for each repetition that
/// sounds in the window is no more than the largest sample, two playbacks
/// with the same waveform and the same schedule give a mono signal that is
/// exactly twice the signal of one of them.
pub proof fn lemma_headroom_for_two<G>(
    playback: Schedule<i32>,
    time: nat,
    len: nat,
    volume: G,
    peak: nat,
)
    requires
        within(playback.samples, peak),
        2 * (playback.soundings(time, len) * peak) <= i32::MAX,
    ensures
        ({
            let once = EngineState { time, volume, playbacks: seq![playback] };
            let twice = EngineState { time, volume, playbacks: seq![playback, playback] };
            &&& once.mixed(len).len() == len
            &&& twice.mixed(len).len() == len
            &&& forall|j: int| 0 <= j < len ==> twice.mixed(len)[j] == 2 * once.mixed(len)[j]
        }),
{
    let quiet = silence::<i32>(len);
    let single = playback.rendered(time, quiet);
    let most = playback.soundings(time, len) * peak;
    assert(most >= 0) by (nonlinear_arith)
        requires
            most == playback.soundings(time, len) * peak,
    ;
    if playback.status(time, len) == ReadResult::Rendered {
        let k = playback.first_repetition(time);
        let at = playback.repetition_start(k);
        lemma_headroom_from(playback, k, at, time, quiet, peak, 0);
        lemma_exact_from(playback, k, at, time, quiet);
        assert(within(single, most as nat)) by {
            assert forall|j: int| 0 <= j < single.len() implies -most <= #[trigger] single[j]
                <= most by {
                assert(single[j] == quiet[j] + gain_from(playback, k, at, time, len, j));
            }
        }
        lemma_headroom_from(playback, k, at, time, single, peak, most as nat);
    }
    lemma_same_playback_twice_doubles(playback, time, len, volume);
}

/// Additive mixing: where nothing is clipped, two playbacks with the same
/// waveform and the same schedule give a mono signal that is exactly twice
/// the signal of one of them.
pub proof fn lemma_same_playback_twice_doubles<G>(
    playback: Schedule<i32>,
    time: nat,
    len: nat,
    volume: G,
)
    requires
        renders_exactly(playback, time, silence::<i32>(len)),
        renders_exactly(playback, time, playback.rendered(time, silence::<i32>(len))),
    ensures
        ({
            let once = EngineState { time, volume, playbacks: seq![playback] };
            let twice = EngineState { time, volume, playbacks: seq![playback, playback] };
            &&& once.mixed(len).len() == len
            &&& twice.mixed(len).len() == len
            &&& forall|j: int| 0 <= j < len ==> twice.mixed(len)[j] == 2 * once.mixed(len)[j]
        }),
{
    let quiet = silence::<i32>(len);
    let single = playback.rendered(time, quiet);
    let double = playback.rendered(time, single);
    let once = EngineState { time, volume, playbacks: seq![playback] };
    let twice = EngineState { time, volume, playbacks: seq![playback, playback] };
    assert(once.mixed(len) == single) by {
        reveal_with_fuel(Seq::fold_left, 2);
        assert(seq![playback].drop_last() =~= Seq::<Schedule<i32>>::empty());
    }
    assert(twice.mixed(len) == double) by {
        reveal_with_fuel(Seq::fold_left, 3);
        assert(seq![playback, playback].drop_last() =~= seq![playback]);
        assert(seq![playback].drop_last() =~= Seq::<Schedule<i32>>::empty());
    }
    lemma_exact_read(playback, time, quiet);
    lemma_exact_read(playback, time, single);
    assert forall|j: int| 0 <= j < len implies double[j] == 2 * single[j] by {
        assert(single[j] == quiet[j] + gain(playback, time, len, j));
        assert(double[j] == single[j] + gain(playback, time, len, j));
    }
}

} // verus!
