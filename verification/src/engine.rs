//! The state that the render context owns: the sample clock, the active
//! playbacks and the output gain, with the commands that change them and the
//! render cycle that mixes the playbacks into a mono buffer.

use vstd::prelude::*;
use crate::channels::{expand_channels, expanded};
use crate::playback::{Playback, ReadResult, ScheduleError};
use crate::schedule::{overlay, Schedule};
use crate::sample::Sample;

verus! {

/// A request from the control context, applied at the start of a render cycle.
pub enum PlayerCommand<S, G> {
    /// Adds playbacks whose start times count from the moment of admission.
    AddPlaybacks(Vec<Playback<S>>),
    /// Removes every active playback.
    ClearPlaybacks,
    /// Replaces the output gain.
    SetVolume(G),
}

/// The mathematical content of a [`PlayerCommand`].
pub enum Command<S, G> {
    AddPlaybacks(Seq<Schedule<S>>),
    ClearPlaybacks,
    SetVolume(G),
}

/// The schedules of a list of playbacks.
pub open spec fn schedules<S>(playbacks: Seq<Playback<S>>) -> Seq<Schedule<S>> {
    playbacks.map_values(|p: Playback<S>| p@)
}

impl<S, G> View for PlayerCommand<S, G> {
    type V = Command<S, G>;

    open spec fn view(&self) -> Command<S, G> {
        match self {
            PlayerCommand::AddPlaybacks(list) => Command::AddPlaybacks(schedules(list@)),
            PlayerCommand::ClearPlaybacks => Command::ClearPlaybacks,
            PlayerCommand::SetVolume(gain) => Command::SetVolume(*gain),
        }
    }
}

/// The mathematical content of a [`MixingEngine`].
pub struct EngineState<S, G> {
    /// Samples rendered since the engine was made.
    pub time: nat,
    /// The output gain.
    pub volume: G,
    /// The active playbacks, in the order of their admission.
    pub playbacks: Seq<Schedule<S>>,
}

/// `schedule` as it is admitted at clock value `time`: its start counts from
/// there.
pub open spec fn admitted<S>(schedule: Schedule<S>, time: nat) -> Schedule<S> {
    schedule.with_start(schedule.start + time)
}

/// Every schedule of `incoming` as it is admitted at clock value `time`.
pub open spec fn admitted_all<S>(incoming: Seq<Schedule<S>>, time: nat) -> Seq<Schedule<S>> {
    Seq::new(incoming.len(), |i: int| admitted(incoming[i], time))
}

/// The test that a render cycle at `time` over `len` samples keeps a
/// playback by: it has not ended.
pub open spec fn still_active<S>(time: nat, len: nat) -> spec_fn(Schedule<S>) -> bool {
    |s: Schedule<S>| s.status(time, len) != ReadResult::Ended
}

/// The step that mixes one playback's part of the window at `time` onto a
/// buffer.
pub open spec fn render_step<S: Sample>(time: nat) -> spec_fn(Seq<S>, Schedule<S>) -> Seq<S> {
    |buffer: Seq<S>, s: Schedule<S>| s.rendered(time, buffer)
}

/// A buffer of `len` silent samples.
pub open spec fn silence<S: Sample>(len: nat) -> Seq<S> {
    Seq::new(len, |i: int| S::silent())
}

impl<S: Sample, G> EngineState<S, G> {
    /// Whether every schedule of `incoming` can be admitted now: shifted by
    /// the clock value it still lies within the clock's range.
    pub open spec fn admits(self, incoming: Seq<Schedule<S>>) -> bool {
        forall|i: int| 0 <= i < incoming.len() ==> (#[trigger] admitted(incoming[i], self.time)).in_range()
    }

    /// The state after `command`. A list of playbacks is admitted whole or
    /// not at all.
    pub open spec fn after(self, command: Command<S, G>) -> Self {
        match command {
            Command::AddPlaybacks(incoming) => if self.admits(incoming) {
                EngineState {
                    playbacks: self.playbacks + admitted_all(incoming, self.time),
                    ..self
                }
            } else {
                self
            },
            Command::ClearPlaybacks => EngineState { playbacks: Seq::empty(), ..self },
            Command::SetVolume(gain) => EngineState { volume: gain, ..self },
        }
    }

    /// The mono signal of a render cycle over `len` samples: silence with
    /// every active playback mixed onto it, in the order of admission.
    pub open spec fn mixed(self, len: nat) -> Seq<S> {
        self.playbacks.fold_left(silence::<S>(len), render_step::<S>(self.time))
    }

    /// The state after a render cycle over `len` samples: the clock has
    /// advanced, and the playbacks that had ended are gone.
    pub open spec fn after_render(self, len: nat) -> Self {
        EngineState {
            time: self.time + len,
            playbacks: self.playbacks.filter(still_active::<S>(self.time, len)),
            ..self
        }
    }
}

/// Clearing the playbacks twice in a row leaves what clearing them once
/// leaves: no active playback, and the clock and the gain as they were.
pub proof fn lemma_clear_is_idempotent<S: Sample, G>(state: EngineState<S, G>)
    ensures
        state.after(Command::ClearPlaybacks).after(Command::ClearPlaybacks) == state.after(
            Command::ClearPlaybacks,
        ),
        state.after(Command::ClearPlaybacks).playbacks.len() == 0,
        state.after(Command::ClearPlaybacks).time == state.time,
        state.after(Command::ClearPlaybacks).volume == state.volume,
{
}

/// A playback that is moved along the clock mixes the same onto a window
/// that is moved as far.
proof fn lemma_moved_mixes_the_same<S: Sample>(
    schedule: Schedule<S>,
    by: nat,
    k: nat,
    at: nat,
    time: nat,
    buffer: Seq<S>,
)
    ensures
        admitted(schedule, by).mixed_from(k, at + by, time + by, buffer) == schedule.mixed_from(
            k,
            at,
            time,
            buffer,
        ),
    decreases schedule.repetitions_left(k, at, time + buffer.len()),
{
    if schedule.valid() && schedule.sounds(k, at, time + buffer.len()) {
        let next = overlay(buffer, schedule.samples, at - time);
        assert(next == overlay(buffer, schedule.samples, (at + by) - (time + by)));
        lemma_moved_mixes_the_same(schedule, by, k + 1, at + schedule.period, time, next);
    }
}

/// A playback sounds relative to the moment of its admission: admitted at
/// clock value `at`, it reports for the window at `at + time`, and leaves in
/// its buffer, what the playback as the caller made it does for the window
/// at `time`.
pub proof fn lemma_admitted_sounds_relative<S: Sample>(
    schedule: Schedule<S>,
    at: nat,
    time: nat,
    buffer: Seq<S>,
)
    ensures
        admitted(schedule, at).status(at + time, buffer.len()) == schedule.status(time, buffer.len()),
        admitted(schedule, at).rendered(at + time, buffer) == schedule.rendered(time, buffer),
{
    let first = schedule.first_repetition(time);
    assert(admitted(schedule, at).first_repetition(at + time) == first);
    lemma_moved_mixes_the_same(schedule, at, first, schedule.repetition_start(first), time, buffer);
}

/// A render cycle keeps every playback that repeats forever.
pub proof fn lemma_unbounded_stays_active<S: Sample>(schedule: Schedule<S>, time: nat, len: nat)
    requires
        schedule.count is None,
    ensures
        still_active::<S>(time, len)(schedule),
{
}

/// The render context's state.
pub struct MixingEngine<S, G> {
    time: usize,
    volume: G,
    playbacks: Vec<Playback<S>>,
}

impl<S, G> View for MixingEngine<S, G> {
    type V = EngineState<S, G>;

    closed spec fn view(&self) -> EngineState<S, G> {
        EngineState {
            time: self.time as nat,
            volume: self.volume,
            playbacks: schedules(self.playbacks@),
        }
    }
}

impl<S: Sample, G> MixingEngine<S, G> {
    /// An engine at clock value zero with no playbacks.
    pub fn new(volume: G) -> (engine: Self)
        ensures
            engine@ == (EngineState::<S, G> { time: 0, volume, playbacks: Seq::empty() }),
    {
        let engine = MixingEngine { time: 0, volume, playbacks: Vec::new() };
        assert(schedules(engine.playbacks@) =~= Seq::empty());
        engine
    }

    /// The number of samples rendered so far.
    pub fn time(&self) -> (time: usize)
        ensures
            time == self@.time,
    {
        self.time
    }

    /// The output gain.
    pub fn volume(&self) -> (volume: &G)
        ensures
            *volume == self@.volume,
    {
        &self.volume
    }

    /// The active playbacks, in the order of their admission.
    pub fn playbacks(&self) -> (playbacks: &Vec<Playback<S>>)
        ensures
            schedules(playbacks@) == self@.playbacks,
    {
        &self.playbacks
    }

    /// Whether every playback of `incoming` can be admitted now.
    pub fn admits(&self, incoming: &Vec<Playback<S>>) -> (b: bool)
        ensures
            b == self@.admits(schedules(incoming@)),
    {
        let mut i: usize = 0;
        while i < incoming.len()
            invariant
                i <= incoming.len(),
                forall|j: int|
                    0 <= j < i ==> (#[trigger] admitted(schedules(incoming@)[j], self@.time)).in_range(),
            decreases incoming.len() - i,
        {
            let p = &incoming[i];
            let fits = match p.start().checked_add(self.time) {
                Some(start) => p.fits_at(start),
                None => false,
            };
            if !fits {
                assert(!admitted(schedules(incoming@)[i as int], self@.time).in_range());
                return false;
            }
            i += 1;
        }
        true
    }

    /// Applies one command.
    ///
    /// A list of playbacks is admitted whole, each start shifted by the
    /// current clock value, or refused whole, where one of them would then
    /// lie beyond the clock's range. The other commands always succeed.
    pub fn apply(&mut self, command: PlayerCommand<S, G>) -> (r: Result<(), ScheduleError>)
        ensures
            final(self)@ == old(self)@.after(command@),
            r is Err <==> (command@ matches Command::AddPlaybacks(incoming) && !old(self)@.admits(
                incoming,
            )),
            r matches Err(e) ==> e == ScheduleError::OutOfRange,
    {
        match command {
            PlayerCommand::AddPlaybacks(incoming) => {
                if !self.admits(&incoming) {
                    return Err(ScheduleError::OutOfRange);
                }
                let ghost before = self.playbacks@;
                let ghost list = incoming@;
                let time = self.time;
                for p in it: incoming
                    invariant
                        it.seq() == list,
                        self.time == time,
                        self.volume == old(self).volume,
                        old(self)@.admits(schedules(list)),
                        old(self)@.time == time,
                        schedules(self.playbacks@) == schedules(before) + admitted_all(
                            schedules(list.take(it.index() as int)),
                            time as nat,
                        ),
                {
                    let ghost i = it.index() as int;
                    let ghost prev = self.playbacks@;
                    assert(p == list[i]);
                    assert(admitted(schedules(list)[i], time as nat).in_range());
                    let start = p.start() + time;
                    match p.offset(start) {
                        Ok(shifted) => {
                            self.playbacks.push(shifted);
                            assert(shifted@ == admitted(list[i]@, time as nat));
                            assert(self.playbacks@ == prev.push(shifted));
                        },
                        Err(_) => {
                            assert(false);
                        },
                    }
                    assert(list.take(i + 1) =~= list.take(i).push(list[i]));
                    assert(schedules(self.playbacks@) =~= schedules(before) + admitted_all(
                        schedules(list.take(i + 1)),
                        time as nat,
                    )) by {
                        let earlier = schedules(before) + admitted_all(
                            schedules(list.take(i)),
                            time as nat,
                        );
                        let now = schedules(before) + admitted_all(
                            schedules(list.take(i + 1)),
                            time as nat,
                        );
                        assert(schedules(prev).len() == earlier.len());
                        assert forall|j: int| 0 <= j < now.len() implies schedules(
                            self.playbacks@,
                        )[j] == now[j] by {
                            if j < prev.len() {
                                assert(schedules(prev)[j] == earlier[j]);
                            }
                        }
                    }
                }
                assert(list.take(list.len() as int) =~= list);
                Ok(())
            },
            PlayerCommand::ClearPlaybacks => {
                self.playbacks.clear();
                assert(schedules(self.playbacks@) =~= Seq::empty());
                Ok(())
            },
            PlayerCommand::SetVolume(gain) => {
                self.volume = gain;
                Ok(())
            },
        }
    }

    /// Runs one render cycle over the window that begins at the current
    /// clock value and is as long as `mono`.
    ///
    /// `mono` is cleared to silence, every active playback is mixed onto it
    /// in the order of admission, the playbacks that reported
    /// [`ReadResult::Ended`] are dropped, and the clock advances by the length
    /// of `mono`. The window must lie within the clock's range.
    pub fn render(&mut self, mono: &mut [S])
        requires
            old(self)@.time + old(mono)@.len() <= usize::MAX,
        ensures
            final(mono)@ == old(self)@.mixed(old(mono)@.len()),
            final(mono)@.len() == old(mono)@.len(),
            final(self)@ == old(self)@.after_render(old(mono)@.len()),
    {
        let len = mono.len();
        let time = self.time;
        let mut n: usize = 0;
        while n < len
            invariant
                n <= len,
                mono@.len() == len,
                forall|j: int| 0 <= j < n ==> mono@[j] == S::silent(),
            decreases len - n,
        {
            mono[n] = S::silence();
            n += 1;
        }
        assert(mono@ =~= silence::<S>(len as nat));
        let ghost all = schedules(self.playbacks@);
        let ghost seen: int = 0;
        let ghost keep = still_active::<S>(time as nat, len as nat);
        let ghost step = render_step::<S>(time as nat);
        let mut i: usize = 0;
        assert(all.take(0) =~= Seq::empty());
        assert(all.skip(0) =~= all);
        while i < self.playbacks.len()
            invariant
                self.time == time,
                self.volume == old(self).volume,
                mono@.len() == len,
                0 <= seen <= all.len(),
                keep == still_active::<S>(time as nat, len as nat),
                step == render_step::<S>(time as nat),
                i == all.take(seen).filter(keep).len(),
                schedules(self.playbacks@) == all.take(seen).filter(keep) + all.skip(seen),
                mono@ == all.take(seen).fold_left(silence::<S>(len as nat), step),
            decreases all.len() - seen,
        {
            let ghost held = self.playbacks@;
            let ghost sound = mono@;
            assert(schedules(held)[i as int] == all.skip(seen)[0]);
            assert(all.take(seen + 1).drop_last() =~= all.take(seen));
            assert(all.take(seen + 1).last() == all[seen]);
            let r = self.playbacks[i].read(time, mono);
            assert(mono@ == step(sound, all[seen]));
            assert(keep(all[seen]) == (r != ReadResult::Ended));
            let ghost kept = all.take(seen).filter(keep);
            proof {
                assert(all.take(seen + 1) =~= all.take(seen).push(all[seen]));
                all.take(seen).lemma_filter_push(all[seen], keep);
            }
            match r {
                ReadResult::Ended => {
                    self.playbacks.remove(i);
                    assert(all.take(seen + 1).filter(keep) == kept);
                    assert(schedules(self.playbacks@) =~= schedules(held).remove(i as int));
                    assert(schedules(held).remove(i as int) =~= kept + all.skip(seen + 1));
                },
                _ => {
                    i += 1;
                    assert(all.take(seen + 1).filter(keep) == kept.push(all[seen]));
                    assert(schedules(held) =~= kept.push(all[seen]) + all.skip(seen + 1));
                },
            }
            proof {
                seen = seen + 1;
            }
        }
        assert(all.take(seen) =~= all);
        self.time = time + len;
    }

    /// Runs one whole cycle for an output device: a render cycle into `mono`,
    /// the master stage, and the expansion to the interleaved buffer `data`.
    ///
    /// The master stage is the function `master`: it gives the output sample
    /// for the gain and a mixed sample, and its results are left in `shaped`.
    pub fn process<T: Copy, F: Fn(&G, S) -> T>(
        &mut self,
        master: &F,
        mono: &mut [S],
        shaped: &mut [T],
        channels: usize,
        data: &mut [T],
    )
        requires
            channels > 0,
            old(self)@.time + old(mono)@.len() <= usize::MAX,
            old(shaped)@.len() == old(mono)@.len(),
            forall|gain: &G, sample: S| call_requires(master, (gain, sample)),
        ensures
            final(self)@ == old(self)@.after_render(old(mono)@.len()),
            final(mono)@ == old(self)@.mixed(old(mono)@.len()),
            final(shaped)@.len() == old(mono)@.len(),
            forall|j: int|
                0 <= j < old(mono)@.len() ==> call_ensures(
                    master,
                    (&old(self)@.volume, #[trigger] final(mono)@[j]),
                    final(shaped)@[j],
                ),
            final(data)@ == expanded(final(shaped)@, channels as nat, old(data)@),
    {
        self.render(mono);
        let len = mono.len();
        let mut j: usize = 0;
        while j < len
            invariant
                j <= len,
                len == mono@.len(),
                shaped@.len() == len,
                self.volume == old(self)@.volume,
                forall|gain: &G, sample: S| call_requires(master, (gain, sample)),
                forall|i: int|
                    0 <= i < j ==> call_ensures(
                        master,
                        (&self.volume, #[trigger] mono@[i]),
                        shaped@[i],
                    ),
            decreases len - j,
        {
            shaped[j] = master(&self.volume, mono[j]);
            j += 1;
        }
        expand_channels(shaped, channels, data);
    }
}

} // verus!
