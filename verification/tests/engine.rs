use metronome::{
    bar, expand_channels, MixingEngine, Playback, PlayerCommand, Sample, ScheduleError,
};
use std::sync::Arc;

/// A floating-point amplitude, mixed by addition.
#[derive(Clone, Copy, Debug, PartialEq)]
struct Amp(f32);

impl Sample for Amp {
    fn silent() -> Amp {
        Amp(0.0)
    }

    fn silence() -> Amp {
        Amp(0.0)
    }

    fn mixed(self, other: Amp) -> Amp {
        Amp(self.0 + other.0)
    }

    fn mix(self, other: Amp) -> Amp {
        Amp(self.0 + other.0)
    }
}

fn wave(samples: &[i32]) -> Arc<Vec<i32>> {
    Arc::new(samples.to_vec())
}

fn scheduled(samples: &[i32], start: usize, period: usize, count: Option<usize>) -> Playback<i32> {
    Playback::new(wave(samples)).repeat(period, count).unwrap().offset(start).unwrap()
}

fn starts(engine: &MixingEngine<i32, u32>) -> Vec<usize> {
    engine.playbacks().iter().map(|p| p.start()).collect()
}

#[test]
fn new_engine_is_at_time_zero_and_silent() {
    let mut engine: MixingEngine<i32, u32> = MixingEngine::new(100);
    assert_eq!(engine.time(), 0);
    assert_eq!(*engine.volume(), 100);
    assert!(engine.playbacks().is_empty());
    let mut mono = vec![9; 4];
    engine.render(&mut mono);
    assert_eq!(mono, vec![0; 4]);
}

#[test]
fn render_advances_the_clock_by_the_buffer_length() {
    let mut engine: MixingEngine<i32, u32> = MixingEngine::new(100);
    let mut mono = vec![0; 5];
    engine.render(&mut mono);
    assert_eq!(engine.time(), 5);
    let mut mono = vec![0; 3];
    engine.render(&mut mono);
    assert_eq!(engine.time(), 8);
    let mut mono: Vec<i32> = Vec::new();
    engine.render(&mut mono);
    assert_eq!(engine.time(), 8);
}

#[test]
fn added_playbacks_start_relative_to_the_clock() {
    let mut engine: MixingEngine<i32, u32> = MixingEngine::new(100);
    let mut mono = vec![0; 5];
    engine.render(&mut mono);
    let list = vec![scheduled(&[1, 2], 0, 4, None), scheduled(&[3], 2, 4, None)];
    assert_eq!(engine.apply(PlayerCommand::AddPlaybacks(list)), Ok(()));
    assert_eq!(starts(&engine), vec![5, 7]);
    let mut mono = vec![9; 6];
    engine.render(&mut mono);
    assert_eq!(mono, vec![1, 2, 3, 0, 1, 2]);
}

#[test]
fn added_playbacks_are_appended_in_arrival_order() {
    let mut engine: MixingEngine<i32, u32> = MixingEngine::new(100);
    let first = vec![scheduled(&[1], 1, 4, None), scheduled(&[1], 2, 4, None)];
    let second = vec![scheduled(&[1], 3, 4, None)];
    assert_eq!(engine.apply(PlayerCommand::AddPlaybacks(first)), Ok(()));
    assert_eq!(engine.apply(PlayerCommand::AddPlaybacks(second)), Ok(()));
    assert_eq!(starts(&engine), vec![1, 2, 3]);
}

#[test]
fn clear_empties_the_active_set() {
    let mut engine: MixingEngine<i32, u32> = MixingEngine::new(100);
    let list = vec![scheduled(&[1, 2], 0, 4, None)];
    assert_eq!(engine.apply(PlayerCommand::AddPlaybacks(list)), Ok(()));
    assert_eq!(engine.apply(PlayerCommand::ClearPlaybacks), Ok(()));
    assert!(engine.playbacks().is_empty());
    let mut mono = vec![9; 4];
    engine.render(&mut mono);
    assert_eq!(mono, vec![0; 4]);
}

#[test]
fn clear_twice_is_clear_once() {
    let mut engine: MixingEngine<i32, u32> = MixingEngine::new(100);
    let mut mono = vec![0; 5];
    engine.render(&mut mono);
    let list = vec![scheduled(&[1, 2], 0, 4, None)];
    assert_eq!(engine.apply(PlayerCommand::AddPlaybacks(list)), Ok(()));
    assert_eq!(engine.apply(PlayerCommand::ClearPlaybacks), Ok(()));
    assert!(engine.playbacks().is_empty());
    assert_eq!(engine.apply(PlayerCommand::ClearPlaybacks), Ok(()));
    assert!(engine.playbacks().is_empty());
    assert_eq!(engine.time(), 5);
    assert_eq!(*engine.volume(), 100);
}

#[test]
fn set_volume_replaces_the_gain_only() {
    let mut engine: MixingEngine<i32, u32> = MixingEngine::new(100);
    let list = vec![scheduled(&[1, 2], 0, 4, None)];
    assert_eq!(engine.apply(PlayerCommand::AddPlaybacks(list)), Ok(()));
    assert_eq!(engine.apply(PlayerCommand::SetVolume(250)), Ok(()));
    assert_eq!(*engine.volume(), 250);
    assert_eq!(starts(&engine), vec![0]);
    assert_eq!(engine.time(), 0);
}

#[test]
fn apply_refuses_a_list_that_does_not_fit_the_clock() {
    let mut engine: MixingEngine<i32, u32> = MixingEngine::new(100);
    let mut mono = vec![0; 5];
    engine.render(&mut mono);
    let kept = vec![scheduled(&[1], 3, 4, None)];
    assert_eq!(engine.apply(PlayerCommand::AddPlaybacks(kept)), Ok(()));
    // The second playback would start beyond the last clock index.
    let list = vec![scheduled(&[1], 0, 4, None), scheduled(&[1], usize::MAX - 4, 4, None)];
    assert!(!engine.admits(&list));
    assert_eq!(
        engine.apply(PlayerCommand::AddPlaybacks(list)),
        Err(ScheduleError::OutOfRange)
    );
    // Nothing of the refused list was admitted.
    assert_eq!(starts(&engine), vec![8]);
    // A finite playback whose end would pass the last clock index is refused too.
    let list = vec![scheduled(&[1, 2], usize::MAX - 7, 0, Some(0))];
    assert!(engine.admits(&list));
    let list = vec![scheduled(&[1, 2], usize::MAX - 6, 0, Some(0))];
    assert!(!engine.admits(&list));
    assert_eq!(
        engine.apply(PlayerCommand::AddPlaybacks(list)),
        Err(ScheduleError::OutOfRange)
    );
    assert_eq!(starts(&engine), vec![8]);
}

#[test]
fn render_clears_the_buffer_before_mixing() {
    let mut engine: MixingEngine<i32, u32> = MixingEngine::new(100);
    let list = vec![scheduled(&[1, 2], 1, 0, Some(0))];
    assert_eq!(engine.apply(PlayerCommand::AddPlaybacks(list)), Ok(()));
    let mut mono = vec![50; 4];
    engine.render(&mut mono);
    assert_eq!(mono, vec![0, 1, 2, 0]);
}

#[test]
fn render_mixes_all_playbacks() {
    let mut engine: MixingEngine<i32, u32> = MixingEngine::new(100);
    let list = vec![
        scheduled(&[1, 1, 1], 0, 0, Some(0)),
        scheduled(&[10, 10], 1, 0, Some(0)),
        scheduled(&[100], 2, 2, None),
    ];
    assert_eq!(engine.apply(PlayerCommand::AddPlaybacks(list)), Ok(()));
    let mut mono = vec![0; 6];
    engine.render(&mut mono);
    assert_eq!(mono, vec![1, 11, 111, 0, 100, 0]);
}

#[test]
fn render_drops_ended_playbacks_and_keeps_the_others() {
    let mut engine: MixingEngine<i32, u32> = MixingEngine::new(100);
    let list = vec![
        scheduled(&[1, 1], 0, 0, Some(0)),
        scheduled(&[2], 0, 4, None),
        scheduled(&[3], 1, 0, Some(0)),
        scheduled(&[4], 100, 0, Some(0)),
    ];
    assert_eq!(engine.apply(PlayerCommand::AddPlaybacks(list)), Ok(()));
    let mut mono = vec![0; 4];
    engine.render(&mut mono);
    assert_eq!(mono, vec![3, 4, 0, 0]);
    // None has ended at time 0, so all are still there.
    assert_eq!(starts(&engine), vec![0, 0, 1, 100]);
    engine.render(&mut mono);
    assert_eq!(mono, vec![2, 0, 0, 0]);
    // At time 4 the two short ones lie behind: their ends are 2.
    assert_eq!(starts(&engine), vec![0, 100]);
    assert_eq!(engine.time(), 8);
}

#[test]
fn two_identical_playbacks_give_twice_the_signal() {
    let single = {
        let mut engine: MixingEngine<i32, u32> = MixingEngine::new(100);
        let list = vec![scheduled(&[1, -2, 3, 40], 0, 3, None)];
        assert_eq!(engine.apply(PlayerCommand::AddPlaybacks(list)), Ok(()));
        let mut mono = vec![0; 10];
        engine.render(&mut mono);
        mono
    };
    let double = {
        let mut engine: MixingEngine<i32, u32> = MixingEngine::new(100);
        let list = vec![
            scheduled(&[1, -2, 3, 40], 0, 3, None),
            scheduled(&[1, -2, 3, 40], 0, 3, None),
        ];
        assert_eq!(engine.apply(PlayerCommand::AddPlaybacks(list)), Ok(()));
        let mut mono = vec![0; 10];
        engine.render(&mut mono);
        mono
    };
    assert_eq!(single, vec![1, -2, 3, 41, -2, 3, 41, -2, 3, 41]);
    let twice: Vec<i32> = single.iter().map(|s| 2 * s).collect();
    assert_eq!(double, twice);
}

#[test]
fn two_loud_playbacks_are_clipped() {
    let mut engine: MixingEngine<i32, u32> = MixingEngine::new(100);
    let list = vec![
        scheduled(&[i32::MAX, i32::MIN, 5], 0, 0, Some(0)),
        scheduled(&[i32::MAX, i32::MIN, 5], 0, 0, Some(0)),
    ];
    assert_eq!(engine.apply(PlayerCommand::AddPlaybacks(list)), Ok(()));
    let mut mono = vec![0; 3];
    engine.render(&mut mono);
    assert_eq!(mono, vec![i32::MAX, i32::MIN, 10]);
}

#[test]
fn two_identical_float_playbacks_give_twice_the_signal() {
    let samples = Arc::new(vec![Amp(0.5), Amp(-0.25), Amp(0.125)]);
    let single = {
        let mut engine: MixingEngine<Amp, f32> = MixingEngine::new(1.0);
        let list = vec![Playback::new(samples.clone())];
        assert!(engine.apply(PlayerCommand::AddPlaybacks(list)).is_ok());
        let mut mono = vec![Amp(7.0); 4];
        engine.render(&mut mono);
        mono
    };
    let double = {
        let mut engine: MixingEngine<Amp, f32> = MixingEngine::new(1.0);
        let list = vec![Playback::new(samples.clone()), Playback::new(samples.clone())];
        assert!(engine.apply(PlayerCommand::AddPlaybacks(list)).is_ok());
        let mut mono = vec![Amp(7.0); 4];
        engine.render(&mut mono);
        mono
    };
    assert_eq!(single, vec![Amp(0.5), Amp(-0.25), Amp(0.125), Amp(0.0)]);
    assert_eq!(double, vec![Amp(1.0), Amp(-0.5), Amp(0.25), Amp(0.0)]);
}

#[test]
fn process_renders_shapes_and_expands() {
    let mut engine: MixingEngine<i32, u32> = MixingEngine::new(3);
    let list = vec![scheduled(&[1, 2], 1, 4, None)];
    assert_eq!(engine.apply(PlayerCommand::AddPlaybacks(list)), Ok(()));
    let mut mono = vec![9; 4];
    let mut shaped = vec![0i64; 4];
    let mut data = vec![7i64; 9];
    let master = |gain: &u32, sample: i32| i64::from(*gain) * i64::from(sample) + 100;
    engine.process(&master, &mut mono, &mut shaped, 2, &mut data);
    assert_eq!(mono, vec![0, 1, 2, 0]);
    assert_eq!(shaped, vec![100, 103, 106, 100]);
    assert_eq!(data, vec![100, 100, 103, 103, 106, 106, 100, 100, 7]);
    assert_eq!(engine.time(), 4);
    engine.process(&master, &mut mono, &mut shaped, 2, &mut data);
    assert_eq!(mono, vec![0, 1, 2, 0]);
    assert_eq!(engine.time(), 8);
}

#[test]
fn process_uses_the_gain_of_the_last_volume_command() {
    let mut engine: MixingEngine<i32, u32> = MixingEngine::new(1);
    let list = vec![scheduled(&[5], 0, 1, None)];
    assert_eq!(engine.apply(PlayerCommand::AddPlaybacks(list)), Ok(()));
    assert_eq!(engine.apply(PlayerCommand::SetVolume(2)), Ok(()));
    assert_eq!(engine.apply(PlayerCommand::SetVolume(4)), Ok(()));
    let mut mono = vec![0; 2];
    let mut shaped = vec![0u32; 2];
    let mut data = vec![0u32; 2];
    let master = |gain: &u32, sample: i32| *gain * sample as u32;
    engine.process(&master, &mut mono, &mut shaped, 1, &mut data);
    assert_eq!(data, vec![20, 20]);
}

#[test]
fn process_with_a_soft_clip_stays_within_one() {
    let samples = Arc::new(vec![Amp(0.5), Amp(-0.25), Amp(30.0), Amp(-30.0)]);
    let mut engine: MixingEngine<Amp, f32> = MixingEngine::new(2.0);
    let list = vec![Playback::new(samples.clone()), Playback::new(samples)];
    assert!(engine.apply(PlayerCommand::AddPlaybacks(list)).is_ok());
    let mut mono = vec![Amp(0.0); 4];
    let mut shaped = vec![0.0f32; 4];
    let mut data = vec![0.0f32; 8];
    let soft_clip = |gain: &f32, sample: Amp| (gain * sample.0).tanh();
    engine.process(&soft_clip, &mut mono, &mut shaped, 2, &mut data);
    assert_eq!(mono, vec![Amp(1.0), Amp(-0.5), Amp(60.0), Amp(-60.0)]);
    for frame in 0..4 {
        assert_eq!(data[2 * frame], (2.0 * mono[frame].0).tanh());
        assert_eq!(data[2 * frame], data[2 * frame + 1]);
        assert!(-1.0 <= data[2 * frame] && data[2 * frame] <= 1.0);
    }
    assert!((data[0] - 0.9640276).abs() < 1e-6);
}

#[test]
fn expand_writes_each_sample_to_every_channel_of_its_frame() {
    let mono = vec![1, 2, 3];
    for channels in 1..=4 {
        let mut data = vec![0; mono.len() * channels];
        expand_channels(&mono, channels, &mut data);
        assert_eq!(data.len(), mono.len() * channels);
        for frame in 0..mono.len() {
            for channel in 0..channels {
                assert_eq!(data[frame * channels + channel], mono[frame]);
            }
        }
    }
    let mut data = vec![0; 6];
    expand_channels(&mono, 2, &mut data);
    assert_eq!(data, vec![1, 1, 2, 2, 3, 3]);
}

#[test]
fn expand_leaves_slots_behind_the_last_frame() {
    let mono = vec![1, 2];
    let mut data = vec![9; 7];
    expand_channels(&mono, 3, &mut data);
    assert_eq!(data, vec![1, 1, 1, 2, 2, 2, 9]);
}

#[test]
fn expand_stops_where_the_output_ends() {
    let mono = vec![1, 2, 3];
    let mut data = vec![9; 5];
    expand_channels(&mono, 2, &mut data);
    assert_eq!(data, vec![1, 1, 2, 2, 3]);
    let mut data = vec![9; 3];
    expand_channels(&mono, 2, &mut data);
    assert_eq!(data, vec![1, 1, 2]);
    let mut data: Vec<i32> = Vec::new();
    expand_channels(&mono, 2, &mut data);
    assert!(data.is_empty());
}

#[test]
fn expand_of_floats_copies_the_values() {
    let mono = vec![0.5f32, -0.25];
    let mut data = vec![0.0f32; 4];
    expand_channels(&mono, 2, &mut data);
    assert_eq!(data, vec![0.5, 0.5, -0.25, -0.25]);
}

#[test]
fn bar_places_one_playback_on_each_beat() {
    let accent = wave(&[3]);
    let odd = wave(&[1]);
    let even = wave(&[2]);
    let list = bar(&accent, &odd, &even, 4, 10).unwrap();
    assert_eq!(list.len(), 4);
    for (beat, playback) in list.iter().enumerate() {
        assert_eq!(playback.start(), beat * 10);
        assert_eq!(playback.repetition_period(), 40);
        assert_eq!(playback.repetition_count(), None);
    }
    assert!(Arc::ptr_eq(list[0].samples(), &accent));
    assert!(Arc::ptr_eq(list[1].samples(), &odd));
    assert!(Arc::ptr_eq(list[2].samples(), &even));
    assert!(Arc::ptr_eq(list[3].samples(), &odd));
}

#[test]
fn bar_sounds_as_a_repeating_pattern() {
    let list = bar(&wave(&[3]), &wave(&[1]), &wave(&[2]), 3, 2).unwrap();
    let mut engine: MixingEngine<i32, u32> = MixingEngine::new(100);
    assert_eq!(engine.apply(PlayerCommand::AddPlaybacks(list)), Ok(()));
    let mut mono = vec![0; 12];
    engine.render(&mut mono);
    assert_eq!(mono, vec![3, 0, 1, 0, 2, 0, 3, 0, 1, 0, 2, 0]);
}

#[test]
fn bar_of_no_beats_is_empty() {
    let list = bar(&wave(&[3]), &wave(&[1]), &wave(&[2]), 0, 10).unwrap();
    assert!(list.is_empty());
    let list = bar(&wave(&[3]), &wave(&[1]), &wave(&[2]), 0, 0).unwrap();
    assert!(list.is_empty());
}

#[test]
fn bar_refuses_beats_of_length_zero() {
    let refused = bar(&wave(&[3]), &wave(&[1]), &wave(&[2]), 4, 0);
    assert_eq!(refused.err(), Some(ScheduleError::ZeroPeriod));
}

#[test]
fn bar_refuses_a_bar_longer_than_the_clock() {
    let refused = bar(&wave(&[3]), &wave(&[1]), &wave(&[2]), 4, usize::MAX / 2);
    assert_eq!(refused.err(), Some(ScheduleError::OutOfRange));
}
