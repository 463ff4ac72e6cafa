//! The audio core of a metronome: scheduling of repeating click waveforms on a
//! sample clock, additive mixing into a mono buffer, expansion to an
//! interleaved channel layout, and the timing filter behind tap tempo.
//!
//! Everything here works on integers and on an abstract [`Sample`] type, so
//! that every function carries a machine-checked contract. What is computed
//! in floating point around it (the click waveform, the gain, the soft clip,
//! the tempo estimate) is handed in as values and functions.
//!
//! - [`schedule`] says what a playback is, mathematically, and [`playback`]
//!   holds the value that the engine reads.
//! - [`engine`] is the render context: commands, the render cycle, and the
//!   whole cycle for an output device.
//! - [`channels`], [`pattern`], [`tap_tempo`] and [`click`] hold the parts
//!   around it, and [`pcm`] a sample format of integers with the conditions
//!   under which mixing is exact.

pub mod sample;
pub mod pcm;
pub mod schedule;
pub mod playback;
pub mod engine;
pub mod pattern;
pub mod channels;
pub mod tap_tempo;
pub mod click;

pub use crate::channels::expand_channels;
pub use crate::click::click_len;
pub use crate::engine::{Command, EngineState, MixingEngine, PlayerCommand};
pub use crate::pattern::bar;
pub use crate::playback::{Playback, ReadResult, ScheduleError};
pub use crate::schedule::Schedule;
pub use crate::sample::Sample;
pub use crate::tap_tempo::{TapState, TapTempo};
