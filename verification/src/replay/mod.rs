//! Replay: playback of briefings as a pure function of elapsed time.

pub mod run;
pub mod sampler;
