pub mod bpm;
pub mod octave;
pub mod accumulator;
pub mod pipeline;
