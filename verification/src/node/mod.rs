//! The nodes of the audio graph whose behaviour is decided without sample
//! arithmetic.
pub mod pass;
pub mod effect;
pub mod signal;
pub mod delay;
pub mod sequencer;
pub mod synth;
pub mod envelope;
pub mod cache;
