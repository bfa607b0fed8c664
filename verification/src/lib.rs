//! Verified building blocks of the glicol audio graph: routing of input
//! buffers between nodes, fixed-length delay lines, event scheduling, voice
//! bookkeeping and the integer state machines of envelopes and clocks.
//!
//! A sample is carried through the library by its IEEE-754 bit pattern
//! (`u32`); the library moves samples but never does arithmetic on them.
#![allow(unused_imports)]

pub mod ring;
pub mod inputs;
pub mod message;
pub mod node;
pub mod pass;
pub mod signal;
pub mod text;
