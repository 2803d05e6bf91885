//! Keyboard-driven window picker core: hint generation, key-sequence
//! tracking, overlap-aware hint placement, and the selection state machine.
//!
//! Everything here is pure computation over plain values.  Talking to a
//! window manager, drawing hints on screen and grabbing input devices is
//! left to a thin unverified shell around this crate.

pub mod config;
pub mod engine;
pub mod geometry;
pub mod hints;
pub mod sequence;
pub mod text;
pub mod windows;
pub mod wm;
