//! Verified core of a webcam-driven gesture synthesizer: motion tracking,
//! ASCII frame rendering, the looper state machine, the main loop's
//! decisions and the integer parts of the synth's sine-table oscillator.
pub mod dsp_api;
pub mod faust_gen;
pub mod components;
pub mod ascii;
pub mod tracker;
pub mod looper;
pub mod control;
pub mod frames;
