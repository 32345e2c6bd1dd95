//! Audio playback engine core and waveform envelope extraction.
//!
//! Samples are signed 32-bit PCM values; gains, speeds and the playback
//! cursor's fraction are 16.16 fixed-point numbers.
pub mod waveform;
pub mod player;
pub mod catalog;
pub mod quick_scan;
