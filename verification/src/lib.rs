//! Acoustic data link: physical and link layer pipeline.
//!
//! Bytes are modulated into audio samples, framed behind a chirp preamble,
//! detected by a matched filter, demodulated, reassembled and protected by a
//! CRC-based stop-and-wait MAC. All sample processing is expressed over a
//! fixed-point scalar so that the signal path is deterministic and verifiable.

pub mod number;
pub mod modem;
pub mod frame_manager;
pub mod corrupted;
pub mod detector;
pub mod terminal;
pub mod preamble;
pub mod frame;
pub mod corrector;
pub mod node;
