//! Adaptive typing-training engine.
//!
//! The crate tracks which keyboard characters a user has unlocked, measures
//! per-character speed and accuracy, generates practice text biased toward
//! weak characters, and widens the character set as the user improves.

mod clock;
mod rng;

pub mod charmap;
pub mod charset;
pub mod dictionary;
pub mod keyboard;
pub mod profile;
pub mod random;
pub mod session;
pub mod stats;
pub mod training;
pub mod words;
pub mod zipper_list;
