//! Core of a terminal arithmetic drill: a round-scoring engine that turns a
//! stream of timed answers into score deltas and combo tracking, a multiplier
//! model mapping answer time and problem complexity to a point value, session
//! statistics, and a bounded high-score table.
//!
//! All arithmetic is carried out on integers; scaled quantities (the time and
//! complexity multipliers) are held in thousandths ("milli" units).

pub mod generate;
pub mod multiplier;
pub mod records;
pub mod round;
pub mod session;
pub mod stats;
pub mod text;
