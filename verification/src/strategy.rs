//! Strategies that decide on tunings.
pub mod chordlist;
pub mod static_tuning;
pub mod twostep;
