//! Names of notes.
pub mod johnston;
