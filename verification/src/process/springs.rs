//! Tuning by systems of springs and rods between the notes.
pub mod candidates;
pub mod rods;
pub mod targets;
pub mod util;
