//! Intervals: stacks of base intervals, the types of stacks, and temperaments.
pub mod fundamental;
pub mod stack;
pub mod stacktype;
pub mod temperament;
