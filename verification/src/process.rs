//! Processing of the incoming MIDI events before a tuning strategy sees them.
pub mod fromstrategy;
pub mod springs;
