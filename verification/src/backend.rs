//! Backends: they turn note events and desired tunings into MIDI messages for a synthesizer that
//! only knows twelve-tone equal temperament and pitch bends.
pub mod midi;
pub mod pitchbend;
pub mod pitchbend12;
