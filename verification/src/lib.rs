//! Adaptive tuning of MIDI keyboards: the exact arithmetic of stacks of intervals, note names,
//! neighbourhoods of tunings and the matching of chord patterns against the sounding keys.
pub mod rational;
pub mod interval;
pub mod keystate;
pub mod strategy;
pub mod notename;
pub mod neighbourhood;
pub mod connections;
pub mod gui;
pub mod msg;
pub mod backend;
pub mod process;
