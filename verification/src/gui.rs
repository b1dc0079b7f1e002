//! The parts of the graphical interface that do not draw: the state behind its windows.
pub mod connectionwindow;
pub mod latencywindow;
pub mod notewindow;
