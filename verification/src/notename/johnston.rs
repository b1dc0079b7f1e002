//! Ben Johnston's notation for just intonation.
pub mod fivelimit;
