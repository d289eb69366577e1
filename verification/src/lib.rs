//! Threshold-gated synchronisation of an illuminance reading into a hub item.
//!
//! A cycle reads the sensor, reads the item's recorded state, and writes the
//! new reading only when it differs enough from the recorded one. The modules
//! here hold the parts of such a cycle that compute: the encoding of readings
//! ([`binary32`]) and its rounding ([`rounding`]), the truncated distance
//! between two readings ([`gap`]), the decision itself ([`decision`]) and the
//! address of the item's state ([`url`]).

pub mod binary32;
pub mod decision;
pub mod gap;
pub mod rounding;
pub mod url;
