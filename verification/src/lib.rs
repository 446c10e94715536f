//! Readings of weather stations, taken out of archive snapshots, reconciled
//! across snapshots and reshaped into dense hourly matrices.
//!
//! Every instant is a count of seconds since 1970-01-01T00:00:00Z.

pub mod archive_name;
pub mod clock;
pub mod envelope;
pub mod matrix;
pub mod observation;
pub mod payload;
pub mod reconcile;
pub mod sequence;
pub mod text;
