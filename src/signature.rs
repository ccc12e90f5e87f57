//! Ring signatures.
pub mod triptych;
