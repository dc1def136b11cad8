//! What holds of the format.
//!
//! - [`round_trip`]: what was written is read back as it was.
//! - [`decoded`]: what was read is well formed.
//! - [`truncated`]: what was cut short is not read at all.
//! - [`local`]: what is read depends on no byte behind it.
//! - [`joined`]: the facts on sequences that the other proofs rest on.

pub mod decoded;
pub mod joined;
pub mod local;
pub mod round_trip;
pub mod truncated;
