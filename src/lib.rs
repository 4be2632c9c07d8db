//! Verification and replay protection for hardware attestation receipts.
//!
//! A receipt binds an authorized device, an approved firmware build and an
//! execution result to a strictly increasing per-device counter through a
//! Keccak-256 digest.
use vstd::prelude::*;

pub mod bytes;
pub mod digest;
pub mod store;
pub mod anchor;
pub mod laws;

verus! {

} // verus!
