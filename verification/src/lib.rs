//! Consensus data types of a proof-of-stake beacon chain, with their canonical byte encoding
//! and their digest.
//!
//! - [`ssz`] is the codec and the digest: integers, length-prefixed bytes and lists, and the
//!   traits that records implement.
//! - [`signature`] and [`aggregate_signature`] hold signatures as the opaque bytes that the
//!   codec and the digest take them for.
//! - [`fork`] and [`exit`] are records.
//! - [`validator`] and [`validator_registry`] answer which validators are active at an epoch.
//! - [`num`] holds two numeric helpers, and [`test_utils`] draws random values for tests.

pub mod aggregate_signature;
pub mod exit;
pub mod fork;
pub mod num;
pub mod signature;
pub mod ssz;
pub mod test_utils;
pub mod validator;
pub mod validator_registry;

pub use aggregate_signature::AggregateSignature;
pub use exit::Exit;
pub use fork::Fork;
pub use signature::Signature;
pub use validator::Validator;
