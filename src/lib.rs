//! Data model and wire codec of aggregated Groth16 proofs, with the error
//! types of the optional hardware accelerator.
pub mod error;
pub mod aggregate;
pub mod codec;
