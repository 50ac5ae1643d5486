//! A verified codec for the CBOR wire format (RFC 8949): a bounded-depth
//! streaming decoder that turns a byte buffer into a sequence of typed
//! data-item events, and a canonical encoder that always emits the shortest
//! correct byte representation.

pub mod cbor;
pub mod decoder;
pub mod encoder;
pub mod float_bits;
pub mod laws;

pub use crate::cbor::CborError;
pub use crate::cbor::DataItem;
