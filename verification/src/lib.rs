//! A compact binary codec for statically-typed values.
//!
//! Values are encoded depth-first into a dense big-endian byte stream that
//! carries almost no type information of its own: decoding is driven by a
//! caller-supplied [`value::Shape`], which must replay exactly the sequence of
//! typed requests that produced the stream.

pub mod de;
pub mod error;
pub mod laws;
pub mod ser;
pub mod value;
pub mod wire;

pub use de::{from_bytes, Deserializer, Walk};
pub use error::Error;
pub use ser::{to_bytes, Serializer};
pub use value::{Shape, SpecValue, Value, VariantShape};

