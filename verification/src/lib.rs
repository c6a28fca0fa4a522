//! Reading and writing values in the Minecraft protocol's binary format.
//!
//! The crate holds the wire format itself: variable-length integers,
//! fixed-width scalars, length-prefixed strings and sequences, and the
//! structural walk that turns a described value into bytes and back.
#![allow(unused_imports)]

pub mod protocol;
pub mod buffer;
pub mod bytes;
pub mod cursor;
pub mod de;
pub mod deserialize;
pub mod hint;
pub mod iter;
pub mod parse;
pub mod peek;
pub mod process;
pub mod readback;
pub mod report;
pub mod result;
pub mod roundtrip;
pub mod schema;
pub mod serialize;
pub mod shape;
pub mod sizing;
pub mod text;
pub mod value;
pub mod varint;
pub mod walkback;
pub mod writer;

pub use de::{DeserializeError, Deserializer, DeserializerExt, McDeserializer};
pub use deserialize::{deserialize, deserialize_iterative};
pub use serialize::{serialize, serialize_iterative, SerializationTask, SerializeError};
pub use writer::{McSerializer, Serializer, SerializerExt, WriteAdapter};
