//! A verified codec for the Bencode serialization format: byte strings,
//! signed 64-bit integers, ordered lists, and dictionaries with
//! lexicographically sorted byte-string keys.

pub mod decode;
pub mod digits;
pub mod encode;
pub mod laws;
pub mod render;
pub mod value;

pub use decode::decode_all;
pub use decode::decode_bencoded_value;
pub use decode::DecodeError;
pub use decode::ErrorKind;
pub use encode::encode;
pub use render::render;
pub use value::Bencode;
pub use value::ValueModel;
