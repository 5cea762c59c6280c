//! The canonical binary encoding of consensus values, and their digest.

pub mod codec;
pub mod decode;
pub mod encode;
pub mod little_endian;
pub mod tree_hash;

pub use codec::Codec;
pub use decode::{decode_ssz, decode_ssz_list, Decodable, DecodeError};
pub use encode::{ssz_encode, Encodable, SszStream, LENGTH_BYTES};
pub use tree_hash::{join_roots, TreeHash, HASH_BYTES};
