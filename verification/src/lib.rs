//! Recursive Length Prefix (RLP) serialization: a streaming encoder, a
//! zero-copy view decoder over byte slices, and codecs for the standard
//! primitive types, with machine-checked contracts for the byte grammar.

pub mod error;
pub mod grammar;
pub mod impls;
pub mod laws;
pub mod render;
pub mod rlpin;
pub mod stream;
pub mod traits;
pub mod uint;

pub use error::DecoderError;
pub use grammar::decode_usize;
pub use grammar::PayloadInfo;
pub use rlpin::BasicDecoder;
pub use rlpin::Prototype;
pub use rlpin::Rlp;
pub use rlpin::RlpIterator;
pub use stream::RlpStream;
pub use traits::decode;
pub use traits::encode;
pub use traits::Decodable;
pub use traits::Encodable;
pub use uint::FixedBytes;
pub use uint::H128;
pub use uint::H160;
pub use uint::H256;
pub use uint::H512;
pub use uint::H520;
pub use uint::U256;
