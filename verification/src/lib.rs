//! Decoder for the bencode serialization format and extraction of the
//! metainfo record (the contents of a torrent description) from a decoded
//! value tree.
pub mod decode;
pub mod extract;
pub mod value;

pub use decode::decode;
pub use decode::DecodeError;
pub use decode::MAX_DEPTH;
pub use extract::extract;
pub use extract::metainfo;
pub use extract::split_digests;
pub use extract::Digest;
pub use extract::ExtractError;
pub use extract::Field;
pub use extract::FileEntry;
pub use extract::Kind;
pub use extract::Layout;
pub use extract::Metainfo;
pub use extract::MetainfoError;
pub use extract::ValueFault;
pub use extract::DIGEST_LEN;
pub use value::BValue;
pub use value::Value;
