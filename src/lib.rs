//! Encoding and decoding of DNS messages in the wire format: the fixed header, the
//! question section and the three sections of resource records, with names compressed by
//! pointers followed up to a bound.

pub mod answer;
pub mod de;
pub mod error;
pub mod header;
pub mod message;
pub mod name;
pub mod name_laws;
pub mod query;
pub mod se;
mod text;

pub use answer::{ResourceRecord, ResourceRecordType};
pub use de::{Deserializable, Deserializer};
pub use error::CodecError;
pub use header::Header;
pub use message::{
    build_query, deserialize, parse_message, parse_message_limited, serialize, Message,
};
pub use name::{
    decode_domain, decode_domain_limited, encode_domain, encode_domain_limited,
    MAX_COMPRESSION_COUNT, MAX_LABEL_LEN,
};
pub use query::{QueryType, Question};
pub use se::{Serializable, Serializer};
