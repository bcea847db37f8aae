//! KLV (key-length-value) framing as used by the UAS Datalink Local Set (MISB ST 0601):
//! the BER length codec, the outer frame with its 16-byte universal key, short-form
//! records and their reader, datasets that decode records into typed values, and a
//! record codec driven by field declarations.
pub mod be;
pub mod ber;
pub mod dataset;
pub mod de;
pub mod decl;
pub mod error;
pub mod global;
pub mod nk;
pub mod record;
pub mod se;
pub mod symmetry;
pub mod uasdls;
pub mod value;

pub use ber::{parse_length, LengthOctet};
pub use dataset::{encode, encode_len, DataSet, KLVReader, KLV};
pub use de::{from_bytes, Deserializer};
pub use decl::{FieldDecl, Presence, RecordDecl};
pub use error::ParseError;
pub use global::{write_global, KLVGlobal};
pub use record::{KLVRaw, KLVRawReader};
pub use se::{to_bytes, Serializer};
pub use uasdls::{decode_uasdls, encode_uasdls, UASDataset, LS_UNIVERSAL_KEY0601_8_10};
pub use value::{Kind, Value};
