//! Parser for SEC SGML filing envelopes: header metadata, document payloads
//! and a USTAR archive whose metadata points at its own members.
use vstd::prelude::*;

pub mod bytes;
pub mod json;
pub mod types;
pub mod tree;
pub mod text;
pub mod header_mappings;
pub mod uudecode;
pub mod parse;
pub mod write;

pub use header_mappings::{get_header_mappings, standardize_key, transform_value, HeaderMapping};
pub use json::parse_sgml_to_json;
pub use parse::parse_sgml;
pub use types::{
    DocumentMetadata, MetadataValue, ParseError, ParseOptions, ParsedSubmission,
    SubmissionFormat, SubmissionMetadata,
};
pub use uudecode::{a2b_uu, decode_uuencoded, is_uuencoded, UuDecodeError};
pub use write::write_sgml_bytes_to_tar;
