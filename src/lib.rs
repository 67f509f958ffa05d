//! A zero-copy scanner for HTTP/1.1 requests.
//!
//! The scanner records byte ranges into the caller's buffer; accessors decode
//! those ranges lazily, and map builders turn them into key/value mappings.
//! A standalone check reports how many body bytes are still to come.
pub mod bytes;
pub mod laws;
pub mod maps;
pub mod parser;
pub mod text;

pub use maps::{map_from_pairs, StrMap, StringMap};
pub use parser::{HttpMethod, HttpParser, ParseError};
