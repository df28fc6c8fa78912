//! cjson-rs — memory-safe JSON parser.
//!
//! Implements RFC 8259. Provides a value model compatible with cJSON's
//! semantics, and the logic of a cJSON-compatible C interface.
pub mod capi;
pub mod cjson;
pub mod comments;
pub mod compaction;
pub mod error;
pub mod laws;
pub mod parser;
pub mod positions;
pub mod prefix;
pub mod range;
pub mod roundtrip;
pub mod serialiser;
pub mod token;
pub mod tokeniser;
pub mod value;
pub mod wellformed;

pub use error::{Error, Position};
pub use parser::{parse, parse_prefix, parse_with_options, ParserOptions};
pub use serialiser::{serialise, serialise_pretty};
pub use token::{PositionedToken, Token};
pub use tokeniser::Tokeniser;
pub use value::{Number, Value};
