//! Parsing and formatting of the `EXT-X-INDEPENDENT-SEGMENTS` and `EXT-X-START`
//! tags of HTTP Live Streaming playlists (RFC 8216, section 4.3.5).
//!
//! Each tag has a value type, a parser from its line, a formatter back to the
//! canonical line, and the protocol version it requires. The contracts state the
//! parsers over spec functions of the line's characters (`parse_start`,
//! `is_independent_segments`), and the laws in `tags` prove that formatting and
//! parsing undo each other.
pub mod attribute;
pub mod error;
pub mod tags;
mod text;
pub mod types;

pub use error::{Error, ErrorKind, Result};
pub use tags::{ExtXIndependentSegments, ExtXStart};
pub use types::{ProtocolVersion, SignedDecimalFloatingPoint};
