//! A minimal record codec: a timestamped, tagged text record ("entry")
//! converted losslessly to and from a single-line CSV-encoded row.
//!
//! A row holds three fields in fixed order: an RFC 3339 timestamp, a tag
//! and a message, the latter two each encoded as a JSON string literal so
//! that arbitrary text (commas, quotes, newlines) embeds safely.

pub mod chars;
pub mod csv_text;
pub mod entry;
pub mod error;
pub mod json_text;
pub mod timestamp;

pub use entry::Entry;
pub use error::Error;
pub use timestamp::Timestamp;
