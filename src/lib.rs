//! A decoder for the RESP wire format: length-prefixed integers, status and
//! error lines, bulk strings and arrays, read from a byte buffer into a
//! typed value tree.
//!
//! Every entry point returns one of three outcomes: a decoded value together
//! with the unread suffix of the input, `Incomplete` when the input is a
//! valid prefix that needs more bytes, or `Malformed` when no extension of
//! the input can ever decode.
//!
//! - [`model`]: the decoded value, the outcome type, and their mathematical models.
//! - [`grammar`]: the wire format as functions from bytes to outcomes.
//! - [`decode`]: the decoders, each proved to return what its grammar states.
//! - [`encoding`]: the valid encodings of each kind of value.
//! - [`laws`]: round trips, sequential decoding, and empty input.

pub mod model;
pub mod grammar;
pub mod decode;
pub mod encoding;
pub mod laws;

pub use decode::{array, bulk_string, error, integer, status, value};
pub use model::{Decoded, Value};
