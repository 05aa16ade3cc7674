//! Decoding of LEB128 integers from a pull-based byte source, with a
//! caller-chosen bound on the width of the decoded value.

mod bits;
pub mod decode;
pub mod encoding;
pub mod error;
pub mod format;
pub mod groups;
pub mod laws;
pub mod partial;
pub mod reader;
pub mod source;

pub use crate::decode::{vsN, vuN};
pub use crate::error::DecodeError;
pub use crate::partial::{Partial, Step};
pub use crate::reader::ReadLEB;
pub use crate::source::ByteSource;
