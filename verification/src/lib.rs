//! Streaming decoder for `multipart/form-data` bodies.
//!
//! The body is pulled from a blocking byte source through a bounded buffer.
//! `BoundaryReader` cuts the stream at each occurrence of a delimiter, and
//! `Multipart` reads one part after another on top of it.

pub mod source;
pub mod error;
pub mod pattern;
pub mod scanner;
pub mod header;
pub mod multipart;
pub mod entries;
pub mod content_type;
pub mod wire;
