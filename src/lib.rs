//! Structured log records: a template compiler for printf-like message
//! strings, a closed display-hint vocabulary, and a tag-free binary record
//! encoder/decoder driven by the parsed template.
//!
//! A producer parses a format string once (`template::parse`), binds a wire
//! kind to each placeholder (`record::Layout::bind`), and then encodes
//! records into caller-owned buffers (`record::encode`). A consumer holding
//! the same layout, directly or through a `catalog::Catalog`, turns the bytes
//! back into the header and the rendered message (`record::decode`).
pub mod catalog;
pub mod hint;
pub mod record;
pub mod render;
pub mod template;
pub mod wire;
