//! Reading, writing and post-processing of Bound Book Format (BBF) files.
//!
//! A BBF file is a header, the raw bytes of each distinct page image
//! (assets), a set of fixed-size tables (assets, pages, sections, metadata),
//! a pool of NUL-terminated strings and a footer that locates the tables.

pub mod codec;
pub mod text;
pub mod format;
pub mod hash;
pub mod reader;
pub mod builder;
pub mod petrify;
pub mod streamer;
pub mod mux;
