//! A verified codec for a layered game-asset container archive.
//!
//! The archive is a tree of containers, each led by a two-part header with a
//! child offset table, holding texture atlases, name lists and opaque binary
//! payloads. Unpacking walks the tree and yields a manifest plus the extracted
//! payloads; packing rebuilds the byte stream from a manifest and the payload
//! files.

pub mod block;
pub mod fault;
pub mod header;
pub mod magic;
pub mod manifest;
pub mod names;
pub mod pack;
pub mod reader;
pub mod textfmt;
pub mod texture;
pub mod unpack;
pub mod words;
pub mod writer;
