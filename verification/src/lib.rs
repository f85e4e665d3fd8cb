//! Reader and writer for a nested binary asset-package container.
//!
//! A package is an outer form holding a table-of-contents form (asset
//! directory, metadata table, string table) followed by the raw payload
//! bytes of every asset.  `pack::Package::read` decodes a package buffer
//! into assets, decompressing payloads where the directory marks them
//! compressed; `pack::Package::write` serialises an asset list back into
//! an offset-correct, 16-byte-aligned byte stream.

pub mod bytes;
pub mod fourcc;
pub mod framing;
pub mod lzss;
pub mod pack;
pub mod tables;
