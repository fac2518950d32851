//! A single-file resource archiver.
//!
//! The archive format packs a set of files and directories into one compact,
//! randomly-seekable binary blob.  Content is deduplicated by (length, digest),
//! paths are indexed by a compact ternary trie serialized as a flat node array,
//! and each stored item is either kept raw or compressed when that saves
//! at least a fifth of its size.

pub mod file_format;
pub mod trie;
pub mod text;
pub mod codec;
pub mod packager;
pub mod builder;
pub mod inputs;
pub mod laws;
pub mod build_env;
