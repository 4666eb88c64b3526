//! Manifest-based game downloads: content hashes, chunk scheduling, binary
//! patches and the decisions of the install and preinstall pipelines.

pub mod collections;
pub mod digest;
pub mod files;
pub mod game_installer;
pub mod hdiffpatch;
pub mod manifest;
pub mod ordering;
pub mod progress;
pub mod proto_parse;
pub mod strings;
pub mod text;
