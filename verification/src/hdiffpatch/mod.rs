//! Binary patches in the HDiff format.

pub mod buffer_pool;
pub mod compression;
pub mod compression_mode;
pub mod cover;
pub mod diff;
pub mod error;
pub mod header;
pub mod laws;
pub mod parser;
pub mod patch_core;
pub mod patch_sf;
pub mod patch_single;
pub mod sections;
pub mod writing;
