//! The decisions of an installation: what to fetch, what to keep, and what to
//! do next.

pub mod error;
pub mod names;
pub mod retry;
pub mod api;
pub mod compact_manifest;
pub mod installer;
pub mod chunk_reuse;
pub mod update_plan;
pub mod update_laws;
pub mod download_plan;
pub mod readiness;
pub mod download_state;
pub mod download_laws;
pub mod resume;
pub mod resume_scan;
pub mod flow;
pub mod item_run;
pub mod finish;
pub mod install;
pub mod install_laws;
pub mod integrity;
pub mod update;
pub mod size_laws;
pub mod plugin_api;
pub mod plugin_install;
pub mod plugin_laws;
pub mod archive;
pub mod patch_manifest;
pub mod preinstall_plan;
pub mod preinstall_laws;
pub mod file_hash;
pub mod preinstall;
pub mod asset_filter;
pub mod preinstall_apply;
pub mod audio_record;
pub mod hsr_filter;
pub mod nap_filter;
pub mod filter_laws;
pub mod file_io;
pub mod profiling;
pub mod apply_run;
