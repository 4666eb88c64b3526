# irmin

A game downloader: games are described by manifests of files, files are cut into
chunks, and chunks are fetched, checked and put together. Updates reuse the
chunks of the files that are there, and preinstalled updates are applied as
binary patches.

`src/` is the library, in Verus. Every function in it is verified against its
contract; what it takes from other crates is stated in the contracts of a few
wrappers (`collections.rs`, `digest.rs`, `strings.rs`, `text.rs`,
`hdiffpatch/compression.rs`, `hdiffpatch/parser.rs`, `hdiffpatch/buffer_pool.rs`,
`game_installer/archive.rs` and `game_installer/retry.rs`).

- `hdiffpatch/` reads and applies patches: variable-length integers, headers,
  covers, run-length coded differences. `hdiffpatch/laws.rs` relates them, and
  `hdiffpatch/writing.rs` says how a patch is written and what applying it gives.
- `files.rs` tells a missing file from one that cannot be read.
- `manifest.rs` and `game_installer/installer.rs` name manifests by their
  content.
- `game_installer/chunk_reuse.rs`, `update_plan.rs`, `download_plan.rs`,
  `download_state.rs`, `readiness.rs`, `resume.rs`, `resume_scan.rs` and
  `install.rs` plan an installation, an update or its resumption; `item_run.rs`,
  `flow.rs`, `retry.rs`, `finish.rs` and `integrity.rs` decide what happens along
  the way.
- `game_installer/patch_manifest.rs`, `preinstall_plan.rs`, `preinstall.rs`,
  `preinstall_apply.rs` and `apply_run.rs` do the same for preinstalled updates.
- `game_installer/plugin_api.rs`, `plugin_install.rs` and `archive.rs` choose,
  check and unpack plugins.
- `game_installer/asset_filter.rs`, `hsr_filter.rs`, `nap_filter.rs` and
  `audio_record.rs` follow what the player has removed or installed.

The public proof functions whose names begin with `law_` state what holds across
several functions.

`tests/` runs the library. `app/` is ordinary Rust around it: files, the network,
tasks, serialised records and floating-point figures.
