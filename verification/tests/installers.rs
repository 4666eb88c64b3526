use irmin::collections::{NameMap, NameSet, TextMap};
use irmin::game_installer::api::DownloadInfo;
use irmin::game_installer::chunk_reuse::{
    assign_chunk_offsets, build_old_md5_map, collect_deleted_files, compute_diff_files,
    intern_old_chunk_offsets,
};
use irmin::game_installer::compact_manifest::{CompactManifest, StringArena};
use irmin::game_installer::download_plan::{register_chunks_for_file, DownloadItem, DownloadPlan};
use irmin::game_installer::error::SophonError;
use irmin::game_installer::flow::{
    drain_results, files_to_remove, game_filter, game_tasks, installed_tag,
    marker_file_name, version_record_name, AssemblyAction, AssemblyCoordinator, AssemblyEvent,
    DownloadAccount, DownloadSummary, GameFilter, GameTask,
};
use irmin::game_installer::finish::{after_downloads, final_steps, AfterDownloads};
use irmin::game_installer::install::{begin_install, plan_install, ResumeContext};
use irmin::game_installer::installer::{
    build_installer_data, combine_manifest_hashes, compute_totals, installer_label,
    ChunkNameLookup, SophonInstaller,
};
use irmin::game_installer::integrity::{
    assets_to_check, failed_files, failed_warning, needed_chunks, redownload_bytes,
    redownload_items, verification_end, verify_dir_name,
};
use irmin::game_installer::item_run::{
    FetchDo, FetchEvent, FetchRun, FetchStage, ItemDo, ItemEvent, ItemRun, ItemStage,
};
use irmin::game_installer::readiness::notify_assembly_ready;
use irmin::game_installer::resume::{chunk_still_valid_for_resume, keep_chunks};
use irmin::game_installer::resume_scan::{
    completion_flags, file_check, scan_files, size_passes, CompletedFiles, FileCheck,
};
use irmin::game_installer::retry::AttemptOutcome;
use irmin::game_installer::update_plan::{diff_installer, ManifestUpdate, OldManifest};
use irmin::proto_parse::{
    SophonManifestAssetChunk, SophonManifestAssetProperty, SophonManifestProto,
};

fn make_chunk(name: &str, size: u64) -> SophonManifestAssetChunk {
    make_chunk_with_hash(name, size, "", 0)
}

fn make_chunk_with_hash(
    name: &str,
    size: u64,
    decompressed_hash: &str,
    on_file_offset: u64,
) -> SophonManifestAssetChunk {
    SophonManifestAssetChunk {
        chunk_name: name.into(),
        chunk_decompressed_hash_md5: decompressed_hash.into(),
        chunk_on_file_offset: on_file_offset,
        chunk_size: size,
        chunk_size_decompressed: size,
        chunk_compressed_hash_xxh: 0,
        chunk_compressed_hash_md5: String::new(),
        chunk_old_offset: -1,
    }
}

fn make_file(
    name: &str,
    md5: &str,
    chunks: Vec<SophonManifestAssetChunk>,
) -> SophonManifestAssetProperty {
    let size: u64 = chunks.iter().map(|c| c.chunk_size_decompressed).sum();
    SophonManifestAssetProperty {
        asset_name: name.into(),
        asset_chunks: chunks,
        asset_type: 0,
        asset_size: size,
        asset_hash_md5: md5.into(),
    }
}

fn make_dir(name: &str) -> SophonManifestAssetProperty {
    SophonManifestAssetProperty {
        asset_name: name.into(),
        asset_chunks: vec![],
        asset_type: 64,
        asset_size: 0,
        asset_hash_md5: String::new(),
    }
}

fn make_download_info() -> DownloadInfo {
    DownloadInfo {
        encryption: 0,
        password: String::new(),
        compression: 0,
        url_prefix: "https://example.com".into(),
        url_suffix: "chunks".into(),
    }
}

fn make_sophon_installer(hash: &str) -> SophonInstaller {
    installer_of(vec![], hash)
}

fn installer_of(assets: Vec<SophonManifestAssetProperty>, hash: &str) -> SophonInstaller {
    SophonInstaller {
        manifest: SophonManifestProto { assets },
        chunk_download: make_download_info(),
        label: "test".into(),
        matching_field: "game".into(),
        manifest_hash: hash.into(),
    }
}

fn text_map(entries: &[(&str, &str)]) -> TextMap {
    let mut map = TextMap::default();
    for (k, v) in entries {
        map.insert(k.to_string(), v.to_string());
    }
    map
}

fn name_set(entries: &[&str]) -> NameSet {
    entries.iter().map(|s| s.to_string()).collect()
}

#[test]
fn compute_totals_no_dupes() {
    let files = vec![
        make_file(
            "a.pak",
            "aa",
            vec![make_chunk("c1", 100), make_chunk("c2", 200)],
        ),
        make_file("b.pak", "bb", vec![make_chunk("c3", 300)]),
    ];
    let (bytes, files_count) = compute_totals(&CompactManifest::new(files));
    assert_eq!(bytes, 600);
    assert_eq!(files_count, 2);
}

#[test]
fn compute_totals_with_dedup() {
    let files = vec![
        make_file("a.pak", "aa", vec![make_chunk("shared", 500)]),
        make_file("b.pak", "bb", vec![make_chunk("shared", 500)]),
    ];
    let (bytes, files_count) = compute_totals(&CompactManifest::new(files));
    assert_eq!(bytes, 500);
    assert_eq!(files_count, 2);
}

#[test]
fn compute_totals_empty() {
    let files: Vec<SophonManifestAssetProperty> = vec![];
    let (bytes, files_count) = compute_totals(&CompactManifest::new(files));
    assert_eq!(bytes, 0);
    assert_eq!(files_count, 0);
}

#[test]
fn compute_totals_same_name_different_size() {
    let files = vec![
        make_file("a.pak", "aa", vec![make_chunk("shared", 500)]),
        make_file("b.pak", "bb", vec![make_chunk("shared", 600)]),
    ];
    let (bytes, files_count) = compute_totals(&CompactManifest::new(files));
    assert_eq!(bytes, 500);
    assert_eq!(files_count, 2);
}

#[test]
fn compute_diff_files_all_new() {
    let new_manifest = SophonManifestProto {
        assets: vec![
            make_file("a.pak", "aa", vec![]),
            make_file("b.pak", "bb", vec![]),
            make_file("c.pak", "cc", vec![]),
        ],
    };
    let diff = compute_diff_files(new_manifest, &TextMap::default());
    assert_eq!(diff.len(), 3);
}

#[test]
fn compute_diff_files_unchanged_excluded() {
    let new_manifest = SophonManifestProto {
        assets: vec![make_file("a.pak", "aa", vec![])],
    };
    let diff = compute_diff_files(new_manifest, &text_map(&[("a.pak", "aa")]));
    assert!(diff.is_empty());
}

#[test]
fn compute_diff_files_changed_included() {
    let new_manifest = SophonManifestProto {
        assets: vec![make_file("a.pak", "new_md5", vec![])],
    };
    let diff = compute_diff_files(new_manifest, &text_map(&[("a.pak", "old_md5")]));
    assert_eq!(diff.len(), 1);
}

#[test]
fn compute_diff_files_dirs_included() {
    let new_manifest = SophonManifestProto {
        assets: vec![make_dir("GameData"), make_file("a.pak", "aa", vec![])],
    };
    let diff = compute_diff_files(new_manifest, &TextMap::default());
    assert_eq!(diff.len(), 2);
    let names: Vec<&str> = diff.iter().map(|f| f.asset_name.as_str()).collect();
    assert!(names.contains(&"GameData"));
    assert!(names.contains(&"a.pak"));
}

#[test]
fn compute_diff_files_mixed() {
    let new_manifest = SophonManifestProto {
        assets: vec![
            make_file("new.pak", "nn", vec![]),
            make_file("changed.pak", "new_md5", vec![]),
            make_file("unchanged.pak", "same", vec![]),
            make_dir("somedir"),
        ],
    };
    let old = text_map(&[("changed.pak", "old_md5"), ("unchanged.pak", "same")]);
    let diff = compute_diff_files(new_manifest, &old);
    assert_eq!(diff.len(), 3);
    let names: Vec<&str> = diff.iter().map(|f| f.asset_name.as_str()).collect();
    assert!(names.contains(&"new.pak"));
    assert!(names.contains(&"changed.pak"));
    assert!(names.contains(&"somedir")); // directories are included in diff
}

#[test]
fn compute_diff_files_all_unchanged() {
    let new_manifest = SophonManifestProto {
        assets: vec![
            make_file("a.pak", "aa", vec![]),
            make_file("b.pak", "bb", vec![]),
        ],
    };
    let old = text_map(&[("a.pak", "aa"), ("b.pak", "bb")]);
    let diff = compute_diff_files(new_manifest, &old);
    assert!(diff.is_empty());
}

#[test]
fn intern_old_chunk_offsets_assigns_unique_ids() {
    let manifest = SophonManifestProto {
        assets: vec![
            make_file(
                "a.pak",
                "aa",
                vec![
                    make_chunk_with_hash("c0", 100, "hash0", 0),
                    make_chunk_with_hash("c1", 100, "hash1", 100),
                ],
            ),
            make_file(
                "b.pak",
                "bb",
                vec![make_chunk_with_hash("c2", 100, "hash0", 0)],
            ),
            make_dir("skipped"),
        ],
    };
    let (offsets, name_to_id, hash_to_id) = intern_old_chunk_offsets(&manifest);

    assert_eq!(name_to_id.len(), 2);
    assert_eq!(hash_to_id.len(), 2);
    assert_eq!(offsets.len(), 3);

    let a_id = name_to_id["a.pak"] as u32;
    let b_id = name_to_id["b.pak"] as u32;
    let h0 = hash_to_id["hash0"] as u32;
    let h1 = hash_to_id["hash1"] as u32;

    assert_eq!(offsets.get(&(a_id, h0)), Some(&0));
    assert_eq!(offsets.get(&(a_id, h1)), Some(&100));
    assert_eq!(offsets.get(&(b_id, h0)), Some(&0));
}

#[test]
fn intern_old_chunk_offsets_empty_manifest() {
    let manifest = SophonManifestProto { assets: vec![] };
    let (offsets, name_to_id, hash_to_id) = intern_old_chunk_offsets(&manifest);
    assert!(offsets.is_empty());
    assert!(name_to_id.is_empty());
    assert!(hash_to_id.is_empty());
}

#[test]
fn intern_old_chunk_offsets_only_dirs() {
    let manifest = SophonManifestProto {
        assets: vec![make_dir("d0"), make_dir("d1")],
    };
    let (offsets, name_to_id, hash_to_id) = intern_old_chunk_offsets(&manifest);
    assert!(offsets.is_empty());
    assert!(name_to_id.is_empty());
    assert!(hash_to_id.is_empty());
}

#[test]
fn assign_chunk_offsets_reuses_matching_old_entries() {
    let old_manifest = SophonManifestProto {
        assets: vec![make_file(
            "a.pak",
            "old_md5",
            vec![make_chunk_with_hash("c0", 100, "hash0", 4096)],
        )],
    };
    let (offsets, name_to_id, hash_to_id) = intern_old_chunk_offsets(&old_manifest);

    let mut diff = vec![make_file(
        "a.pak",
        "new_md5",
        vec![
            make_chunk_with_hash("c0", 100, "hash0", 0),
            make_chunk_with_hash("c1", 100, "hash1", 100),
        ],
    )];

    assign_chunk_offsets(&mut diff, &offsets, &name_to_id, &hash_to_id);

    assert_eq!(diff[0].asset_chunks[0].chunk_old_offset, 4096);
    assert_eq!(diff[0].asset_chunks[1].chunk_old_offset, -1);
}

#[test]
fn assign_chunk_offsets_unknown_file_name_all_minus_one() {
    let old_manifest = SophonManifestProto {
        assets: vec![make_file(
            "old.pak",
            "m",
            vec![make_chunk_with_hash("c0", 100, "hash0", 0)],
        )],
    };
    let (offsets, name_to_id, hash_to_id) = intern_old_chunk_offsets(&old_manifest);

    let mut diff = vec![make_file(
        "new.pak",
        "m",
        vec![make_chunk_with_hash("c0", 100, "hash0", 0)],
    )];

    assign_chunk_offsets(&mut diff, &offsets, &name_to_id, &hash_to_id);
    assert_eq!(diff[0].asset_chunks[0].chunk_old_offset, -1);
}

#[test]
fn assign_chunk_offsets_empty_maps_all_minus_one() {
    let mut diff = vec![make_file(
        "a.pak",
        "aa",
        vec![make_chunk_with_hash("c0", 100, "hash0", 0)],
    )];
    assign_chunk_offsets(
        &mut diff,
        &Default::default(),
        &NameMap::default(),
        &NameMap::default(),
    );
    assert_eq!(diff[0].asset_chunks[0].chunk_old_offset, -1);
}

/// Same chunk hash at different offsets in different files must resolve
/// to the per-file offset, not a single global offset.
#[test]
fn assign_chunk_offsets_same_hash_different_offsets_per_file() {
    let old_manifest = SophonManifestProto {
        assets: vec![
            make_file(
                "a.pak",
                "m1",
                vec![make_chunk_with_hash("c0", 100, "hash_shared", 1000)],
            ),
            make_file(
                "b.pak",
                "m2",
                vec![make_chunk_with_hash("c0", 100, "hash_shared", 5000)],
            ),
        ],
    };
    let (offsets, name_to_id, hash_to_id) = intern_old_chunk_offsets(&old_manifest);

    let mut diff = vec![
        make_file(
            "a.pak",
            "m1_new",
            vec![make_chunk_with_hash("c0", 100, "hash_shared", 0)],
        ),
        make_file(
            "b.pak",
            "m2_new",
            vec![make_chunk_with_hash("c0", 100, "hash_shared", 0)],
        ),
    ];

    assign_chunk_offsets(&mut diff, &offsets, &name_to_id, &hash_to_id);
    assert_eq!(diff[0].asset_chunks[0].chunk_old_offset, 1000);
    assert_eq!(diff[1].asset_chunks[0].chunk_old_offset, 5000);
}

#[test]
fn collect_deleted_files_basic() {
    let old = SophonManifestProto {
        assets: vec![
            make_file("A", "a1", vec![]),
            make_file("B", "b1", vec![]),
            make_file("C", "c1", vec![]),
        ],
    };
    let deleted = collect_deleted_files(&old, &name_set(&["A", "D"]));
    assert_eq!(deleted.len(), 2);
    assert!(deleted.contains(&"B".to_string()));
    assert!(deleted.contains(&"C".to_string()));
}

#[test]
fn collect_deleted_files_none() {
    let old = SophonManifestProto {
        assets: vec![make_file("A", "a1", vec![]), make_file("B", "b1", vec![])],
    };
    let deleted = collect_deleted_files(&old, &name_set(&["A", "B"]));
    assert!(deleted.is_empty());
}

#[test]
fn collect_deleted_files_dirs_excluded() {
    let old = SophonManifestProto {
        assets: vec![make_dir("old_dir"), make_file("A", "a1", vec![])],
    };
    let deleted = collect_deleted_files(&old, &name_set(&["A"]));
    assert!(deleted.is_empty());
}

#[test]
fn build_old_md5_map_basic() {
    let manifest = SophonManifestProto {
        assets: vec![
            make_file("a.pak", "md5_a", vec![]),
            make_file("b.pak", "md5_b", vec![]),
            make_dir("dir"),
        ],
    };
    let map = build_old_md5_map(&manifest);
    assert_eq!(map.len(), 2);
    assert_eq!(map.get("a.pak").map(String::as_str), Some("md5_a"));
    assert_eq!(map.get("b.pak").map(String::as_str), Some("md5_b"));
}

#[test]
fn combine_manifest_hashes_deterministic() {
    let installers = vec![
        make_sophon_installer("hash_a"),
        make_sophon_installer("hash_b"),
    ];
    let h1 = combine_manifest_hashes(&installers);
    let h2 = combine_manifest_hashes(&installers);
    assert_eq!(h1, h2);
}

#[test]
fn combine_manifest_hashes_order_independent() {
    let installers_ab = vec![
        make_sophon_installer("hash_a"),
        make_sophon_installer("hash_b"),
    ];
    let installers_ba = vec![
        make_sophon_installer("hash_b"),
        make_sophon_installer("hash_a"),
    ];
    assert_eq!(
        combine_manifest_hashes(&installers_ab),
        combine_manifest_hashes(&installers_ba),
    );
}

#[test]
fn combine_manifest_hashes_empty() {
    let installers: Vec<SophonInstaller> = vec![];
    let hash = combine_manifest_hashes(&installers);
    assert!(!hash.is_empty());
    assert_eq!(hash.len(), 16);
    assert_eq!(hash, "e3b0c44298fc1c14");
}

/// The hash is over the sorted hashes, one after the other.
#[test]
fn combined_hash_has_the_expected_value() {
    let installers = vec![
        make_sophon_installer("hash_b"),
        make_sophon_installer("hash_a"),
    ];
    assert_eq!(combine_manifest_hashes(&installers), "5b59cbc8e6a24728");
}

#[test]
fn compute_totals_filters_old_reuse_chunks() {
    let chunk_new = make_chunk("new_chunk", 500);
    let mut chunk_reuse = make_chunk("reuse_chunk", 300);
    chunk_reuse.chunk_old_offset = 42;
    let file1 = SophonManifestAssetProperty {
        asset_name: "a.pak".into(),
        asset_chunks: vec![chunk_new, chunk_reuse],
        asset_type: 0,
        asset_hash_md5: String::new(),
        asset_size: 0,
    };
    let (bytes, files_count) = compute_totals(&CompactManifest::new(vec![file1]));
    assert_eq!(bytes, 500, "old-reuse chunk should be excluded");
    assert_eq!(files_count, 1);
}

#[test]
fn compute_totals_filters_directories() {
    let file1 = make_file("a.pak", "aa", vec![make_chunk("c1", 100)]);
    let dir1 = make_dir("GameData");
    let (bytes, files_count) = compute_totals(&CompactManifest::new(vec![dir1, file1]));
    assert_eq!(bytes, 100);
    assert_eq!(files_count, 2);
}

#[test]
fn build_installer_data_filters_directories() {
    let installer = SophonInstaller {
        manifest: SophonManifestProto {
            assets: vec![
                make_dir("GameData"),
                make_file("a.pak", "aa", vec![make_chunk("c1", 100)]),
            ],
        },
        chunk_download: make_download_info(),
        label: "test".into(),
        matching_field: "game".into(),
        manifest_hash: "abc".into(),
    };

    let (data, all_files) = build_installer_data(vec![installer]);
    assert_eq!(data.len(), 1);
    assert_eq!(data[0].file_count, 1);
    assert_eq!(all_files.len(), 1);
    assert_eq!(all_files[0].asset_name, "a.pak");
}

#[test]
fn notify_assembly_ready_single_file_ready() {
    let mut pending: Vec<u32> = vec![1];
    let entries = vec![(0u32, 0u32, 0u32)];
    let offsets: Vec<u32> = vec![0, 1];
    let ready = notify_assembly_ready(0, &entries, &offsets, &mut pending);
    assert_eq!(ready, vec![(0, 0)], "file should be sent to assembly");
    assert_eq!(pending[0], 0);
}

#[test]
fn notify_assembly_ready_chunk_not_in_map() {
    let mut pending: Vec<u32> = vec![];
    let ready = notify_assembly_ready(999, &vec![], &vec![0], &mut pending);
    assert!(ready.is_empty());
}

#[test]
fn chunk_still_valid_for_resume_missing() {
    assert!(!chunk_still_valid_for_resume("missing_chunk", 123, None));
}

#[test]
fn chunk_still_valid_for_resume_size_mismatch() {
    assert!(!chunk_still_valid_for_resume("OK_chunk", 5, Some(3)));
    assert!(!chunk_still_valid_for_resume("OK_chunk", 100, Some(3)));
    assert!(chunk_still_valid_for_resume("OK_chunk", 3, Some(3)));
}

#[test]
fn chunk_still_valid_for_resume_invalid_name() {
    assert!(!chunk_still_valid_for_resume("../escape", 2, Some(2)));
    assert!(!chunk_still_valid_for_resume("", 0, Some(0)));
    assert!(!chunk_still_valid_for_resume("name/with/slash", 2, Some(2)));
}

/// A chunk that two files share is downloaded once, and each file is reported
/// ready once, when its last chunk has come.
#[test]
fn shared_chunks_count_down_both_files() {
    let files = CompactManifest::new(vec![
        make_file("a", "aa", vec![make_chunk("x", 1), make_chunk("y", 2)]),
        make_file("b", "bb", vec![make_chunk("y", 2)]),
    ]);
    let mut plan = DownloadPlan::new();
    register_chunks_for_file(&mut plan, &files, 0, 0, 0, &Default::default());
    register_chunks_for_file(&mut plan, &files, 1, 0, 0, &Default::default());
    assert_eq!(plan.items.len(), 2);
    assert_eq!(plan.refcounts, vec![1, 2]);
    assert_eq!(plan.pending, vec![2, 1]);

    let mut entries = Vec::new();
    let mut offsets: Vec<u32> = vec![0];
    for e in &plan.entries {
        entries.extend(e.iter().copied());
        offsets.push(entries.len() as u32);
    }
    let mut pending = plan.pending.clone();
    let first = notify_assembly_ready(1, &entries, &offsets, &mut pending);
    assert_eq!(first, vec![(1, 0)]);
    let second = notify_assembly_ready(0, &entries, &offsets, &mut pending);
    assert_eq!(second, vec![(0, 0)]);
    assert_eq!(pending, vec![0, 0]);
}

#[test]
fn chunk_names_are_found_by_place_and_by_name() {
    let mut arena = StringArena::new();
    for name in ["zeta", "alpha", "mid"] {
        arena.intern(name);
    }
    assert_eq!(arena.len(), 3);
    let lookup = ChunkNameLookup::from_arena(arena);
    assert_eq!(lookup.get(0), "zeta");
    assert_eq!(lookup.get(2), "mid");
    assert_eq!(lookup.lookup("alpha"), Some(1));
    assert_eq!(lookup.lookup("zeta"), Some(0));
    assert_eq!(lookup.lookup("beta"), None);
}

#[test]
fn labels_are_paths_with_dashes() {
    assert_eq!(installer_label("/pcw/a/b/"), "pcw-a-b");
}

#[test]
fn compact_manifest_finds_chunks() {
    let m = CompactManifest::new(vec![
        make_file("a", "aa", vec![make_chunk("x", 1), make_chunk("y", 2)]),
        make_dir("d"),
        make_file("b", "bb", vec![make_chunk("z", 3)]),
    ]);
    assert_eq!(m.num_files(), 3);
    assert_eq!(m.num_chunks(), 3);
    assert_eq!(m.file_name(2), "b");
    assert_eq!(m.file_size(0), 3);
    assert!(m.is_directory(1));
    assert_eq!(m.file_chunk_range(2), (2, 3));
    assert_eq!(m.file_chunk(0, 1).chunk_name, "y");
    assert_eq!(m.file_chunk_count(1), 0);
}

fn item(is_pre_downloaded: bool, use_eager: bool) -> DownloadItem {
    DownloadItem {
        file_idx: 0,
        chunk_idx: 0,
        installer_idx: 0,
        is_pre_downloaded,
        use_eager,
    }
}

#[test]
fn chunks_go_their_way() {
    let (_, first) = ItemRun::begin(&item(false, false), "ok", false);
    assert!(matches!(first, ItemDo::Download));
    let (_, first) = ItemRun::begin(&item(false, false), "ok", true);
    assert!(matches!(first, ItemDo::Fail(SophonError::Cancelled)));
    let (run, first) = ItemRun::begin(&item(false, false), "../no", false);
    assert!(matches!(first, ItemDo::Fail(SophonError::PathTraversal(_))));
    assert_eq!(run.stage, ItemStage::Ended);

    let (mut run, first) = ItemRun::begin(&item(true, false), "ok", false);
    assert!(matches!(first, ItemDo::CheckDisk));
    let next = run.step("ok", ItemEvent::Checked { sound: true }, false);
    assert!(matches!(next, ItemDo::Settle { downloaded: false }));

    let (mut run, _) = ItemRun::begin(&item(true, false), "ok", false);
    let next = run.step("ok", ItemEvent::Checked { sound: false }, false);
    assert!(matches!(next, ItemDo::Download));
    let next = run.step("ok", ItemEvent::Tried(AttemptOutcome::HashMismatch), false);
    assert!(matches!(
        next,
        ItemDo::Wait {
            discard: true,
            delay_attempt: 1
        }
    ));
    let next = run.step("ok", ItemEvent::Woken, false);
    assert!(matches!(next, ItemDo::Download));
    let next = run.step("ok", ItemEvent::Tried(AttemptOutcome::Done), false);
    assert!(matches!(next, ItemDo::Settle { downloaded: true }));

    let (mut run, _) = ItemRun::begin(&item(true, false), "ok", false);
    let next = run.step("ok", ItemEvent::Checked { sound: true }, true);
    assert!(matches!(next, ItemDo::Fail(SophonError::Cancelled)));

    let (mut run, first) = ItemRun::begin(&item(true, true), "ok", false);
    assert!(matches!(first, ItemDo::LookAtMark));
    let next = run.step("ok", ItemEvent::Marked { unpacked: false }, false);
    assert!(matches!(next, ItemDo::Prepare));
    let next = run.step("ok", ItemEvent::Prepared, false);
    assert!(matches!(next, ItemDo::Ask));
    let shown = "200 OK".to_string();
    let next = run.step("ok", ItemEvent::Arrived { status: 200, shown }, false);
    assert!(matches!(next, ItemDo::Receive));
    let next = run.step("ok", ItemEvent::Received, false);
    assert!(matches!(next, ItemDo::Unpack));
    let next = run.step("ok", ItemEvent::Unpacked, false);
    assert!(matches!(next, ItemDo::Note));
    let next = run.step("ok", ItemEvent::Noted, false);
    assert!(matches!(next, ItemDo::Count));
}

/// A chunk that an earlier run has unpacked is counted and not fetched.
#[test]
fn marked_chunks_are_not_fetched() {
    let (mut run, first) = ItemRun::begin(&item(false, true), "ok", false);
    assert!(matches!(first, ItemDo::LookAtMark));
    let next = run.step("ok", ItemEvent::Marked { unpacked: true }, false);
    assert!(matches!(next, ItemDo::Count));
    assert_eq!(run.stage, ItemStage::Ended);
}

#[test]
fn unpacking_stops_at_a_fault() {
    let asked = || {
        let (mut run, _) = ItemRun::begin(&item(false, true), "ok", false);
        run.step("ok", ItemEvent::Marked { unpacked: false }, false);
        run.step("ok", ItemEvent::Prepared, false);
        run
    };
    let mut run = asked();
    let shown = "404 Not Found".to_string();
    match run.step("ok", ItemEvent::Arrived { status: 404, shown }, false) {
        ItemDo::Fail(SophonError::Io(text)) => {
            assert_eq!(text, "HTTP 404 Not Found for chunk ok");
        }
        other => panic!("{other:?}"),
    }
    let mut run = asked();
    let shown = "200 OK".to_string();
    run.step("ok", ItemEvent::Arrived { status: 200, shown }, false);
    let next = run.step("ok", ItemEvent::Received, true);
    assert!(matches!(next, ItemDo::Fail(SophonError::Cancelled)));
    let mut run = asked();
    let next = run.step("ok", ItemEvent::Broken(SophonError::NoGameManifest), false);
    assert!(matches!(next, ItemDo::Fail(SophonError::NoGameManifest)));
    assert_eq!(run.stage, ItemStage::Ended);
}

#[test]
fn patch_files_go_their_way() {
    let (mut run, mut next) = FetchRun::begin(false);
    let mut attempts = 0;
    loop {
        next = match next {
            FetchDo::Fetch => {
                attempts += 1;
                let error = SophonError::Http("503".into());
                let event = FetchEvent::Failed {
                    error,
                    retryable: true,
                };
                run.step("p", event, false)
            }
            FetchDo::Wait { delay_attempt } => {
                assert_eq!(delay_attempt + 1, attempts);
                run.step("p", FetchEvent::Woken, false)
            }
            FetchDo::Fail(SophonError::DownloadFailed { chunk, attempts, .. }) => {
                assert_eq!(chunk, "p");
                assert_eq!(attempts, 5);
                break;
            }
            other => panic!("unexpected {other:?}"),
        };
    }
    assert_eq!(attempts, 5);
    let (mut run, _) = FetchRun::begin(false);
    assert!(matches!(run.step("p", FetchEvent::Fetched, true), FetchDo::Done));
    assert_eq!(run.stage, FetchStage::Ended);
    let (_, next) = FetchRun::begin(true);
    assert!(matches!(next, FetchDo::Fail(SophonError::Cancelled)));
}

#[test]
fn installations_come_to_their_end() {
    let mut summary = DownloadSummary::new();
    summary.record(Err(SophonError::Io("one".into())));
    assert!(matches!(
        after_downloads(summary),
        AfterDownloads::Fail(SophonError::Io(_))
    ));
    let mut summary = DownloadSummary::new();
    summary.record(Err(SophonError::Io("one".into())));
    summary.record(Err(SophonError::Cancelled));
    assert!(matches!(after_downloads(summary), AfterDownloads::Discard));
    assert!(matches!(
        after_downloads(DownloadSummary::new()),
        AfterDownloads::AwaitAssembly
    ));
    let deleted = vec!["a".to_string(), "../b".to_string()];
    let steps = final_steps(Ok(()), &deleted, "5.0.0", false, "nap").unwrap();
    assert_eq!(steps.remove, vec!["a".to_string()]);
    assert_eq!(steps.record_name, ".sophon_version");
    assert_eq!(steps.record, "5.0.0");
    assert_eq!(steps.tasks, vec![GameTask::NapAudioRecords]);
    let steps = final_steps(Ok(()), &deleted, "5.0.0", true, "nap").unwrap();
    assert_eq!(steps.record_name, ".sophon_preinstall_5.0.0");
    assert!(steps.tasks.is_empty());
    assert!(final_steps(Err(SophonError::NoGameManifest), &deleted, "5", true, "nap").is_err());
}

/// Reports come once a second, and the state is saved after so many chunks.
#[test]
fn downloads_are_accounted_for() {
    let mut account = DownloadAccount {
        downloaded_bytes: 0,
        resume_offset: 100,
        chunks_since_save: 0,
        last_report: 0,
    };
    let due = account.settle(40, true, true, 10, 1000, 2);
    assert!(!due.save);
    assert_eq!(due.report, None);
    assert_eq!(account.downloaded_bytes, 40);
    assert_eq!(account.resume_offset, 60);
    let due = account.settle(50, true, false, 1_000_000_000, 1000, 2);
    assert!(due.save);
    assert_eq!(due.report, Some((150, 850)));
    assert_eq!(account.last_report, 1_000_000_000);
}

#[test]
fn first_error_wins_and_cancellation_goes_first() {
    let mut summary = DownloadSummary::new();
    summary.record(Ok(()));
    summary.record(Err(SophonError::Io("one".into())));
    summary.record(Err(SophonError::Io("two".into())));
    match summary.outcome() {
        Err(SophonError::Io(text)) => assert_eq!(text, "one"),
        other => panic!("unexpected {other:?}"),
    }
    let mut summary = DownloadSummary::new();
    summary.record(Err(SophonError::Io("one".into())));
    summary.record(Err(SophonError::Cancelled));
    assert!(matches!(summary.outcome(), Err(SophonError::Cancelled)));
    assert!(DownloadSummary::new().outcome().is_ok());
    assert!(drain_results(vec![Ok(()), Ok(())]).is_ok());
    match drain_results(vec![Ok(()), Err(SophonError::Io("a".into())), Ok(())]) {
        Err(SophonError::Io(text)) => assert_eq!(text, "a"),
        other => panic!("unexpected {other:?}"),
    }
}

#[test]
fn names_of_records() {
    assert_eq!(marker_file_name("5.0.0"), ".sophon_preinstall_5.0.0");
    assert_eq!(version_record_name("5.0.0", false), ".sophon_version");
    assert_eq!(
        version_record_name("5.0.0", true),
        ".sophon_preinstall_5.0.0"
    );
    let list = vec!["ok/file".to_string(), "../no".to_string()];
    assert_eq!(files_to_remove(&list), vec!["ok/file".to_string()]);
}

#[test]
fn read_installed_tag_present() {
    assert_eq!(installed_tag(Some("1.2.3")), Some("1.2.3".to_string()));
    assert_eq!(installed_tag(Some(" 1.2.3\n")), Some("1.2.3".to_string()));
}

#[test]
fn read_installed_tag_missing() {
    assert_eq!(installed_tag(None), None);
}

#[test]
fn tasks_of_games() {
    assert_eq!(
        game_tasks("hkrpg", false),
        vec![
            GameTask::HkrpgAudioRecord,
            GameTask::HkrpgAppInfo,
            GameTask::HkrpgBinaryVersions
        ]
    );
    assert_eq!(
        game_tasks("hk4e", false),
        vec![GameTask::Hk4eAudioRecord, GameTask::Hk4ePkgVersion]
    );
    assert_eq!(game_tasks("nap", false), vec![GameTask::NapAudioRecords]);
    assert!(game_tasks("bh3", false).is_empty());
    assert!(game_tasks("nap", true).is_empty());
}

#[test]
fn assembly_starts_and_drains() {
    let mut c = AssemblyCoordinator::new();
    assert_eq!(c.begin(0, 2), AssemblyAction::PollFiles);
    assert_eq!(
        c.after(
            AssemblyEvent::File {
                file_idx: 3,
                tmp_dir_idx: 1
            },
            0
        ),
        Some(AssemblyAction::Start {
            file_idx: 3,
            tmp_dir_idx: 1,
            announce: true
        })
    );
    assert_eq!(
        c.after(
            AssemblyEvent::File {
                file_idx: 4,
                tmp_dir_idx: 1
            },
            1
        ),
        Some(AssemblyAction::Start {
            file_idx: 4,
            tmp_dir_idx: 1,
            announce: false
        })
    );
    assert_eq!(c.begin(2, 2), AssemblyAction::PollFinished);
    assert_eq!(
        c.after(AssemblyEvent::NoneFinished, 2),
        Some(AssemblyAction::WaitForAny)
    );
    assert_eq!(
        c.after(AssemblyEvent::Finished { ok: true }, 1),
        Some(AssemblyAction::Save)
    );
    assert_eq!(c.after(AssemblyEvent::Finished { ok: false }, 1), None);
    assert_eq!(
        c.after(AssemblyEvent::Closed, 0),
        Some(AssemblyAction::Drain)
    );
}

/// A file of the old version that is damaged on disk is installed again, without
/// chunks from it; an unchanged file that is sound is left.
#[test]
fn updates_reuse_what_is_sound() {
    let old = SophonManifestProto {
        assets: vec![
            make_file("same", "s", vec![make_chunk_with_hash("c", 4, "h", 0)]),
            make_file("changed", "o", vec![make_chunk_with_hash("d", 4, "k", 8)]),
            make_file("damaged", "x", vec![make_chunk_with_hash("e", 4, "m", 0)]),
            make_file("gone", "g", vec![]),
        ],
    };
    let new = SophonManifestProto {
        assets: vec![
            make_file("same", "s", vec![make_chunk_with_hash("c", 4, "h", 0)]),
            make_file("changed", "n", vec![make_chunk_with_hash("d", 4, "k", 0)]),
            make_file("damaged", "x", vec![make_chunk_with_hash("e", 4, "m", 0)]),
        ],
    };
    let update = ManifestUpdate {
        matching_field: "game".into(),
        chunk_download: make_download_info(),
        manifest: new,
        manifest_hash: "hash".into(),
        old: Some(OldManifest {
            manifest: old,
            on_disk: vec![Some(4), Some(4), Some(3), Some(0)],
        }),
    };
    let (installer, deleted) = diff_installer(update);
    let assets = installer.unwrap().manifest.assets;
    let names: Vec<&str> = assets.iter().map(|a| a.asset_name.as_str()).collect();
    assert_eq!(names, vec!["changed", "damaged"]);
    assert_eq!(assets[0].asset_chunks[0].chunk_old_offset, 8);
    assert_eq!(assets[1].asset_chunks[0].chunk_old_offset, -1);
    assert_eq!(deleted, vec!["gone".to_string()]);
}

#[test]
fn resumed_chunks_are_those_on_disk() {
    let mut noted = NameMap::default();
    noted.insert("a".into(), 10);
    noted.insert("b".into(), 20);
    noted.insert("c".into(), 30);
    let mut on_disk = NameMap::default();
    on_disk.insert("a".into(), 10);
    on_disk.insert("b".into(), 19);
    on_disk.insert("c".into(), 30);
    let kept = keep_chunks(&noted, &on_disk, None);
    assert_eq!(kept.len(), 2);
    assert_eq!(kept.get("a"), Some(&10));
    let kept = keep_chunks(&noted, &on_disk, Some(&name_set(&["c"])));
    assert_eq!(kept.len(), 1);
    assert_eq!(kept.get("c"), Some(&30));
}

#[test]
fn scans_spare_whole_files() {
    let files = CompactManifest::new(vec![
        make_file("whole", "w", vec![make_chunk("x", 7)]),
        make_file("broken", "b", vec![make_chunk("y", 5)]),
        make_dir("d"),
    ]);
    let scan = scan_files(&files, &vec![true, false, false]);
    assert_eq!(scan.completed, vec![true, false, true]);
    assert_eq!(scan.to_delete, vec![1]);
    assert_eq!(scan.spared_bytes, 7);
    let seed = CompletedFiles::Legacy(vec!["broken".to_string()]);
    let flags = completion_flags(&files, &seed, &scan.completed);
    assert_eq!(flags.len(), 3);
    assert!(flags[0]);
}

/// An installation of two files that share a chunk, of which one is there.
#[test]
fn an_installation_is_planned() {
    let installer = installer_of(
        vec![
            make_dir("data"),
            make_file("a", "aa", vec![make_chunk("x", 10), make_chunk("y", 20)]),
            make_file("b", "bb", vec![make_chunk("y", 20)]),
        ],
        "hash",
    );
    let resume = ResumeContext {
        prev_manifest_hash: String::new(),
        prev_downloaded_chunks: NameMap::default(),
        resume_seed: CompletedFiles::Indices(vec![]),
    };
    let begun = begin_install(vec![installer], &resume, &NameMap::default());
    assert_eq!(begun.directories, vec!["data".to_string()]);
    assert_eq!(begun.files.len(), 2);
    let plan = plan_install(
        begun.installer_data,
        &begun.owner_of,
        begun.files,
        &begun.kept_chunks,
        &resume.resume_seed,
        None,
    )
    .unwrap();
    assert_eq!(plan.total_bytes, 30);
    assert_eq!(plan.total_files, 2);
    assert_eq!(plan.state.items.len(), 2);
    assert_eq!(plan.state.pending_counts, vec![2, 1]);
}

#[test]
fn failed_files_are_mended() {
    let manifest = SophonManifestProto {
        assets: vec![
            make_dir("d"),
            make_file("good", "g", vec![make_chunk("x", 1)]),
            make_file("bad", "b", vec![make_chunk("y", 2), make_chunk("z", 3)]),
            make_file("worse", "w", vec![make_chunk("y", 2)]),
        ],
    };
    let files = assets_to_check(&vec![manifest]);
    assert_eq!(files.len(), 3);
    let failed = failed_files(files, &vec![true, false, false]);
    let names: Vec<&str> = failed.iter().map(|f| f.asset.asset_name.as_str()).collect();
    assert_eq!(names, vec!["bad", "worse"]);
    let needed = needed_chunks(&failed);
    let chunks: Vec<&str> = needed.iter().map(|c| c.name.as_str()).collect();
    assert_eq!(chunks, vec!["y", "z"]);
    let items = redownload_items(needed, &vec![true, false]);
    assert_eq!(items.len(), 1);
    assert_eq!(redownload_bytes(&items), Some(3));
    assert!(failed_warning("bad").contains("bad"));
    assert!(!verify_dir_name("a/b\\c").contains('/'));
}

#[test]
fn resumed_files_are_checked() {
    let file = make_file("a", "aa", vec![make_chunk("x", 7)]);
    assert_eq!(file_check(&file, true), FileCheck::Digest);
    assert_eq!(file_check(&file, false), FileCheck::Size);
    assert_eq!(file_check(&make_dir("d"), true), FileCheck::Skip);
    let outside = make_file("../a", "aa", vec![make_chunk("x", 7)]);
    assert_eq!(file_check(&outside, false), FileCheck::Skip);
    assert!(size_passes(&file, Some(file.asset_size)));
    assert!(!size_passes(&file, Some(file.asset_size + 1)));
    assert!(!size_passes(&file, None));
}

#[test]
fn filters_of_games() {
    assert_eq!(game_filter("hkrpg"), GameFilter::Hkrpg);
    assert_eq!(game_filter("hk4e"), GameFilter::Hk4e);
    assert_eq!(game_filter("nap"), GameFilter::Nap);
    assert_eq!(game_filter("bh3"), GameFilter::Everything);
}

#[test]
fn unpacked_chunks_are_counted() {
    let mut account = DownloadAccount {
        downloaded_bytes: 5,
        resume_offset: 1,
        chunks_since_save: 2,
        last_report: 3,
    };
    account.settle_unpacked(7);
    assert_eq!(account.downloaded_bytes, 12);
    assert_eq!(account.resume_offset, 1);
    assert_eq!(account.chunks_since_save, 2);
}

/// Mending an installation ends well only where every file was made anew.
#[test]
fn verification_ends_with_the_first_error() {
    assert!(verification_end(vec![]).is_ok());
    assert!(verification_end(vec![Ok(()), Ok(())]).is_ok());
    let results = vec![
        Ok(()),
        Err(SophonError::NoGameManifest),
        Err(SophonError::Cancelled),
    ];
    assert!(matches!(
        verification_end(results),
        Err(SophonError::NoGameManifest)
    ));
}
