//! An installation from its manifests to its downloads.

use vstd::prelude::*;
use crate::collections::new_index_map;
use crate::collections::numbers;
use crate::collections::value_at;
use crate::collections::NameMap;
use crate::manifest::asset_names;
use crate::ordering::as_ints;
use crate::proto_parse::asset_views;
use crate::proto_parse::AssetView;
use crate::proto_parse::SophonManifestAssetProperty;
use crate::text::views;
use super::compact_manifest::all_chunks;
use super::compact_manifest::chunks_before;
use super::compact_manifest::CompactManifest;
use super::download_state::build_download_state;
use super::download_state::files_before;
use super::download_state::planned;
use super::download_state::DownloadState;
use super::download_state::FilesView;
use super::installer::all_files_below;
use super::installer::build_installer_data;
use super::installer::combined_hash;
use super::installer::compute_totals;
use super::installer::data_of;
use super::installer::data_views;
use super::installer::fetched_bytes;
use super::installer::hashes_of;
use super::installer::installer_views;
use super::installer::saturated;
use super::installer::DataView;
use super::installer::InstallerData;
use super::installer::InstallerView;
use super::installer::SophonInstaller;
use super::resume::chunk_kept;
use super::resume::chunk_names;
use super::resume::directories_to_create;
use super::resume::file_owners;
use super::resume::installer_chunks;
use super::resume::installer_directories;
use super::resume::owned;
use super::resume::owners;
use super::resume::recount_files;
use super::resume::resume_chunks;
use super::resume_scan::complete_below;
use super::resume_scan::completion_flags;
use super::resume_scan::deleted_below;
use super::resume_scan::downloaded_bytes;
use super::resume_scan::file_complete;
use super::resume_scan::found_whole;
use super::resume_scan::initial_chunks;
use super::resume_scan::noted_bytes;
use super::resume_scan::noted_complete;
use super::resume_scan::scan_files;
use super::resume_scan::spared_below;
use super::resume_scan::started_chunks;
use super::resume_scan::CompletedFiles;
use super::resume_scan::ResumeScan;

verus! {

/// What an earlier run has noted: its manifests, its chunks and its files.
pub struct ResumeContext {
    pub prev_manifest_hash: String,
    pub prev_downloaded_chunks: NameMap,
    pub resume_seed: CompletedFiles,
}

/// How an installation is run.
#[derive(PartialEq, Eq, Structural, Clone, Copy, Debug)]
pub struct InstallOptions {
    pub is_preinstall: bool,
    pub is_resume: bool,
}

/// An installation whose files are known.
pub struct BegunInstall {
    /// The directories that are created first.
    pub directories: Vec<String>,
    /// Whether the manifests have changed since the run that is resumed.
    pub manifest_changed: bool,
    /// The chunks of that run that are used again.
    pub kept_chunks: NameMap,
    pub installer_data: Vec<InstallerData>,
    pub files: Vec<SophonManifestAssetProperty>,
    /// The installer of each file.
    pub owner_of: NameMap,
}

/// Starts an installation: finds its directories and files, and what of an
/// earlier run can be used.
pub fn begin_install(
    installers: Vec<SophonInstaller>,
    resume: &ResumeContext,
    chunks_on_disk: &NameMap,
) -> (r: BegunInstall)
    ensures
        ({
            let v = installer_views(installers@);
            let n = installers@.len() as int;
            let changed = resume.prev_manifest_hash@ != combined_hash(hashes_of(installers@));
            let listed = if changed {
                Some(chunk_names(installer_chunks(v, n)))
            } else {
                None
            };
            let noted = numbers(resume.prev_downloaded_chunks);
            &&& views(r.directories@) == installer_directories(v, n)
            &&& r.manifest_changed == changed
            &&& forall|name: Seq<char>| #[trigger]
                value_at(numbers(r.kept_chunks), name) == if chunk_kept(
                    noted,
                    numbers(*chunks_on_disk),
                    listed,
                    name,
                ) {
                    Some(noted[name])
                } else {
                    None
                }
            &&& data_views(r.installer_data@) == v.map_values(|i: InstallerView| data_of(i))
            &&& asset_views(r.files@) == all_files_below(v, n)
            &&& numbers(r.owner_of) == owners(
                data_views(r.installer_data@),
                asset_names(asset_views(r.files@)),
                n,
            )
        }),
        forall|n: Seq<char>| #[trigger]
            numbers(r.owner_of).dom().contains(n) ==> numbers(r.owner_of)[n]
                < r.installer_data@.len(),
{
    let directories = directories_to_create(&installers);
    let (kept_chunks, manifest_changed) = resume_chunks(
        &installers,
        resume.prev_manifest_hash.as_str(),
        &resume.prev_downloaded_chunks,
        chunks_on_disk,
    );
    let (installer_data, files) = build_installer_data(installers);
    assert(data_views(installer_data@).len() == installer_data@.len());
    let owner_of = file_owners(&installer_data, &files);
    BegunInstall { directories, manifest_changed, kept_chunks, installer_data, files, owner_of }
}

/// The installers with the number of files that each is left with.
pub open spec fn recounted(
    data: Seq<DataView>,
    owner_of: Map<Seq<char>, u64>,
    files: Seq<Seq<char>>,
) -> Seq<DataView> {
    Seq::new(
        data.len(),
        |i: int|
            DataView { file_count: owned(owner_of, files, files.len() as int, i), ..data[i] },
    )
}

/// Sets the number of files of each installer to those that it is left with.
fn recount(
    data: Vec<InstallerData>,
    owner_of: &NameMap,
    files: &Vec<SophonManifestAssetProperty>,
) -> (r: Vec<InstallerData>)
    requires
        forall|n: Seq<char>| #[trigger]
            numbers(*owner_of).dom().contains(n) ==> numbers(*owner_of)[n] < data@.len(),
    ensures
        data_views(r@) == recounted(
            data_views(data@),
            numbers(*owner_of),
            asset_names(asset_views(files@)),
        ),
{
    let ghost before = data_views(data@);
    let ghost all = asset_names(asset_views(files@));
    let ghost want = recounted(before, numbers(*owner_of), all);
    let counts = recount_files(owner_of, data.len(), files);
    let mut out: Vec<InstallerData> = Vec::new();
    let mut i: usize = 0;
    while i < data.len()
        invariant
            i <= data@.len(),
            counts@.len() == data@.len(),
            before == data_views(data@),
            all == asset_names(asset_views(files@)),
            want == recounted(before, numbers(*owner_of), all),
            forall|k: int|
                0 <= k < counts@.len() ==> #[trigger] counts@[k] == owned(
                    numbers(*owner_of),
                    all,
                    files@.len() as int,
                    k,
                ),
            out@.len() == i,
            forall|k: int| 0 <= k < i ==> #[trigger] out@[k]@ == want[k],
        decreases data@.len() - i,
    {
        let d = &data[i];
        assert(before[i as int] == d@);
        assert(counts@[i as int] == owned(numbers(*owner_of), all, all.len() as int, i as int));
        out.push(
            InstallerData {
                chunk_download: d.chunk_download.clone(),
                file_count: counts[i],
                label: d.label.clone(),
                matching_field: d.matching_field.clone(),
            },
        );
        i += 1;
    }
    assert(data_views(out@) =~= want);
    out
}

/// The number of the first `n` files that one of the first `k` installers has.
proof fn lemma_owned_total(
    data: Seq<DataView>,
    m: Map<Seq<char>, u64>,
    files: Seq<Seq<char>>,
    n: int,
    k: int,
)
    requires
        0 <= k <= data.len(),
        0 <= n <= files.len(),
        data.len() <= u32::MAX,
    ensures
        0 <= owned_sum(m, files, n, k) <= n,
    decreases n,
{
    if n > 0 {
        lemma_owned_total(data, m, files, n - 1, k);
        lemma_owned_step(m, files, n, k);
    } else {
        lemma_owned_none(m, files, k);
    }
}

/// The number of the first `n` files that the first `k` installers have.
spec fn owned_sum(m: Map<Seq<char>, u64>, files: Seq<Seq<char>>, n: int, k: int) -> int
    decreases k,
{
    if k <= 0 {
        0
    } else {
        owned_sum(m, files, n, k - 1) + owned(m, files, n, k - 1)
    }
}

proof fn lemma_owned_none(m: Map<Seq<char>, u64>, files: Seq<Seq<char>>, k: int)
    ensures
        owned_sum(m, files, 0, k) == 0,
    decreases k,
{
    if k > 0 {
        lemma_owned_none(m, files, k - 1);
    }
}

proof fn lemma_owned_step(m: Map<Seq<char>, u64>, files: Seq<Seq<char>>, n: int, k: int)
    requires
        n > 0,
        0 <= k <= u32::MAX,
    ensures
        owned_sum(m, files, n, k) == owned_sum(m, files, n - 1, k) + if (value_at(m, files[n - 1])
            is Some) && value_at(m, files[n - 1])->0 < k {
            1int
        } else {
            0int
        },
    decreases k,
{
    if k > 0 {
        lemma_owned_step(m, files, n, k - 1);
    }
}

proof fn lemma_recounted_fits(
    data: Seq<DataView>,
    m: Map<Seq<char>, u64>,
    files: Seq<Seq<char>>,
    k: int,
)
    requires
        0 <= k <= data.len(),
        data.len() <= u32::MAX,
    ensures
        files_before(recounted(data, m, files), k) == owned_sum(m, files, files.len() as int, k),
        files_before(recounted(data, m, files), k) <= files.len(),
    decreases k,
{
    lemma_owned_total(data, m, files, files.len() as int, k);
    if k > 0 {
        lemma_recounted_fits(data, m, files, k - 1);
    }
}

/// An installation whose downloads are planned.
pub struct InstallPlan {
    pub all_files: CompactManifest,
    pub installer_data: Vec<InstallerData>,
    pub total_bytes: u64,
    pub total_files: u64,
    /// The places of the files that are deleted before they are installed.
    pub to_delete: Vec<usize>,
    pub pre_assembled: u64,
    /// The bytes that need not be downloaded again.
    pub resume_offset: u64,
    pub completion: Vec<bool>,
    pub state: DownloadState,
    /// The bytes noted for each chunk.
    pub noted: Vec<u32>,
}

/// The files that are complete before any download.
pub open spec fn complete_files(all: Seq<AssetView>, valid: Option<Seq<bool>>) -> Seq<bool> {
    Seq::new(
        all.len(),
        |f: int|
            match valid {
                Some(v) => file_complete(all[f], v[f]),
                None => false,
            },
    )
}

/// The chunks that an earlier run has downloaded.
pub open spec fn noted_chunks(
    all: Seq<AssetView>,
    valid: Option<Seq<bool>>,
    kept: Map<Seq<char>, u64>,
) -> (Map<u32, u64>, int) {
    match valid {
        Some(v) => started_chunks(
            all,
            Seq::new(all.len(), |f: int| found_whole(all[f], v[f])),
            kept,
        ),
        None => (Map::empty(), 0),
    }
}

/// The values of a list, if there is one.
pub open spec fn flags_of(v: Option<&Vec<bool>>) -> Option<Seq<bool>> {
    match v {
        Some(x) => Some(x@),
        None => None,
    }
}

/// Plans the downloads of an installation. `files` are those that are left after
/// what the player has removed; `valid` says of each, in a resumed installation,
/// whether the file on disk passed its check. Nothing comes of it when the bytes
/// that need not be downloaded again do not fit 64 bits.
pub fn plan_install(
    installer_data: Vec<InstallerData>,
    owner_of: &NameMap,
    files: Vec<SophonManifestAssetProperty>,
    kept_chunks: &NameMap,
    seed: &CompletedFiles,
    valid: Option<&Vec<bool>>,
) -> (r: Option<InstallPlan>)
    requires
        installer_data@.len() <= u32::MAX,
        files@.len() <= u32::MAX,
        chunks_before(asset_views(files@), files@.len() as int) <= u32::MAX,
        valid matches Some(v) ==> v@.len() == files@.len(),
        forall|n: Seq<char>| #[trigger]
            numbers(*owner_of).dom().contains(n) ==> numbers(*owner_of)[n] < installer_data@.len(),
    ensures
        ({
            let all = asset_views(files@);
            let n = all.len() as int;
            let data = recounted(data_views(installer_data@), numbers(*owner_of), asset_names(all));
            let completed = complete_files(all, flags_of(valid));
            let (pre, bytes) = noted_chunks(all, flags_of(valid), numbers(*kept_chunks));
            let spared = match flags_of(valid) {
                Some(v) => spared_below(all, v, n),
                None => 0,
            };
            let s = planned(FilesView { all, completed, pre }, data, data.len() as int);
            match r {
                None => spared + bytes > u64::MAX,
                Some(plan) => {
                    &&& plan.all_files@ == all
                    &&& plan.all_files.wf()
                    &&& data_views(plan.installer_data@) == data
                    &&& plan.total_bytes == saturated(fetched_bytes(all_chunks(all)))
                    &&& plan.total_files == n
                    &&& plan.resume_offset == spared + bytes
                    &&& plan.completion@ == Seq::new(
                        all.len(),
                        |f: int| noted_complete(all, *seed, f) || completed[f],
                    )
                    &&& plan.state.wf()
                    &&& plan.state.shows(all, s.plan)
                    &&& plan.state.ready@ == s.ready
                    &&& plan.noted@ == noted_bytes(all, s.plan.items, pre)
                    &&& match flags_of(valid) {
                        Some(v) => {
                            &&& plan.pre_assembled == complete_below(all, v, n)
                            &&& as_ints(plan.to_delete@)
                                == deleted_below(all, v, n)
                        },
                        None => plan.pre_assembled == 0 && plan.to_delete@.len() == 0,
                    }
                },
            }
        }),
{
    let ghost all = asset_views(files@);
    let ghost m = numbers(*owner_of);
    let ghost start = data_views(installer_data@);
    let installer_data = recount(installer_data, owner_of, &files);
    let ghost data = data_views(installer_data@);
    assert(data.len() == installer_data@.len());
    let all_files = CompactManifest::new(files);
    let n: usize = all_files.num_files();
    let (total_bytes, total_files) = compute_totals(&all_files);
    let scan = match valid {
        Some(v) => scan_files(&all_files, v),
        None => {
            let mut none: Vec<bool> = Vec::new();
            let mut also: Vec<bool> = Vec::new();
            let mut i: usize = 0;
            while i < n
                invariant
                    i <= n,
                    none@.len() == i,
                    also@.len() == i,
                    forall|k: int| 0 <= k < i ==> #[trigger] none@[k] == false,
                decreases n - i,
            {
                none.push(false);
                also.push(false);
                i += 1;
            }
            ResumeScan {
                completed: none,
                whole: also,
                to_delete: Vec::new(),
                pre_assembled: 0,
                spared_bytes: 0,
            }
        },
    };
    assert(scan.completed@ =~= complete_files(all, flags_of(valid)));
    let (pre, resume_offset) = match valid {
        Some(_) => match initial_chunks(&all_files, &scan.whole, kept_chunks, scan.spared_bytes) {
            Some(x) => x,
            None => return None,
        },
        None => (new_index_map(), 0u64),
    };
    let completion = completion_flags(&all_files, seed, &scan.completed);
    proof {
        lemma_recounted_fits(start, m, asset_names(all), start.len() as int);
    }
    let state = build_download_state(&all_files, &installer_data, &scan.completed, &pre);
    let noted = downloaded_bytes(&all_files, &state.items, &pre);
    Some(
        InstallPlan {
            all_files,
            installer_data,
            total_bytes,
            total_files,
            to_delete: scan.to_delete,
            pre_assembled: scan.pre_assembled,
            resume_offset,
            completion,
            state,
            noted,
        },
    )
}

} // verus!
