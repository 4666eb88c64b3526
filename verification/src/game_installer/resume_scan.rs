//! Which files an interrupted installation has finished, and how far its chunks
//! got.

use vstd::prelude::*;
use crate::collections::new_index_map;
use crate::collections::new_name_map;
use crate::collections::number_at;
use crate::collections::numbers;
use crate::collections::put_number;
use crate::collections::put_size;
use crate::collections::size_at;
use crate::collections::sizes_of;
use crate::collections::value_at;
use crate::collections::IndexMap;
use crate::collections::NameMap;
use crate::ordering::as_ints;
use crate::proto_parse::AssetView;
use crate::proto_parse::ChunkView;
use crate::proto_parse::SophonManifestAssetProperty;
use crate::text::views;
use super::compact_manifest::chunks_before;
use super::compact_manifest::CompactManifest;
use super::download_plan::item_refers;
use super::download_plan::DownloadItem;
use super::installer::saturated;
use super::names::asset_name_fault;
use super::names::validate_asset_name;

verus! {

/// A file has nothing to download: it has no chunks, or is a directory.
pub open spec fn nothing_to_fetch(a: AssetView) -> bool {
    a.chunks.len() == 0 || a.is_directory()
}

/// A file is found whole on disk. A name that may lead out of the game directory
/// is not looked at.
pub open spec fn found_whole(a: AssetView, valid: bool) -> bool {
    !nothing_to_fetch(a) && asset_name_fault(a.name) is None && valid
}

/// A file is complete.
pub open spec fn file_complete(a: AssetView, valid: bool) -> bool {
    nothing_to_fetch(a) || found_whole(a, valid)
}

/// How a file on disk is checked when an installation is resumed.
#[derive(PartialEq, Eq, Structural, Clone, Copy, Debug)]
pub enum FileCheck {
    /// Not at all.
    Skip,
    /// By its size.
    Size,
    /// By its size and its digest.
    Digest,
}

/// How a file on disk is checked: by its digest where the manifests have changed,
/// and by its size otherwise.
pub open spec fn check_of(a: AssetView, manifest_changed: bool) -> FileCheck {
    if nothing_to_fetch(a) || asset_name_fault(a.name) is Some {
        FileCheck::Skip
    } else if manifest_changed {
        FileCheck::Digest
    } else {
        FileCheck::Size
    }
}

/// How a file on disk is checked.
pub fn file_check(asset: &SophonManifestAssetProperty, manifest_changed: bool) -> (r: FileCheck)
    ensures
        r == check_of(asset@, manifest_changed),
{
    if asset.asset_chunks.len() == 0 || asset.is_directory() || validate_asset_name(
        asset.asset_name.as_str(),
    ).is_err() {
        FileCheck::Skip
    } else if manifest_changed {
        FileCheck::Digest
    } else {
        FileCheck::Size
    }
}

/// Whether a file that is checked by its size passes.
pub fn size_passes(asset: &SophonManifestAssetProperty, on_disk: Option<u64>) -> (r: bool)
    ensures
        r == (on_disk == Some(asset@.size)),
{
    match on_disk {
        Some(size) => size == asset.asset_size,
        None => false,
    }
}

/// One of the chunks comes from the old file.
pub open spec fn needs_old_file(chunks: Seq<ChunkView>) -> bool {
    exists|c: int| 0 <= c < chunks.len() && (#[trigger] chunks[c]).old_offset >= 0
}

/// What is left of a file is deleted: it is not whole, and nothing in it is used.
pub open spec fn file_deleted(a: AssetView, valid: bool) -> bool {
    !nothing_to_fetch(a) && asset_name_fault(a.name) is None && !valid && !needs_old_file(a.chunks)
}

/// The bytes that the first `k` chunks take to download.
pub open spec fn chunk_bytes_below(chunks: Seq<ChunkView>, k: int) -> int
    decreases k,
{
    if k <= 0 {
        0
    } else {
        chunk_bytes_below(chunks, k - 1) + if chunks[k - 1].old_offset < 0 {
            chunks[k - 1].size as int
        } else {
            0
        }
    }
}

/// The bytes that a file that was found whole need not be downloaded again.
pub open spec fn spared_bytes(a: AssetView, valid: bool) -> int {
    if found_whole(a, valid) {
        saturated(chunk_bytes_below(a.chunks, a.chunks.len() as int))
    } else {
        0
    }
}

/// The bytes that the first `n` files need not be downloaded again, counted with
/// 64 bits.
pub open spec fn spared_below(all: Seq<AssetView>, valid: Seq<bool>, n: int) -> int
    decreases n,
{
    if n <= 0 {
        0
    } else {
        (spared_below(all, valid, n - 1) + spared_bytes(all[n - 1], valid[n - 1]))
            % 0x1_0000_0000_0000_0000
    }
}

/// The number of complete files among the first `n`.
pub open spec fn complete_below(all: Seq<AssetView>, valid: Seq<bool>, n: int) -> int
    decreases n,
{
    if n <= 0 {
        0
    } else {
        complete_below(all, valid, n - 1) + if file_complete(all[n - 1], valid[n - 1]) {
            1int
        } else {
            0int
        }
    }
}

/// The places of the files among the first `n` that are deleted.
pub open spec fn deleted_below(all: Seq<AssetView>, valid: Seq<bool>, n: int) -> Seq<int>
    decreases n,
{
    if n <= 0 {
        Seq::empty()
    } else if file_deleted(all[n - 1], valid[n - 1]) {
        deleted_below(all, valid, n - 1).push(n - 1)
    } else {
        deleted_below(all, valid, n - 1)
    }
}

/// What a look at the disk finds of an interrupted installation: which files are
/// complete, which of them were found whole, which are deleted, the number of
/// complete files, and the bytes that need not be downloaded again.
pub struct ResumeScan {
    pub completed: Vec<bool>,
    pub whole: Vec<bool>,
    pub to_delete: Vec<usize>,
    pub pre_assembled: u64,
    pub spared_bytes: u64,
}

/// The bytes that the chunks of a file take to download.
fn file_bytes(all_files: &CompactManifest, f: usize) -> (r: u64)
    requires
        f < all_files@.len(),
    ensures
        r == saturated(
            chunk_bytes_below(
                all_files@[f as int].chunks,
                all_files@[f as int].chunks.len() as int,
            ),
        ),
{
    let ghost chunks = all_files@[f as int].chunks;
    let m: usize = all_files.file_chunk_count(f);
    let mut total: u64 = 0;
    let mut c: usize = 0;
    while c < m
        invariant
            c <= m,
            f < all_files@.len(),
            chunks == all_files@[f as int].chunks,
            m == chunks.len(),
            chunk_bytes_below(chunks, c as int) >= 0,
            total == saturated(chunk_bytes_below(chunks, c as int)),
        decreases m - c,
    {
        let chunk = all_files.file_chunk(f, c);
        if chunk.chunk_old_offset < 0 {
            total = total.saturating_add(chunk.chunk_size);
        }
        c += 1;
    }
    total
}

/// Whether one of the chunks of a file comes from the old file.
fn file_needs_old(all_files: &CompactManifest, f: usize) -> (r: bool)
    requires
        f < all_files@.len(),
    ensures
        r == needs_old_file(all_files@[f as int].chunks),
{
    let m: usize = all_files.file_chunk_count(f);
    let mut c: usize = 0;
    while c < m
        invariant
            c <= m,
            f < all_files@.len(),
            m == all_files@[f as int].chunks.len(),
            forall|j: int|
                0 <= j < c ==> (#[trigger] all_files@[f as int].chunks[j]).old_offset < 0,
        decreases m - c,
    {
        if all_files.file_chunk(f, c).chunk_old_offset >= 0 {
            assert(all_files@[f as int].chunks[c as int].old_offset >= 0);
            return true;
        }
        c += 1;
    }
    false
}

/// Takes stock of the files: `valid` says of each whether the file on disk passed
/// its check.
pub fn scan_files(all_files: &CompactManifest, valid: &Vec<bool>) -> (r: ResumeScan)
    requires
        valid@.len() == all_files@.len(),
    ensures
        ({
            let all = all_files@;
            let n = all.len() as int;
            &&& r.completed@ == Seq::new(all.len(), |f: int| file_complete(all[f], valid@[f]))
            &&& r.whole@ == Seq::new(all.len(), |f: int| found_whole(all[f], valid@[f]))
            &&& as_ints(r.to_delete@) == deleted_below(all, valid@, n)
            &&& r.pre_assembled == complete_below(all, valid@, n)
            &&& r.spared_bytes == spared_below(all, valid@, n)
        }),
{
    let ghost all = all_files@;
    let n: usize = all_files.num_files();
    let mut completed: Vec<bool> = Vec::new();
    let mut whole: Vec<bool> = Vec::new();
    let mut to_delete: Vec<usize> = Vec::new();
    let mut pre_assembled: u64 = 0;
    let mut spared: u64 = 0;
    let mut f: usize = 0;
    assert(as_ints(to_delete@) =~= deleted_below(all, valid@, 0));
    while f < n
        invariant
            f <= n,
            n == all.len(),
            n == valid@.len(),
            all == all_files@,
            completed@.len() == f,
            whole@.len() == f,
            forall|j: int| 0 <= j < f ==> #[trigger] completed@[j] == file_complete(all[j], valid@[j]),
            forall|j: int| 0 <= j < f ==> #[trigger] whole@[j] == found_whole(all[j], valid@[j]),
            as_ints(to_delete@) == deleted_below(all, valid@, f as int),
            pre_assembled == complete_below(all, valid@, f as int),
            pre_assembled <= f,
            spared == spared_below(all, valid@, f as int),
        decreases n - f,
    {
        let ghost before = as_ints(to_delete@);
        let idle = all_files.file_chunk_count(f) == 0 || all_files.is_directory(f);
        let named = validate_asset_name(all_files.file_name(f)).is_ok();
        let is_whole = !idle && named && valid[f];
        if is_whole {
            spared = spared.wrapping_add(file_bytes(all_files, f));
        } else if !idle && named && !file_needs_old(all_files, f) {
            to_delete.push(f);
            assert(as_ints(to_delete@) =~= before.push(f as int));
        }
        if idle || is_whole {
            pre_assembled = pre_assembled + 1;
        }
        completed.push(idle || is_whole);
        whole.push(is_whole);
        f += 1;
    }
    proof {
        assert(completed@ =~= Seq::new(all.len(), |f: int| file_complete(all[f], valid@[f])));
        assert(whole@ =~= Seq::new(all.len(), |f: int| found_whole(all[f], valid@[f])));
    }
    ResumeScan { completed, whole, to_delete, pre_assembled, spared_bytes: spared }
}

/// No file is both complete and deleted, and a file from which chunks are taken
/// is not deleted.
pub proof fn law_scan_keeps_what_is_used(a: AssetView, valid: bool)
    ensures
        !(file_complete(a, valid) && file_deleted(a, valid)),
        needs_old_file(a.chunks) ==> !file_deleted(a, valid),
{
}

/// The chunks of the first `k` of file `f`, and of all files before, that an
/// earlier run has downloaded: their places and sizes. Files that were found
/// whole need none.
pub open spec fn started(
    all: Seq<AssetView>,
    whole: Seq<bool>,
    noted: Map<Seq<char>, u64>,
    f: int,
    k: int,
) -> (Map<u32, u64>, int)
    decreases f, k,
{
    if f < 0 {
        (Map::empty(), 0)
    } else if k <= 0 {
        if f <= 0 {
            (Map::empty(), 0)
        } else {
            started(all, whole, noted, f - 1, all[f - 1].chunks.len() as int)
        }
    } else {
        let (m, bytes) = started(all, whole, noted, f, k - 1);
        let c = all[f].chunks[k - 1];
        if noted.dom().contains(c.name) && !whole[f] {
            (
                m.insert((chunks_before(all, f) + k - 1) as u32, noted[c.name]),
                bytes + noted[c.name],
            )
        } else {
            (m, bytes)
        }
    }
}

/// The chunks that an earlier run has downloaded for files that are not complete.
pub open spec fn started_chunks(
    all: Seq<AssetView>,
    whole: Seq<bool>,
    noted: Map<Seq<char>, u64>,
) -> (Map<u32, u64>, int) {
    started(all, whole, noted, all.len() as int, 0)
}

proof fn lemma_started_grows(
    all: Seq<AssetView>,
    whole: Seq<bool>,
    noted: Map<Seq<char>, u64>,
    f: int,
    k: int,
)
    ensures
        started(all, whole, noted, f, k).1 >= 0,
        k > 0 ==> started(all, whole, noted, f, k - 1).1 <= started(all, whole, noted, f, k).1,
    decreases f, k,
{
    if f >= 0 {
        if k > 0 {
            lemma_started_grows(all, whole, noted, f, k - 1);
        } else if f > 0 {
            lemma_started_grows(all, whole, noted, f - 1, all[f - 1].chunks.len() as int);
        }
    }
}

/// Less of the files has no more bytes.
proof fn lemma_started_monotone(
    all: Seq<AssetView>,
    whole: Seq<bool>,
    noted: Map<Seq<char>, u64>,
    f: int,
    k: int,
    n: int,
)
    requires
        0 <= f < n <= all.len(),
        0 <= k <= all[f].chunks.len(),
    ensures
        started(all, whole, noted, f, k).1 <= started(all, whole, noted, n, 0).1,
    decreases n - f, all[f].chunks.len() - k,
{
    if k < all[f].chunks.len() {
        lemma_started_grows(all, whole, noted, f, k + 1);
        lemma_started_monotone(all, whole, noted, f, k + 1, n);
    } else {
        assert(started(all, whole, noted, f + 1, 0) == started(all, whole, noted, f, k));
        if f + 1 < n {
            lemma_started_monotone(all, whole, noted, f + 1, 0, n);
        }
    }
}

/// The chunks that an earlier run has downloaded for files that are not complete,
/// and the bytes that need not be downloaded again in all; nothing when those do
/// not fit 64 bits.
pub fn initial_chunks(
    all_files: &CompactManifest,
    whole: &Vec<bool>,
    noted: &NameMap,
    spared: u64,
) -> (r: Option<(IndexMap, u64)>)
    requires
        all_files.wf(),
        whole@.len() == all_files@.len(),
    ensures
        ({
            let (m, bytes) = started_chunks(all_files@, whole@, numbers(*noted));
            match r {
                Some((map, total)) => sizes_of(map) == m && total == spared + bytes,
                None => spared + bytes > u64::MAX,
            }
        }),
{
    let ghost all = all_files@;
    let ghost d = numbers(*noted);
    let n: usize = all_files.num_files();
    let mut map = new_index_map();
    let mut total: u64 = spared;
    let mut f: usize = 0;
    while f < n
        invariant
            f <= n,
            n == all.len(),
            n == whole@.len(),
            all == all_files@,
            all_files.wf(),
            d == numbers(*noted),
            sizes_of(map) == started(all, whole@, d, f as int, 0).0,
            total == spared + started(all, whole@, d, f as int, 0).1,
        decreases n - f,
    {
        let (first, _) = all_files.file_chunk_range(f);
        let m: usize = all_files.file_chunk_count(f);
        let mut c: usize = 0;
        while c < m
            invariant
                c <= m,
                f < n,
                n == all.len(),
                n == whole@.len(),
                all == all_files@,
                all_files.wf(),
                m == all[f as int].chunks.len(),
                first == chunks_before(all, f as int),
                first + m <= u32::MAX,
                d == numbers(*noted),
                sizes_of(map) == started(all, whole@, d, f as int, c as int).0,
                total == spared + started(all, whole@, d, f as int, c as int).1,
            decreases m - c,
        {
            let chunk = all_files.file_chunk(f, c);
            match number_at(noted, chunk.chunk_name.as_str()) {
                Some(size) => {
                    if !whole[f] {
                        put_size(&mut map, first + c as u32, size);
                        match total.checked_add(size) {
                            Some(t) => {
                                total = t;
                            },
                            None => {
                                proof {
                                    lemma_started_monotone(
                                        all,
                                        whole@,
                                        d,
                                        f as int,
                                        c as int + 1,
                                        n as int,
                                    );
                                }
                                return None;
                            },
                        }
                    }
                },
                None => {},
            }
            c += 1;
        }
        assert(started(all, whole@, d, f as int + 1, 0) == started(
            all,
            whole@,
            d,
            f as int,
            m as int,
        ));
        f += 1;
    }
    Some((map, total))
}

/// The bytes noted for each chunk that is downloaded, as 32 bits.
pub open spec fn noted_bytes(
    all: Seq<AssetView>,
    items: Seq<DownloadItem>,
    pre: Map<u32, u64>,
) -> Seq<u32> {
    items.map_values(
        |item: DownloadItem|
            match value_at(
                pre,
                (chunks_before(all, item.file_idx as int) + item.chunk_idx) as u32,
            ) {
                Some(size) => size as u32,
                None => 0u32,
            },
    )
}

/// The bytes noted for each chunk that is downloaded.
pub fn downloaded_bytes(
    all_files: &CompactManifest,
    items: &Vec<DownloadItem>,
    pre_downloaded: &IndexMap,
) -> (r: Vec<u32>)
    requires
        all_files.wf(),
        forall|i: int|
            0 <= i < items@.len() ==> item_refers(all_files@, #[trigger] items@[i]),
    ensures
        r@ == noted_bytes(all_files@, items@, sizes_of(*pre_downloaded)),
{
    let ghost all = all_files@;
    let mut out: Vec<u32> = Vec::new();
    let mut i: usize = 0;
    while i < items.len()
        invariant
            i <= items@.len(),
            all == all_files@,
            all_files.wf(),
            forall|j: int| 0 <= j < items@.len() ==> item_refers(all, #[trigger] items@[j]),
            out@.len() == i,
            forall|j: int|
                0 <= j < i ==> #[trigger] out@[j] == noted_bytes(
                    all,
                    items@,
                    sizes_of(*pre_downloaded),
                )[j],
        decreases items@.len() - i,
    {
        let item: DownloadItem = items[i];
        assert(item_refers(all, items@[i as int]));
        let (first, _) = all_files.file_chunk_range(item.file_idx as usize);
        let size: u32 = match size_at(pre_downloaded, first + item.chunk_idx) {
            Some(s) => s as u32,
            None => 0,
        };
        out.push(size);
        i += 1;
    }
    assert(out@ =~= noted_bytes(all, items@, sizes_of(*pre_downloaded)));
    out
}

/// The files that an earlier run has noted as complete: by their places, or, in
/// notes of an older form, by their names.
pub enum CompletedFiles {
    Indices(Vec<usize>),
    Legacy(Vec<String>),
}

/// The place of the last file with a name.
pub open spec fn is_last_named(all: Seq<AssetView>, f: int) -> bool {
    forall|g: int| f < g < all.len() ==> (#[trigger] all[g]).name != all[f].name
}

/// The notes say that file `f` is complete. Of files with one name, notes by
/// name mean the last.
pub open spec fn noted_complete(all: Seq<AssetView>, seed: CompletedFiles, f: int) -> bool {
    match seed {
        CompletedFiles::Indices(v) => as_ints(v@).contains(f),
        CompletedFiles::Legacy(v) => views(v@).contains(all[f].name) && is_last_named(all, f),
    }
}

/// Which files are complete: those that the notes name, and those that were found
/// so on disk. A place in the notes that no file has is passed over.
pub fn completion_flags(
    all_files: &CompactManifest,
    seed: &CompletedFiles,
    completed: &Vec<bool>,
) -> (r: Vec<bool>)
    requires
        completed@.len() == all_files@.len(),
    ensures
        r@ == Seq::new(
            all_files@.len(),
            |f: int| noted_complete(all_files@, *seed, f) || completed@[f],
        ),
{
    let ghost all = all_files@;
    let n: usize = all_files.num_files();
    let mut flags: Vec<bool> = Vec::new();
    let mut z: usize = 0;
    while z < n
        invariant
            z <= n,
            n == completed@.len(),
            flags@.len() == z,
            forall|f: int| 0 <= f < z ==> #[trigger] flags@[f] == completed@[f],
        decreases n - z,
    {
        flags.push(completed[z]);
        z += 1;
    }
    match seed {
        CompletedFiles::Indices(v) => {
            let mut i: usize = 0;
            while i < v.len()
                invariant
                    i <= v@.len(),
                    flags@.len() == n,
                    n == all.len(),
                    n == completed@.len(),
                    forall|f: int|
                        0 <= f < n ==> #[trigger] flags@[f] == (as_ints(v@).take(
                            i as int,
                        ).contains(f) || completed@[f]),
                decreases v@.len() - i,
            {
                let ghost before = flags@;
                if v[i] < n {
                    flags.set(v[i], true);
                }
                proof {
                    let p = as_ints(v@).take(i as int);
                    let q = as_ints(v@).take(i as int + 1);
                    assert forall|f: int| 0 <= f < n implies #[trigger] flags@[f] == (q.contains(f)
                        || completed@[f]) by {
                        assert(before[f] == (p.contains(f) || completed@[f]));
                        if p.contains(f) {
                            let k = choose|k: int| 0 <= k < p.len() && p[k] == f;
                            assert(q[k] == f);
                        }
                        if q.contains(f) {
                            let k = choose|k: int| 0 <= k < q.len() && q[k] == f;
                            if k < i {
                                assert(p[k] == f);
                            }
                        }
                        assert(q[i as int] == v@[i as int]);
                    }
                }
                i += 1;
            }
            assert(as_ints(v@).take(v@.len() as int) =~= as_ints(v@));
        },
        CompletedFiles::Legacy(v) => {
            let by_name = last_places(all_files);
            let mut i: usize = 0;
            while i < v.len()
                invariant
                    i <= v@.len(),
                    flags@.len() == n,
                    n == all.len(),
                    all == all_files@,
                    n == completed@.len(),
                    forall|f: int|
                        0 <= f < n ==> (value_at(numbers(by_name), (#[trigger] all[f]).name) == Some(
                            f as u64,
                        ) <==> is_last_named(all, f)),
                    forall|m: Seq<char>| #[trigger]
                        numbers(by_name).dom().contains(m) ==> numbers(by_name)[m] < n
                            && all[numbers(by_name)[m] as int].name == m,
                    forall|f: int|
                        0 <= f < n ==> #[trigger] flags@[f] == ((views(v@).take(
                            i as int,
                        ).contains(all[f].name) && is_last_named(all, f)) || completed@[f]),
                decreases v@.len() - i,
            {
                let ghost before = flags@;
                assert(views(v@)[i as int] == v@[i as int]@);
                match number_at(&by_name, v[i].as_str()) {
                    Some(f) => {
                        assert(numbers(by_name).dom().contains(v@[i as int]@));
                        flags.set(f as usize, true);
                    },
                    None => {},
                }
                proof {
                    let p = views(v@).take(i as int);
                    let q = views(v@).take(i as int + 1);
                    let name = v@[i as int]@;
                    assert forall|f: int| 0 <= f < n implies #[trigger] flags@[f] == ((q.contains(
                        all[f].name,
                    ) && is_last_named(all, f)) || completed@[f]) by {
                        let x = all[f].name;
                        assert(before[f] == ((p.contains(x) && is_last_named(all, f))
                            || completed@[f]));
                        if p.contains(x) {
                            let k = choose|k: int| 0 <= k < p.len() && p[k] == x;
                            assert(q[k] == x);
                        }
                        if q.contains(x) {
                            let k = choose|k: int| 0 <= k < q.len() && q[k] == x;
                            if k < i {
                                assert(p[k] == x);
                            }
                        }
                        assert(q[i as int] == name);
                        assert(value_at(numbers(by_name), x) == Some(f as u64) <==> is_last_named(
                            all,
                            f,
                        ));
                    }
                }
                i += 1;
            }
            assert(views(v@).take(v@.len() as int) =~= views(v@));
        },
    }
    assert(flags@ =~= Seq::new(
        all_files@.len(),
        |f: int| noted_complete(all_files@, *seed, f) || completed@[f],
    ));
    flags
}

/// The place of the last file with each name.
fn last_places(all_files: &CompactManifest) -> (r: NameMap)
    ensures
        forall|f: int|
            0 <= f < all_files@.len() ==> (value_at(numbers(r), (#[trigger] all_files@[f]).name)
                == Some(f as u64) <==> is_last_named(all_files@, f)),
        forall|m: Seq<char>| #[trigger]
            numbers(r).dom().contains(m) ==> numbers(r)[m] < all_files@.len()
                && all_files@[numbers(r)[m] as int].name == m,
{
    let ghost all = all_files@;
    let n: usize = all_files.num_files();
    let mut map = new_name_map();
    let mut i: usize = 0;
    while i < n
        invariant
            i <= n,
            n == all.len(),
            all == all_files@,
            forall|m: Seq<char>| #[trigger]
                numbers(map).dom().contains(m) ==> numbers(map)[m] < i
                    && all[numbers(map)[m] as int].name == m && forall|g: int|
                    numbers(map)[m] < g < i ==> (#[trigger] all[g]).name != m,
            forall|f: int| 0 <= f < i ==> numbers(map).dom().contains((#[trigger] all[f]).name),
        decreases n - i,
    {
        let ghost before = numbers(map);
        put_number(&mut map, all_files.file_name(i).to_owned(), i as u64);
        proof {
            let x = all[i as int].name;
            assert forall|m: Seq<char>| #[trigger] numbers(map).dom().contains(m) implies numbers(
                map,
            )[m] < i + 1 && all[numbers(map)[m] as int].name == m && forall|g: int|
                numbers(map)[m] < g < i + 1 ==> (#[trigger] all[g]).name != m by {
                if m != x {
                    assert(before.dom().contains(m));
                }
            }
        }
        i += 1;
    }
    proof {
        assert forall|f: int| 0 <= f < all.len() implies (value_at(
            numbers(map),
            (#[trigger] all[f]).name,
        ) == Some(f as u64) <==> is_last_named(all, f)) by {
            let x = all[f].name;
            assert(numbers(map).dom().contains(x));
            let g = numbers(map)[x] as int;
            if is_last_named(all, f) && g != f {
                if g > f {
                    assert(all[g].name != x);
                } else {
                    assert(all[f].name != x);
                }
            }
        }
    }
    map
}

/// The bytes that are reported as downloaded at the end: never more than there
/// are.
pub fn reported_bytes(downloaded: u64, total: u64) -> (r: u64)
    ensures
        r == if downloaded > total {
            total
        } else {
            downloaded
        },
{
    if downloaded > total {
        total
    } else {
        downloaded
    }
}

} // verus!
