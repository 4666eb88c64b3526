//! Checking an installation, and mending what fails.

use vstd::prelude::*;
use crate::collections::add_name;
use crate::collections::names;
use crate::collections::new_name_set;
use crate::progress::SophonProgress;
use crate::proto_parse::asset_views;
use crate::proto_parse::AssetView;
use crate::proto_parse::ChunkView;
use crate::proto_parse::SophonManifestAssetProperty;
use crate::proto_parse::SophonManifestProto;
use crate::strings::replace_any;
use crate::strings::replaced_any;
use super::error::ErrorView;
use super::error::SophonError;
use super::error::SophonResult;
use super::flow::drain_results;
use super::flow::fault_of;
use super::flow::first_fault;
use super::names::asset_name_fault;
use super::names::chunk_name_ok;
use super::names::validate_asset_name;
use super::names::validate_chunk_name;

verus! {

/// A file that is checked, and the manifest that it is from.
pub struct CheckedAsset {
    pub asset: SophonManifestAssetProperty,
    pub source: usize,
}

/// What some files to check say.
pub open spec fn checked_views(v: Seq<CheckedAsset>) -> Seq<(AssetView, int)> {
    v.map_values(|c: CheckedAsset| (c.asset@, c.source as int))
}

/// The manifests' assets.
pub open spec fn manifest_views(v: Seq<SophonManifestProto>) -> Seq<Seq<AssetView>> {
    v.map_values(|m: SophonManifestProto| m@)
}

/// The files among the first `k` assets of the manifest at `i`.
pub open spec fn files_from(assets: Seq<AssetView>, i: int, k: int) -> Seq<(AssetView, int)>
    decreases k,
{
    if k <= 0 {
        Seq::empty()
    } else if assets[k - 1].is_directory() {
        files_from(assets, i, k - 1)
    } else {
        files_from(assets, i, k - 1).push((assets[k - 1], i))
    }
}

/// The files of the first `n` manifests.
pub open spec fn all_files_from(v: Seq<Seq<AssetView>>, n: int) -> Seq<(AssetView, int)>
    decreases n,
{
    if n <= 0 {
        Seq::empty()
    } else {
        all_files_from(v, n - 1) + files_from(v[n - 1], n - 1, v[n - 1].len() as int)
    }
}

/// The files of an installation, each with its manifest.
pub fn assets_to_check(manifests: &Vec<SophonManifestProto>) -> (r: Vec<CheckedAsset>)
    ensures
        checked_views(r@) == all_files_from(manifest_views(manifests@), manifests@.len() as int),
{
    let ghost v = manifest_views(manifests@);
    let mut out: Vec<CheckedAsset> = Vec::new();
    let mut i: usize = 0;
    assert(checked_views(out@) =~= all_files_from(v, 0));
    while i < manifests.len()
        invariant
            i <= manifests@.len(),
            v == manifest_views(manifests@),
            checked_views(out@) == all_files_from(v, i as int),
        decreases manifests@.len() - i,
    {
        let assets = &manifests[i].assets;
        let ghost all = asset_views(assets@);
        assert(v[i as int] == all);
        let ghost head = checked_views(out@);
        let mut k: usize = 0;
        assert(head + files_from(all, i as int, 0) =~= head);
        while k < assets.len()
            invariant
                k <= assets@.len(),
                all == asset_views(assets@),
                checked_views(out@) == head + files_from(all, i as int, k as int),
            decreases assets@.len() - k,
        {
            let a = &assets[k];
            assert(all[k as int] == a@);
            let ghost before = checked_views(out@);
            if !a.is_directory() {
                out.push(CheckedAsset { asset: a.clone(), source: i });
                assert(checked_views(out@) =~= before.push((a@, i as int)));
                assert(checked_views(out@) =~= head + files_from(all, i as int, k as int + 1));
            }
            k += 1;
        }
        i += 1;
    }
    out
}

/// A file has failed its check. A file whose name may lead out of the game
/// directory is not checked.
pub open spec fn check_failed(a: AssetView, valid: bool) -> bool {
    asset_name_fault(a.name) is None && !valid
}

/// Those of the first `n` files that have failed.
pub open spec fn failed_below(files: Seq<(AssetView, int)>, valid: Seq<bool>, n: int) -> Seq<
    (AssetView, int),
>
    decreases n,
{
    if n <= 0 {
        Seq::empty()
    } else if check_failed(files[n - 1].0, valid[n - 1]) {
        failed_below(files, valid, n - 1).push(files[n - 1])
    } else {
        failed_below(files, valid, n - 1)
    }
}

/// The files that have failed their check: `valid` says how each went.
pub fn failed_files(files: Vec<CheckedAsset>, valid: &Vec<bool>) -> (r: Vec<CheckedAsset>)
    requires
        valid@.len() == files@.len(),
    ensures
        checked_views(r@) == failed_below(checked_views(files@), valid@, files@.len() as int),
{
    let ghost all = checked_views(files@);
    let mut out: Vec<CheckedAsset> = Vec::new();
    let mut i: usize = 0;
    assert(checked_views(out@) =~= failed_below(all, valid@, 0));
    while i < files.len()
        invariant
            i <= files@.len(),
            valid@.len() == files@.len(),
            all == checked_views(files@),
            checked_views(out@) == failed_below(all, valid@, i as int),
        decreases files@.len() - i,
    {
        let f = &files[i];
        assert(all[i as int] == (f.asset@, f.source as int));
        let ghost before = checked_views(out@);
        if validate_asset_name(f.asset.asset_name.as_str()).is_ok() && !valid[i] {
            out.push(CheckedAsset { asset: f.asset.clone(), source: f.source });
            assert(checked_views(out@) =~= before.push(all[i as int]));
        }
        i += 1;
    }
    out
}

/// A chunk that may have to be downloaded again, and the manifest that it is from.
pub struct RedownloadItem {
    pub name: String,
    pub size: u64,
    pub compressed_md5: String,
    pub source: usize,
}

/// What a chunk to download again says.
pub ghost struct RedownloadView {
    pub name: Seq<char>,
    pub size: u64,
    pub compressed_md5: Seq<char>,
    pub source: int,
}

impl View for RedownloadItem {
    type V = RedownloadView;

    open spec fn view(&self) -> RedownloadView {
        RedownloadView {
            name: self.name@,
            size: self.size,
            compressed_md5: self.compressed_md5@,
            source: self.source as int,
        }
    }
}

/// What each of some chunks says.
pub open spec fn redownload_views(v: Seq<RedownloadItem>) -> Seq<RedownloadView> {
    v.map_values(|i: RedownloadItem| i@)
}

/// The chunks seen so far, and their names.
pub ghost struct Gathered {
    pub items: Seq<RedownloadView>,
    pub seen: Set<Seq<char>>,
}

/// `g` with a chunk, unless its name was seen.
pub open spec fn with_needed(g: Gathered, c: ChunkView, source: int) -> Gathered {
    if g.seen.contains(c.name) {
        g
    } else {
        Gathered {
            items: g.items.push(
                RedownloadView {
                    name: c.name,
                    size: c.size,
                    compressed_md5: c.compressed_md5,
                    source,
                },
            ),
            seen: g.seen.insert(c.name),
        }
    }
}

/// The chunks of the first `f` failed files, and of the first `k` chunks of the
/// next.
pub open spec fn gathered(files: Seq<(AssetView, int)>, f: int, k: int) -> Gathered
    decreases f, k,
{
    if f < 0 || (f == 0 && k <= 0) {
        Gathered { items: Seq::empty(), seen: Set::empty() }
    } else if k <= 0 {
        gathered(files, f - 1, files[f - 1].0.chunks.len() as int)
    } else {
        with_needed(
            gathered(files, f, k - 1),
            files[f].0.chunks[k - 1],
            files[f].1,
        )
    }
}

/// The chunks of the failed files, each once: the first file with it counts.
pub fn needed_chunks(failed: &Vec<CheckedAsset>) -> (r: Vec<RedownloadItem>)
    ensures
        redownload_views(r@) == gathered(checked_views(failed@), failed@.len() as int, 0).items,
{
    let ghost files = checked_views(failed@);
    let mut out: Vec<RedownloadItem> = Vec::new();
    let mut seen = new_name_set();
    let mut f: usize = 0;
    assert(redownload_views(out@) =~= gathered(files, 0, 0).items);
    while f < failed.len()
        invariant
            f <= failed@.len(),
            files == checked_views(failed@),
            redownload_views(out@) == gathered(files, f as int, 0).items,
            names(seen) == gathered(files, f as int, 0).seen,
        decreases failed@.len() - f,
    {
        let source: usize = failed[f].source;
        let list = &failed[f].asset.asset_chunks;
        assert(files[f as int] == (failed@[f as int].asset@, source as int));
        let mut k: usize = 0;
        while k < list.len()
            invariant
                k <= list@.len(),
                f < files.len(),
                files[f as int].1 == source,
                files[f as int].0.chunks == crate::proto_parse::chunk_views(list@),
                redownload_views(out@) == gathered(files, f as int, k as int).items,
                names(seen) == gathered(files, f as int, k as int).seen,
            decreases list@.len() - k,
        {
            let c = &list[k];
            assert(files[f as int].0.chunks[k as int] == c@);
            let ghost before = redownload_views(out@);
            let ghost had = names(seen);
            if add_name(&mut seen, c.chunk_name.clone()) {
                out.push(
                    RedownloadItem {
                        name: c.chunk_name.clone(),
                        size: c.chunk_size,
                        compressed_md5: c.chunk_compressed_hash_md5.clone(),
                        source,
                    },
                );
                proof {
                    let last = out@[out@.len() - 1]@;
                    assert(redownload_views(out@) =~= before.push(last));
                }
            } else {
                assert(names(seen) =~= had);
            }
            k += 1;
        }
        assert(gathered(files, f as int + 1, 0) == gathered(files, f as int, list@.len() as int));
        f += 1;
    }
    out
}

/// Those of the first `n` chunks whose files are not sound.
pub open spec fn unsound_below(items: Seq<RedownloadView>, sound: Seq<bool>, n: int) -> Seq<
    RedownloadView,
>
    decreases n,
{
    if n <= 0 {
        Seq::empty()
    } else if sound[n - 1] {
        unsound_below(items, sound, n - 1)
    } else {
        unsound_below(items, sound, n - 1).push(items[n - 1])
    }
}

/// The bytes of the first `n` chunks.
pub open spec fn bytes_of_items(items: Seq<RedownloadView>, n: int) -> int
    decreases n,
{
    if n <= 0 {
        0
    } else {
        bytes_of_items(items, n - 1) + items[n - 1].size
    }
}

/// The chunks that are downloaded again: `sound` says of each whether its file
/// passed its check.
pub fn redownload_items(needed: Vec<RedownloadItem>, sound: &Vec<bool>) -> (r: Vec<RedownloadItem>)
    requires
        sound@.len() == needed@.len(),
    ensures
        redownload_views(r@) == unsound_below(
            redownload_views(needed@),
            sound@,
            needed@.len() as int,
        ),
{
    let ghost all = redownload_views(needed@);
    let mut out: Vec<RedownloadItem> = Vec::new();
    let mut i: usize = 0;
    assert(redownload_views(out@) =~= unsound_below(all, sound@, 0));
    while i < needed.len()
        invariant
            i <= needed@.len(),
            sound@.len() == needed@.len(),
            all == redownload_views(needed@),
            redownload_views(out@) == unsound_below(all, sound@, i as int),
        decreases needed@.len() - i,
    {
        let x = &needed[i];
        assert(all[i as int] == x@);
        let ghost before = redownload_views(out@);
        if !sound[i] {
            out.push(
                RedownloadItem {
                    name: x.name.clone(),
                    size: x.size,
                    compressed_md5: x.compressed_md5.clone(),
                    source: x.source,
                },
            );
            assert(redownload_views(out@) =~= before.push(x@));
        }
        i += 1;
    }
    out
}

/// The bytes of some chunks; nothing when they do not fit 64 bits.
pub fn redownload_bytes(items: &Vec<RedownloadItem>) -> (r: Option<u64>)
    ensures
        ({
            let total = bytes_of_items(redownload_views(items@), items@.len() as int);
            match r {
                Some(t) => t == total,
                None => total > u64::MAX,
            }
        }),
{
    let ghost all = redownload_views(items@);
    let mut total: u64 = 0;
    let mut i: usize = 0;
    while i < items.len()
        invariant
            i <= items@.len(),
            all == redownload_views(items@),
            total == bytes_of_items(all, i as int),
        decreases items@.len() - i,
    {
        assert(all[i as int] == items@[i as int]@);
        match total.checked_add(items[i].size) {
            Some(t) => {
                total = t;
            },
            None => {
                proof {
                    lemma_bytes_grow(all, i as int + 1, all.len() as int);
                }
                return None;
            },
        }
        i += 1;
    }
    Some(total)
}

proof fn lemma_bytes_grow(items: Seq<RedownloadView>, i: int, n: int)
    requires
        0 <= i <= n,
    ensures
        bytes_of_items(items, i) <= bytes_of_items(items, n),
    decreases n,
{
    if i < n {
        lemma_bytes_grow(items, i, n - 1);
    }
}

/// Refuses a chunk whose name is no file name.
pub fn check_chunk_name(name: &str) -> (r: SophonResult<()>)
    ensures
        if chunk_name_ok(name@) {
            r is Ok
        } else {
            r matches Err(e) && e@ == ErrorView::PathTraversal(name@)
        },
{
    if validate_chunk_name(name) {
        Ok(())
    } else {
        Err(SophonError::PathTraversal(name.to_owned()))
    }
}

/// The progress that is reported once the chunks are there. Where none had to be
/// downloaded, the download counts as done.
pub fn redownload_done(count: usize, total_bytes: u64) -> (r: SophonProgress)
    ensures
        r == if count > 0 {
            SophonProgress::Downloading { downloaded_bytes: total_bytes, total_bytes }
        } else {
            SophonProgress::Downloading { downloaded_bytes: 1, total_bytes: 1 }
        },
{
    if count > 0 {
        SophonProgress::Downloading { downloaded_bytes: total_bytes, total_bytes }
    } else {
        SophonProgress::Downloading { downloaded_bytes: 1, total_bytes: 1 }
    }
}

/// The warning for a file that has failed its check.
pub fn failed_warning(name: &str) -> (r: String)
    ensures
        r@ == "File "@ + name@ + " failed integrity check, re-downloading"@,
{
    let mut out = "File ".to_owned();
    out.append(name);
    out.append(" failed integrity check, re-downloading");
    out
}

/// The temporary directory in which a file is put together again.
pub fn verify_dir_name(asset_name: &str) -> (r: String)
    ensures
        r@ == "tmp-verify-"@ + replaced_any(asset_name@, "/\\:"@, '_'),
{
    let mut out = "tmp-verify-".to_owned();
    out.append(replace_any(asset_name, "/\\:", '_').as_str());
    out
}

proof fn lemma_first_fault(faults: Seq<Option<ErrorView>>, n: int)
    requires
        0 <= n <= faults.len(),
    ensures
        match first_fault(faults, n) {
            None => forall|i: int| 0 <= i < n ==> #[trigger] faults[i] is None,
            Some(e) => exists|i: int|
                0 <= i < n && #[trigger] faults[i] == Some(e) && forall|j: int|
                    0 <= j < i ==> #[trigger] faults[j] is None,
        },
    decreases n,
{
    if n > 0 {
        lemma_first_fault(faults, n - 1);
        if first_fault(faults, n - 1) is None && faults[n - 1] is Some {
            assert(faults[n - 1] == first_fault(faults, n));
        }
    }
}

/// How mending an installation ends, given how making each failed file anew has:
/// well where every file was made, else with the error of the first that was not.
pub fn verification_end(results: Vec<SophonResult<()>>) -> (r: SophonResult<()>)
    ensures
        r is Ok <==> forall|i: int| 0 <= i < results@.len() ==> #[trigger] results@[i] is Ok,
        r matches Err(e) ==> exists|i: int|
            0 <= i < results@.len() && fault_of(#[trigger] results@[i]) == Some(e@) && forall|j: int|
                0 <= j < i ==> #[trigger] results@[j] is Ok,
{
    let ghost all = results@;
    let ghost faults = all.map_values(|x: SophonResult<()>| fault_of(x));
    let r = drain_results(results);
    proof {
        lemma_first_fault(faults, faults.len() as int);
        assert forall|i: int| 0 <= i < all.len() implies (#[trigger] all[i] is Ok <==> faults[i]
            is None) by {
            assert(faults[i] == fault_of(all[i]));
        }
        match fault_of(r) {
            None => {
                assert forall|i: int| 0 <= i < all.len() implies #[trigger] all[i] is Ok by {
                    assert(faults[i] is None);
                }
            },
            Some(e) => {
                let i = choose|i: int|
                    0 <= i < faults.len() && #[trigger] faults[i] == Some(e) && forall|j: int|
                        0 <= j < i ==> #[trigger] faults[j] is None;
                assert(fault_of(all[i]) == faults[i]);
                assert forall|j: int| 0 <= j < i implies #[trigger] all[j] is Ok by {
                    assert(faults[j] is None);
                }
            },
        }
    }
    r
}

/// Every chunk of a failed file is gathered, and none twice.
pub proof fn law_chunks_are_gathered_once(files: Seq<(AssetView, int)>, f: int, k: int)
    requires
        0 <= f <= files.len(),
        f == files.len() ==> k <= 0,
        f < files.len() ==> k <= files[f].0.chunks.len(),
    ensures
        ({
            let g = gathered(files, f, k);
            &&& forall|i: int, j: int|
                0 <= i < j < g.items.len() ==> (#[trigger] g.items[i]).name != (
                #[trigger] g.items[j]).name
            &&& forall|i: int| 0 <= i < g.items.len() ==> g.seen.contains((#[trigger] g.items[i]).name)
            &&& forall|a: int, c: int|
                #![trigger files[a].0.chunks[c]]
                0 <= a < files.len() && 0 <= c < files[a].0.chunks.len() && (a < f || (a == f && c
                    < k)) ==> g.seen.contains(files[a].0.chunks[c].name)
        }),
    decreases f, k,
{
    if f < 0 || (f == 0 && k <= 0) {
    } else if k <= 0 {
        law_chunks_are_gathered_once(files, f - 1, files[f - 1].0.chunks.len() as int);
        let g = gathered(files, f - 1, files[f - 1].0.chunks.len() as int);
        assert(gathered(files, f, k) == g);
    } else {
        law_chunks_are_gathered_once(files, f, k - 1);
        let g = gathered(files, f, k - 1);
        let h = gathered(files, f, k);
        let name = files[f].0.chunks[k - 1].name;
        assert forall|i: int, j: int| 0 <= i < j < h.items.len() implies (#[trigger] h.items[i]).name
            != (#[trigger] h.items[j]).name by {
            if j < g.items.len() {
                assert(g.items[i].name != g.items[j].name);
            } else if i < g.items.len() {
                assert(g.seen.contains(g.items[i].name));
            }
        }
        assert forall|i: int| 0 <= i < h.items.len() implies h.seen.contains(
            (#[trigger] h.items[i]).name,
        ) by {
            if i < g.items.len() {
                assert(g.seen.contains(g.items[i].name));
            }
        }
        assert forall|a: int, c: int|
            #![trigger files[a].0.chunks[c]]
            0 <= a < files.len() && 0 <= c < files[a].0.chunks.len() && (a < f || (a == f && c
                < k)) implies h.seen.contains(files[a].0.chunks[c].name) by {
            if !(a == f && c == k - 1) {
                assert(g.seen.contains(files[a].0.chunks[c].name));
            }
        }
    }
}

/// The number of files, without directories, in the first `n` manifests.
pub open spec fn file_total(v: Seq<Seq<AssetView>>, n: int) -> int
    decreases n,
{
    if n <= 0 {
        0
    } else {
        file_total(v, n - 1) + v[n - 1].filter(|a: AssetView| !a.is_directory()).len()
    }
}

/// Every file of every manifest is checked, as a file of that manifest; nothing
/// else is checked, and nothing twice.
pub proof fn law_every_file_is_checked(manifests: Seq<Seq<AssetView>>, checked: Seq<(AssetView, int)>)
    requires
        checked == all_files_from(manifests, manifests.len() as int),
    ensures
        forall|i: int, k: int|
            #![trigger manifests[i][k]]
            0 <= i < manifests.len() && 0 <= k < manifests[i].len()
                && !manifests[i][k].is_directory() ==> checked.contains((manifests[i][k], i)),
        forall|j: int|
            0 <= j < checked.len() ==> {
                let (asset, source) = #[trigger] checked[j];
                &&& 0 <= source < manifests.len()
                &&& manifests[source].contains(asset)
                &&& !asset.is_directory()
            },
        checked.len() == file_total(manifests, manifests.len() as int),
        forall|j: int, l: int|
            0 <= j <= l < checked.len() ==> (#[trigger] checked[j]).1 <= (#[trigger] checked[l]).1,
{
    lemma_all_files(manifests, manifests.len() as int);
}

proof fn lemma_files_from(assets: Seq<AssetView>, i: int, n: int)
    requires
        0 <= n <= assets.len(),
    ensures
        ({
            let r = files_from(assets, i, n);
            &&& forall|k: int|
                0 <= k < n && !(#[trigger] assets[k]).is_directory() ==> r.contains((assets[k], i))
            &&& forall|j: int|
                0 <= j < r.len() ==> (#[trigger] r[j]).1 == i && assets.contains(r[j].0)
                    && !r[j].0.is_directory()
            &&& r.len() == assets.take(n).filter(|a: AssetView| !a.is_directory()).len()
        }),
    decreases n,
{
    let r = files_from(assets, i, n);
    let keep = |a: AssetView| !a.is_directory();
    if n > 0 {
        lemma_files_from(assets, i, n - 1);
        let b = files_from(assets, i, n - 1);
        let x = assets[n - 1];
        assert(assets.take(n).drop_last() =~= assets.take(n - 1));
        assert(assets.take(n).last() == x);
        reveal(Seq::filter);
        assert(assets.contains(x));
        if !x.is_directory() {
            assert(r[b.len() as int] == (x, i));
        }
        assert forall|k: int| 0 <= k < n && !(#[trigger] assets[k]).is_directory() implies r.contains(
            (assets[k], i),
        ) by {
            if k < n - 1 {
                let j = choose|j: int| 0 <= j < b.len() && b[j] == (assets[k], i);
                assert(r[j] == (assets[k], i));
            }
        }
        assert forall|j: int| 0 <= j < r.len() implies (#[trigger] r[j]).1 == i && assets.contains(
            r[j].0,
        ) && !r[j].0.is_directory() by {
            if j < b.len() {
                assert(r[j] == b[j]);
            }
        }
    } else {
        reveal(Seq::filter);
        assert(assets.take(0).len() == 0);
    }
}

proof fn lemma_all_files(v: Seq<Seq<AssetView>>, n: int)
    requires
        0 <= n <= v.len(),
    ensures
        ({
            let r = all_files_from(v, n);
            &&& forall|i: int, k: int|
                #![trigger v[i][k]]
                0 <= i < n && 0 <= k < v[i].len() && !v[i][k].is_directory() ==> r.contains(
                    (v[i][k], i),
                )
            &&& forall|j: int|
                0 <= j < r.len() ==> 0 <= (#[trigger] r[j]).1 < n && v[r[j].1].contains(r[j].0)
                    && !r[j].0.is_directory()
            &&& r.len() == file_total(v, n)
            &&& forall|j: int, l: int|
                0 <= j <= l < r.len() ==> (#[trigger] r[j]).1 <= (#[trigger] r[l]).1
        }),
    decreases n,
{
    if n > 0 {
        lemma_all_files(v, n - 1);
        let last = v[n - 1];
        lemma_files_from(last, n - 1, last.len() as int);
        assert(last.take(last.len() as int) =~= last);
        let a = all_files_from(v, n - 1);
        let b = files_from(last, n - 1, last.len() as int);
        let r = all_files_from(v, n);
        assert forall|i: int, k: int|
            #![trigger v[i][k]]
            0 <= i < n && 0 <= k < v[i].len() && !v[i][k].is_directory() implies r.contains(
            (v[i][k], i),
        ) by {
            let x = (v[i][k], i);
            if i < n - 1 {
                assert(a.contains(x));
                let j = choose|j: int| 0 <= j < a.len() && a[j] == x;
                assert(r[j] == x);
            } else {
                assert(!last[k].is_directory());
                let j = choose|j: int| 0 <= j < b.len() && b[j] == x;
                assert(r[a.len() + j] == x);
            }
        }
        assert forall|j: int| 0 <= j < r.len() implies 0 <= (#[trigger] r[j]).1 < n && v[r[j].1].contains(
            r[j].0,
        ) && !r[j].0.is_directory() by {
            if j < a.len() {
                assert(r[j] == a[j]);
            } else {
                assert(r[j] == b[j - a.len()]);
            }
        }
        assert forall|j: int, l: int| 0 <= j <= l < r.len() implies (#[trigger] r[j]).1 <= (
        #[trigger] r[l]).1 by {
            if l < a.len() {
                assert(r[j] == a[j] && r[l] == a[l]);
            } else {
                assert(r[l] == b[l - a.len()]);
                if j < a.len() {
                    assert(r[j] == a[j]);
                } else {
                    assert(r[j] == b[j - a.len()]);
                }
            }
        }
    }
}

/// The file is one of the first `n` that have failed their check and have a safe
/// name.
pub open spec fn is_failed(files: Seq<(AssetView, int)>, valid: Seq<bool>, n: int, x: (AssetView, int)) -> bool {
    exists|i: int|
        0 <= i < n && !valid[i] && #[trigger] files[i] == x && asset_name_fault(x.0.name) is None
}

/// A file is mended if and only if its check has failed and its name is safe.
pub proof fn law_failed_files_are_mended(files: Seq<(AssetView, int)>, valid: Seq<bool>)
    requires
        valid.len() == files.len(),
    ensures
        ({
            let r = failed_below(files, valid, files.len() as int);
            &&& forall|x: (AssetView, int)| #[trigger]
                r.contains(x) <==> is_failed(files, valid, files.len() as int, x)
            &&& (forall|i: int| 0 <= i < valid.len() ==> #[trigger] valid[i]) ==> r.len() == 0
        }),
{
    lemma_failed_below(files, valid, files.len() as int);
    let r = failed_below(files, valid, files.len() as int);
    if r.len() > 0 {
        assert(r.contains(r[0]));
        let i = choose|i: int| 0 <= i < files.len() && !valid[i] && #[trigger] files[i] == r[0];
        assert(!valid[i]);
    }
}

proof fn lemma_failed_below(files: Seq<(AssetView, int)>, valid: Seq<bool>, n: int)
    requires
        valid.len() == files.len(),
        0 <= n <= files.len(),
    ensures
        forall|x: (AssetView, int)| #[trigger]
            failed_below(files, valid, n).contains(x) <==> is_failed(files, valid, n, x),
    decreases n,
{
    if n > 0 {
        lemma_failed_below(files, valid, n - 1);
        let b = failed_below(files, valid, n - 1);
        let r = failed_below(files, valid, n);
        assert forall|x: (AssetView, int)| #[trigger] r.contains(x) <==> is_failed(files, valid, n, x) by {
            if r.contains(x) {
                let j = choose|j: int| 0 <= j < r.len() && r[j] == x;
                if j < b.len() {
                    assert(b[j] == x);
                    assert(b.contains(x));
                    let i = choose|i: int|
                        0 <= i < n - 1 && !valid[i] && #[trigger] files[i] == x;
                    assert(files[i] == x);
                } else {
                    assert(files[n - 1] == x);
                }
            }
            if is_failed(files, valid, n, x) {
                let i = choose|i: int| 0 <= i < n && !valid[i] && #[trigger] files[i] == x;
                if i < n - 1 {
                    assert(is_failed(files, valid, n - 1, x));
                    assert(b.contains(x));
                    let j = choose|j: int| 0 <= j < b.len() && b[j] == x;
                    assert(r[j] == x);
                } else {
                    assert(r[b.len() as int] == x);
                }
            }
        }
    }
}

/// The item says of a chunk of one of the files what that file and its manifest
/// state.
pub open spec fn is_chunk_of(files: Seq<(AssetView, int)>, item: RedownloadView) -> bool {
    exists|a: int, c: int|
        0 <= a < files.len() && 0 <= c < files[a].0.chunks.len() && item.source == files[a].1 && {
            let chunk = #[trigger] files[a].0.chunks[c];
            item.name == chunk.name && item.size == chunk.size && item.compressed_md5
                == chunk.compressed_md5
        }
}

/// One of the items has the name.
pub open spec fn lists_chunk(items: Seq<RedownloadView>, name: Seq<char>) -> bool {
    exists|j: int| 0 <= j < items.len() && (#[trigger] items[j]).name == name
}

/// A chunk to download again is a chunk of a failed file: it has the name, the
/// size and the checksum that the file states, and comes from the file's
/// manifest. Every chunk of every failed file is among them by its name.
pub proof fn law_needed_chunks_are_those_of_failed_files(files: Seq<(AssetView, int)>)
    ensures
        ({
            let items = gathered(files, files.len() as int, 0).items;
            &&& forall|j: int| 0 <= j < items.len() ==> is_chunk_of(files, #[trigger] items[j])
            &&& forall|a: int, c: int|
                0 <= a < files.len() && 0 <= c < files[a].0.chunks.len() ==> lists_chunk(
                    items,
                    (#[trigger] files[a].0.chunks[c]).name,
                )
        }),
{
    lemma_gathered_items(files, files.len() as int, 0);
    law_chunks_are_gathered_once(files, files.len() as int, 0);
}

proof fn lemma_gathered_items(files: Seq<(AssetView, int)>, f: int, k: int)
    requires
        0 <= f <= files.len(),
        f == files.len() ==> k <= 0,
        f < files.len() ==> k <= files[f].0.chunks.len(),
    ensures
        ({
            let g = gathered(files, f, k);
            &&& forall|j: int| 0 <= j < g.items.len() ==> is_chunk_of(files, #[trigger] g.items[j])
            &&& forall|name: Seq<char>|
                g.seen.contains(name) ==> #[trigger] lists_chunk(g.items, name)
        }),
    decreases f, k,
{
    if f == 0 && k <= 0 {
    } else if k <= 0 {
        lemma_gathered_items(files, f - 1, files[f - 1].0.chunks.len() as int);
        assert(gathered(files, f, k) == gathered(files, f - 1, files[f - 1].0.chunks.len() as int));
    } else {
        lemma_gathered_items(files, f, k - 1);
        let g = gathered(files, f, k - 1);
        let h = gathered(files, f, k);
        let x = files[f].0.chunks[k - 1];
        assert forall|j: int| 0 <= j < h.items.len() implies is_chunk_of(files, #[trigger] h.items[j]) by {
            if j < g.items.len() {
                assert(h.items[j] == g.items[j]);
            } else {
                let item = h.items[j];
                assert(item.name == files[f].0.chunks[k - 1].name);
            }
        }
        assert forall|name: Seq<char>| h.seen.contains(name) implies #[trigger] lists_chunk(
            h.items,
            name,
        ) by {
            if g.seen.contains(name) {
                assert(lists_chunk(g.items, name));
                let j = choose|j: int| 0 <= j < g.items.len() && (#[trigger] g.items[j]).name == name;
                assert(h.items[j].name == name);
            } else {
                assert(h.items[g.items.len() as int].name == name);
            }
        }
    }
}

/// The chunk is one of the first `n` whose files are not sound.
pub open spec fn is_unsound(items: Seq<RedownloadView>, sound: Seq<bool>, n: int, x: RedownloadView) -> bool {
    exists|i: int| 0 <= i < n && !sound[i] && #[trigger] items[i] == x
}

/// Exactly the chunks whose files are not sound are downloaded again.
pub proof fn law_unsound_chunks_are_downloaded(items: Seq<RedownloadView>, sound: Seq<bool>)
    requires
        sound.len() == items.len(),
    ensures
        forall|x: RedownloadView| #[trigger]
            unsound_below(items, sound, items.len() as int).contains(x) <==> is_unsound(
                items,
                sound,
                items.len() as int,
                x,
            ),
{
    lemma_unsound_below(items, sound, items.len() as int);
}

proof fn lemma_unsound_below(items: Seq<RedownloadView>, sound: Seq<bool>, n: int)
    requires
        sound.len() == items.len(),
        0 <= n <= items.len(),
    ensures
        forall|x: RedownloadView| #[trigger]
            unsound_below(items, sound, n).contains(x) <==> is_unsound(items, sound, n, x),
    decreases n,
{
    if n > 0 {
        lemma_unsound_below(items, sound, n - 1);
        let b = unsound_below(items, sound, n - 1);
        let r = unsound_below(items, sound, n);
        assert forall|x: RedownloadView| #[trigger] r.contains(x) <==> is_unsound(items, sound, n, x) by {
            if r.contains(x) {
                let j = choose|j: int| 0 <= j < r.len() && r[j] == x;
                if j < b.len() {
                    assert(b[j] == x);
                    assert(b.contains(x));
                    let i = choose|i: int| 0 <= i < n - 1 && !sound[i] && #[trigger] items[i] == x;
                    assert(items[i] == x);
                } else {
                    assert(items[n - 1] == x);
                }
            }
            if is_unsound(items, sound, n, x) {
                let i = choose|i: int| 0 <= i < n && !sound[i] && #[trigger] items[i] == x;
                if i < n - 1 {
                    assert(is_unsound(items, sound, n - 1, x));
                    assert(b.contains(x));
                    let j = choose|j: int| 0 <= j < b.len() && b[j] == x;
                    assert(r[j] == x);
                } else {
                    assert(r[b.len() as int] == x);
                }
            }
        }
    }
}

/// The bytes that are downloaded again are those of the chunks, each counted once:
/// they grow by the size of every chunk.
pub proof fn law_bytes_to_mend_add_up(items: Seq<RedownloadView>, n: int)
    requires
        0 <= n < items.len(),
    ensures
        bytes_of_items(items, 0) == 0,
        bytes_of_items(items, n + 1) - bytes_of_items(items, n) == items[n].size,
{
}

} // verus!
