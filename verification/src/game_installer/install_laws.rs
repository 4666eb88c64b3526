//! What an installation takes out of its manifests, and what it keeps of an
//! earlier run.

use vstd::prelude::*;
use crate::collections::value_at;
use crate::proto_parse::AssetView;
use crate::proto_parse::ChunkView;
use super::compact_manifest::all_chunks;
use super::compact_manifest::chunks_before;
use super::compact_manifest::flat_chunks;
use super::compact_manifest::lemma_flat_chunk;
use super::compact_manifest::lemma_flat_chunks;
use super::download_laws::brings;
use super::download_plan::all_fetched;
use super::download_plan::item_refers;
use super::download_plan::DownloadItem;
use super::download_state::files_before;
use super::install::recounted;
use super::install::complete_files;
use super::install::noted_chunks;
use super::installer::all_files_below;
use super::installer::as_new_asset;
use super::installer::as_new_chunk;
use super::installer::data_of;
use super::installer::fetched_bytes;
use super::installer::fetched_names;
use super::installer::files_below;
use super::installer::files_of;
use super::installer::DataView;
use super::installer::InstallerView;
use super::names::asset_name_fault;
use super::names::chunk_name_ok;
use super::resume::chunk_kept;
use super::resume::chunk_names;
use super::resume::directories_below;
use super::resume::given;
use super::resume::installer_chunks;
use super::resume::installer_directories;
use super::resume::owned;
use super::resume::owners;
use super::resume::share_start;
use super::resume_scan::check_of;
use super::resume_scan::chunk_bytes_below;
use super::resume_scan::complete_below;
use super::resume_scan::deleted_below;
use super::resume_scan::file_complete;
use super::resume_scan::found_whole;
use super::resume_scan::noted_bytes;
use super::resume_scan::spared_below;
use super::resume_scan::FileCheck;
use super::resume_scan::started;
use super::resume_scan::started_chunks;
use super::update_laws::same_but_places;

verus! {

/// A fresh installation downloads every chunk of every asset, and changes nothing
/// else of what a manifest states.
pub proof fn law_fresh_installations_fetch_every_chunk(a: AssetView)
    ensures
        all_fetched(as_new_asset(a).chunks),
        same_but_places(as_new_asset(a), a),
{
    let x = as_new_asset(a);
    assert forall|c: int| 0 <= c < a.chunks.len() implies #[trigger] x.chunks[c] == as_new_chunk(
        a.chunks[c],
    ) by {}
}

/// The file at `f` is one that the installer at `i` lists.
pub open spec fn file_is_from(v: Seq<InstallerView>, data: Seq<DataView>, files: Seq<AssetView>, f: int, i: int) -> bool {
    &&& brings(data, i, f)
    &&& v[i].assets.contains(files[f])
    &&& !files[f].is_directory()
}

/// One of the files is the asset, and the installer at `i` brings it.
pub open spec fn is_brought(data: Seq<DataView>, files: Seq<AssetView>, a: AssetView, i: int) -> bool {
    exists|f: int| 0 <= f < files.len() && #[trigger] files[f] == a && brings(data, i, f)
}

/// A file of an installation is one that some installer lists, and that installer
/// brings it.
pub open spec fn is_listed(v: Seq<InstallerView>, data: Seq<DataView>, files: Seq<AssetView>, f: int) -> bool {
    exists|i: int| 0 <= i < v.len() && #[trigger] file_is_from(v, data, files, f, i)
}

/// An installation takes every file of every installer, as one that this installer
/// brings from its own source, and nothing else.
pub proof fn law_installations_take_every_file(
    v: Seq<InstallerView>,
    data: Seq<DataView>,
    files: Seq<AssetView>,
)
    requires
        data == v.map_values(|i: InstallerView| data_of(i)),
        files == all_files_below(v, v.len() as int),
    ensures
        data.len() == v.len(),
        forall|i: int|
            0 <= i < v.len() ==> (#[trigger] data[i]).download == v[i].download && data[i].field
                == v[i].field && data[i].label == v[i].label,
        forall|i: int, k: int|
            #![trigger v[i].assets[k]]
            0 <= i < v.len() && 0 <= k < v[i].assets.len() && !v[i].assets[k].is_directory()
                ==> is_brought(data, files, v[i].assets[k], i),
        forall|f: int| 0 <= f < files.len() ==> #[trigger] is_listed(v, data, files, f),
        files.len() == files_before(data, data.len() as int),
{
    lemma_all_files(v, data, v.len() as int);
}

proof fn lemma_files_below(assets: Seq<AssetView>, n: int)
    requires
        0 <= n <= assets.len(),
    ensures
        ({
            let r = files_below(assets, n);
            &&& forall|k: int|
                0 <= k < n && !(#[trigger] assets[k]).is_directory() ==> r.contains(assets[k])
            &&& forall|f: int|
                0 <= f < r.len() ==> !(#[trigger] r[f]).is_directory() && assets.contains(r[f])
        }),
    decreases n,
{
    if n > 0 {
        lemma_files_below(assets, n - 1);
        let b = files_below(assets, n - 1);
        let r = files_below(assets, n);
        assert forall|k: int| 0 <= k < n && !(#[trigger] assets[k]).is_directory() implies r.contains(
            assets[k],
        ) by {
            if k < n - 1 {
                let f = choose|f: int| 0 <= f < b.len() && b[f] == assets[k];
                assert(r[f] == assets[k]);
            } else {
                assert(r[b.len() as int] == assets[k]);
            }
        }
        assert forall|f: int| 0 <= f < r.len() implies !(#[trigger] r[f]).is_directory()
            && assets.contains(r[f]) by {
            if f < b.len() {
                assert(r[f] == b[f]);
            } else {
                assert(r[f] == assets[n - 1]);
            }
        }
    }
}

proof fn lemma_all_files(v: Seq<InstallerView>, data: Seq<DataView>, n: int)
    requires
        data == v.map_values(|i: InstallerView| data_of(i)),
        0 <= n <= v.len(),
    ensures
        ({
            let files = all_files_below(v, n);
            &&& forall|i: int, k: int|
                #![trigger v[i].assets[k]]
                0 <= i < n && 0 <= k < v[i].assets.len() && !v[i].assets[k].is_directory()
                    ==> is_brought(data, files, v[i].assets[k], i)
            &&& forall|f: int| 0 <= f < files.len() ==> #[trigger] is_listed(v, data, files, f)
            &&& files.len() == files_before(data, n)
        }),
    decreases n,
{
    if n > 0 {
        lemma_all_files(v, data, n - 1);
        let last = v[n - 1].assets;
        lemma_files_below(last, last.len() as int);
        let a = all_files_below(v, n - 1);
        let b = files_of(last);
        let r = all_files_below(v, n);
        assert(data[n - 1] == data_of(v[n - 1]));
        assert(files_before(data, n) == a.len() + b.len());
        assert forall|i: int, k: int|
            #![trigger v[i].assets[k]]
            0 <= i < n && 0 <= k < v[i].assets.len() && !v[i].assets[k].is_directory() implies is_brought(
            data,
            r,
            v[i].assets[k],
            i,
        ) by {
            let x = v[i].assets[k];
            if i < n - 1 {
                assert(is_brought(data, a, x, i));
                let f = choose|f: int| 0 <= f < a.len() && #[trigger] a[f] == x && brings(data, i, f);
                assert(r[f] == x);
            } else {
                assert(!last[k].is_directory());
                let f = choose|f: int| 0 <= f < b.len() && b[f] == x;
                assert(r[a.len() + f] == x);
                assert(brings(data, n - 1, a.len() + f));
            }
        }
        assert forall|f: int| 0 <= f < r.len() implies #[trigger] is_listed(v, data, r, f) by {
            if f < a.len() {
                assert(is_listed(v, data, a, f));
                let i = choose|i: int| 0 <= i < v.len() && #[trigger] file_is_from(v, data, a, f, i);
                assert(r[f] == a[f]);
                assert(file_is_from(v, data, r, f, i));
            } else {
                assert(r[f] == b[f - a.len()]);
                assert(file_is_from(v, data, r, f, n - 1));
            }
        }
    }
}

/// One of the chunks is downloaded under the name.
pub open spec fn fetches_name(s: Seq<ChunkView>, name: Seq<char>) -> bool {
    exists|i: int| 0 <= i < s.len() && (#[trigger] s[i]).old_offset < 0 && s[i].name == name
}

proof fn lemma_fetched_names(s: Seq<ChunkView>, name: Seq<char>)
    ensures
        fetched_names(s).contains(name) <==> fetches_name(s, name),
    decreases s.len(),
{
    if s.len() > 0 {
        let b = s.drop_last();
        lemma_fetched_names(b, name);
        if fetches_name(b, name) {
            let i = choose|i: int| 0 <= i < b.len() && (#[trigger] b[i]).old_offset < 0 && b[i].name == name;
            assert(s[i].name == name);
        }
        if fetches_name(s, name) {
            let i = choose|i: int| 0 <= i < s.len() && (#[trigger] s[i]).old_offset < 0 && s[i].name == name;
            if i < b.len() {
                assert(b[i].name == name);
            }
        }
    }
}

/// The bytes of a build grow by the size of each chunk that is downloaded under a
/// name that was not met before, and by nothing else.
pub proof fn law_bytes_count_each_name_once(s: Seq<ChunkView>, c: ChunkView)
    ensures
        fetched_bytes(Seq::<ChunkView>::empty()) == 0,
        fetched_bytes(s.push(c)) - fetched_bytes(s) == if c.old_offset < 0 && !fetches_name(
            s,
            c.name,
        ) {
            c.size as int
        } else {
            0
        },
{
    assert(s.push(c).drop_last() =~= s);
    lemma_fetched_names(s, c.name);
}

/// One of the chunks has the name.
pub open spec fn has_chunk_name(s: Seq<ChunkView>, name: Seq<char>) -> bool {
    exists|i: int| 0 <= i < s.len() && (#[trigger] s[i]).name == name
}

/// One of the chunks of one of the assets has the name.
pub open spec fn lists_chunk_name(assets: Seq<AssetView>, name: Seq<char>) -> bool {
    exists|f: int, c: int|
        0 <= f < assets.len() && 0 <= c < assets[f].chunks.len() && (
        #[trigger] assets[f].chunks[c]).name == name
}

/// One of the first `n` installers lists a chunk of the name.
pub open spec fn installers_list(v: Seq<InstallerView>, n: int, name: Seq<char>) -> bool {
    exists|i: int| 0 <= i < n && lists_chunk_name((#[trigger] v[i]).assets, name)
}

proof fn lemma_chunk_names(s: Seq<ChunkView>, name: Seq<char>)
    ensures
        chunk_names(s).contains(name) <==> has_chunk_name(s, name),
    decreases s.len(),
{
    if s.len() > 0 {
        let b = s.drop_last();
        lemma_chunk_names(b, name);
        if has_chunk_name(b, name) {
            let i = choose|i: int| 0 <= i < b.len() && (#[trigger] b[i]).name == name;
            assert(s[i].name == name);
        }
        if has_chunk_name(s, name) {
            let i = choose|i: int| 0 <= i < s.len() && (#[trigger] s[i]).name == name;
            if i < b.len() {
                assert(b[i].name == name);
            }
        }
    }
}

proof fn lemma_joined_names(s: Seq<ChunkView>, t: Seq<ChunkView>, name: Seq<char>)
    ensures
        has_chunk_name(s + t, name) <==> has_chunk_name(s, name) || has_chunk_name(t, name),
{
    let r = s + t;
    if has_chunk_name(s, name) {
        let i = choose|i: int| 0 <= i < s.len() && (#[trigger] s[i]).name == name;
        assert(r[i].name == name);
    }
    if has_chunk_name(t, name) {
        let i = choose|i: int| 0 <= i < t.len() && (#[trigger] t[i]).name == name;
        assert(r[s.len() + i].name == name);
    }
    if has_chunk_name(r, name) {
        let i = choose|i: int| 0 <= i < r.len() && (#[trigger] r[i]).name == name;
        if i < s.len() {
            assert(s[i].name == name);
        } else {
            assert(t[i - s.len()].name == name);
        }
    }
}

proof fn lemma_flat_names(assets: Seq<AssetView>, n: int, name: Seq<char>)
    requires
        0 <= n <= assets.len(),
    ensures
        has_chunk_name(flat_chunks(assets, n), name) <==> lists_chunk_name(assets.take(n), name),
    decreases n,
{
    if n > 0 {
        lemma_flat_names(assets, n - 1, name);
        lemma_joined_names(flat_chunks(assets, n - 1), assets[n - 1].chunks, name);
        let p = assets.take(n - 1);
        let q = assets.take(n);
        if lists_chunk_name(p, name) {
            let (f, c) = choose|f: int, c: int|
                0 <= f < p.len() && 0 <= c < p[f].chunks.len() && (#[trigger] p[f].chunks[c]).name
                    == name;
            assert(q[f].chunks[c].name == name);
        }
        if has_chunk_name(assets[n - 1].chunks, name) {
            let x = assets[n - 1].chunks;
            let c = choose|c: int| 0 <= c < x.len() && (#[trigger] x[c]).name == name;
            assert(q[n - 1].chunks[c].name == name);
        }
        if lists_chunk_name(q, name) {
            let (f, c) = choose|f: int, c: int|
                0 <= f < q.len() && 0 <= c < q[f].chunks.len() && (#[trigger] q[f].chunks[c]).name
                    == name;
            if f < n - 1 {
                assert(p[f].chunks[c].name == name);
            } else {
                assert(assets[n - 1].chunks[c].name == name);
            }
        }
    } else {
        assert(assets.take(0).len() == 0);
    }
}

proof fn lemma_installer_names(v: Seq<InstallerView>, n: int, name: Seq<char>)
    requires
        0 <= n <= v.len(),
    ensures
        has_chunk_name(installer_chunks(v, n), name) <==> installers_list(v, n, name),
    decreases n,
{
    if n > 0 {
        lemma_installer_names(v, n - 1, name);
        let a = v[n - 1].assets;
        lemma_joined_names(installer_chunks(v, n - 1), all_chunks(a), name);
        lemma_flat_names(a, a.len() as int, name);
        assert(a.take(a.len() as int) =~= a);
        if installers_list(v, n - 1, name) {
            let i = choose|i: int| 0 <= i < n - 1 && lists_chunk_name((#[trigger] v[i]).assets, name);
            assert(lists_chunk_name(v[i].assets, name));
        }
        if lists_chunk_name(a, name) {
            assert(lists_chunk_name(v[n - 1].assets, name));
        }
    }
}

/// Exactly the chunks of an earlier run are used again that are noted, have a
/// sound name, are on disk with the noted size, and, where the manifests have
/// changed since, are listed by one of the installers.
pub proof fn law_kept_chunks_are_sound_and_listed(
    noted: Map<Seq<char>, u64>,
    on_disk: Map<Seq<char>, u64>,
    v: Seq<InstallerView>,
    changed: bool,
    name: Seq<char>,
)
    ensures
        ({
            let listed = if changed {
                Some(chunk_names(installer_chunks(v, v.len() as int)))
            } else {
                None
            };
            chunk_kept(noted, on_disk, listed, name) <==> {
                &&& noted.dom().contains(name)
                &&& chunk_name_ok(name)
                &&& on_disk.dom().contains(name) && on_disk[name] == noted[name]
                &&& changed ==> installers_list(v, v.len() as int, name)
            }
        }),
{
    lemma_chunk_names(installer_chunks(v, v.len() as int), name);
    lemma_installer_names(v, v.len() as int, name);
}

/// One of the first `n` assets is a directory of that name.
pub open spec fn lists_directory(assets: Seq<AssetView>, n: int, name: Seq<char>) -> bool {
    exists|k: int| 0 <= k < n && (#[trigger] assets[k]).is_directory() && assets[k].name == name
}

/// One of the first `n` installers lists a directory of that name.
pub open spec fn installers_have_directory(v: Seq<InstallerView>, n: int, name: Seq<char>) -> bool {
    exists|i: int|
        0 <= i < n && lists_directory(
            (#[trigger] v[i]).assets,
            v[i].assets.len() as int,
            name,
        )
}

proof fn lemma_directories(assets: Seq<AssetView>, n: int, name: Seq<char>)
    requires
        0 <= n <= assets.len(),
    ensures
        directories_below(assets, n).contains(name) <==> asset_name_fault(name) is None
            && lists_directory(assets, n, name),
    decreases n,
{
    if n > 0 {
        lemma_directories(assets, n - 1, name);
        let b = directories_below(assets, n - 1);
        let r = directories_below(assets, n);
        if b.contains(name) {
            let j = choose|j: int| 0 <= j < b.len() && b[j] == name;
            assert(r[j] == name);
        }
        if r.contains(name) {
            let j = choose|j: int| 0 <= j < r.len() && r[j] == name;
            if j < b.len() {
                assert(b[j] == name);
                let k = choose|k: int|
                    0 <= k < n - 1 && (#[trigger] assets[k]).is_directory() && assets[k].name == name;
                assert(assets[k].name == name);
            } else {
                assert(assets[n - 1].name == name);
            }
        }
        if asset_name_fault(name) is None && lists_directory(assets, n, name) {
            let k = choose|k: int|
                0 <= k < n && (#[trigger] assets[k]).is_directory() && assets[k].name == name;
            if k < n - 1 {
                assert(lists_directory(assets, n - 1, name));
            } else {
                assert(r[b.len() as int] == name);
            }
        }
    }
}

/// Exactly the directories that an installer lists under a safe name are created.
pub proof fn law_listed_directories_are_created(v: Seq<InstallerView>, n: int, name: Seq<char>)
    requires
        0 <= n <= v.len(),
    ensures
        installer_directories(v, n).contains(name) <==> asset_name_fault(name) is None
            && installers_have_directory(v, n, name),
    decreases n,
{
    if n > 0 {
        law_listed_directories_are_created(v, n - 1, name);
        let a = v[n - 1].assets;
        lemma_directories(a, a.len() as int, name);
        let b = installer_directories(v, n - 1);
        let d = directories_below(a, a.len() as int);
        let r = installer_directories(v, n);
        if b.contains(name) {
            let j = choose|j: int| 0 <= j < b.len() && b[j] == name;
            assert(r[j] == name);
        }
        if d.contains(name) {
            let j = choose|j: int| 0 <= j < d.len() && d[j] == name;
            assert(r[b.len() + j] == name);
            assert(lists_directory(v[n - 1].assets, a.len() as int, name));
        }
        if r.contains(name) {
            let j = choose|j: int| 0 <= j < r.len() && r[j] == name;
            if j < b.len() {
                assert(b[j] == name);
            } else {
                assert(d[j - b.len()] == name);
            }
        }
        if installers_have_directory(v, n - 1, name) {
            let i = choose|i: int|
                0 <= i < n - 1 && lists_directory(
                    (#[trigger] v[i]).assets,
                    v[i].assets.len() as int,
                    name,
                );
            assert(lists_directory(v[i].assets, v[i].assets.len() as int, name));
        }
    }
}

proof fn lemma_files_before_fit(data: Seq<DataView>, total: int, i: int, n: int)
    requires
        forall|k: int| 0 <= k < data.len() ==> (#[trigger] data[k]).file_count >= 0,
        0 <= i <= n <= data.len(),
        files_before(data, n) <= total,
    ensures
        0 <= files_before(data, i) <= files_before(data, n),
        share_start(data, total, i) == files_before(data, i),
    decreases n, i,
{
    if i < n {
        lemma_files_before_fit_step(data, n);
        lemma_files_before_fit(data, total, i, n - 1);
    } else if n > 0 {
        lemma_files_before_fit_step(data, n);
        lemma_files_before_fit(data, total, n - 1, n - 1);
    }
}

proof fn lemma_files_before_fit_step(data: Seq<DataView>, n: int)
    requires
        forall|k: int| 0 <= k < data.len() ==> (#[trigger] data[k]).file_count >= 0,
        0 < n <= data.len(),
    ensures
        files_before(data, n - 1) <= files_before(data, n),
{
    assert(data[n - 1].file_count >= 0);
}

proof fn lemma_given(
    m: Map<Seq<char>, u64>,
    files: Seq<Seq<char>>,
    from: int,
    to: int,
    i: int,
    f: int,
)
    requires
        0 <= from <= to <= files.len(),
        0 <= f < files.len(),
        files.no_duplicates(),
    ensures
        value_at(given(m, files, from, to, i), files[f]) == if from <= f < to {
            Some(i as u64)
        } else {
            value_at(m, files[f])
        },
    decreases to - from,
{
    if from < to {
        lemma_given(m, files, from, to - 1, i, f);
        assert(f != to - 1 ==> files[f] != files[to - 1]);
    }
}

proof fn lemma_owners(data: Seq<DataView>, files: Seq<Seq<char>>, n: int, f: int)
    requires
        forall|k: int| 0 <= k < data.len() ==> (#[trigger] data[k]).file_count >= 0,
        files.no_duplicates(),
        0 <= n <= data.len(),
        files_before(data, data.len() as int) <= files.len(),
        0 <= f < files.len(),
    ensures
        forall|i: int|
            i < n && #[trigger] brings(data, i, f) ==> value_at(owners(data, files, n), files[f])
                == Some(i as u64),
    decreases n,
{
    if n > 0 {
        lemma_owners(data, files, n - 1, f);
        let total = files.len() as int;
        lemma_files_before_fit(data, total, n, data.len() as int);
        lemma_files_before_fit(data, total, n - 1, data.len() as int);
        lemma_given(
            owners(data, files, n - 1),
            files,
            share_start(data, total, n - 1),
            share_start(data, total, n),
            n - 1,
            f,
        );
        assert forall|i: int| i < n && #[trigger] brings(data, i, f) implies value_at(
            owners(data, files, n),
            files[f],
        ) == Some(i as u64) by {
            if i < n - 1 {
                lemma_files_before_fit(data, total, n - 1, data.len() as int);
                lemma_files_before_fit(data, files_before(data, n - 1), i + 1, n - 1);
            }
        }
    }
}

/// Where no name stands twice, each file is noted for the installer that brings
/// it.
pub proof fn law_files_are_noted_for_their_installer(
    data: Seq<DataView>,
    files: Seq<Seq<char>>,
    i: int,
    f: int,
)
    requires
        forall|k: int| 0 <= k < data.len() ==> (#[trigger] data[k]).file_count >= 0,
        files.no_duplicates(),
        files_before(data, data.len() as int) <= files.len(),
        0 <= f < files.len(),
        brings(data, i, f),
    ensures
        value_at(owners(data, files, data.len() as int), files[f]) == Some(i as u64),
{
    lemma_owners(data, files, data.len() as int, f);
}

/// The number of the first `n` files that belong to one of the first `k`
/// installers.
spec fn owned_by_first(m: Map<Seq<char>, u64>, files: Seq<Seq<char>>, n: int, k: int) -> int
    decreases n,
{
    if n <= 0 {
        0
    } else {
        owned_by_first(m, files, n - 1, k) + if m[files[n - 1]] < k {
            1int
        } else {
            0int
        }
    }
}

proof fn lemma_owned_by_first(m: Map<Seq<char>, u64>, files: Seq<Seq<char>>, n: int, k: int)
    requires
        0 <= n <= files.len(),
        0 <= k < u64::MAX,
        forall|f: int| 0 <= f < files.len() ==> m.dom().contains(#[trigger] files[f]),
    ensures
        owned_by_first(m, files, n, k + 1) == owned_by_first(m, files, n, k) + owned(m, files, n, k),
        owned_by_first(m, files, n, 0) == 0,
    decreases n,
{
    if n > 0 {
        lemma_owned_by_first(m, files, n - 1, k);
        assert(m.dom().contains(files[n - 1]));
    }
}

proof fn lemma_recounted_before(
    data: Seq<DataView>,
    m: Map<Seq<char>, u64>,
    files: Seq<Seq<char>>,
    k: int,
)
    requires
        0 <= k <= data.len(),
        data.len() <= u32::MAX,
        forall|f: int| 0 <= f < files.len() ==> m.dom().contains(#[trigger] files[f]),
    ensures
        files_before(recounted(data, m, files), k) == owned_by_first(
            m,
            files,
            files.len() as int,
            k,
        ),
    decreases k,
{
    if k > 0 {
        lemma_recounted_before(data, m, files, k - 1);
        lemma_owned_by_first(m, files, files.len() as int, k - 1);
    } else {
        lemma_owned_by_first(m, files, files.len() as int, 0);
    }
}

/// Of files in the order of their installers, those of the first `k` come first.
proof fn lemma_owned_prefix(m: Map<Seq<char>, u64>, files: Seq<Seq<char>>, n: int, k: int, f: int)
    requires
        0 <= f < n <= files.len(),
        forall|a: int, b: int|
            0 <= a <= b < files.len() ==> m[#[trigger] files[a]] <= m[#[trigger] files[b]],
    ensures
        0 <= owned_by_first(m, files, n, k) <= n,
        m[files[f]] < k ==> owned_by_first(m, files, n, k) > f,
        m[files[f]] >= k ==> owned_by_first(m, files, n, k) <= f,
    decreases n,
{
    if n > 1 {
        if f < n - 1 {
            lemma_owned_prefix(m, files, n - 1, k, f);
            assert(m[files[f]] <= m[files[n - 1]]);
        } else {
            lemma_owned_prefix(m, files, n - 1, k, n - 2);
            assert(m[files[n - 2]] <= m[files[n - 1]]);
            if m[files[n - 1]] < k {
                lemma_all_before(m, files, n, k);
            }
        }
    } else {
        assert(owned_by_first(m, files, 0, k) == 0);
    }
}

proof fn lemma_all_before(m: Map<Seq<char>, u64>, files: Seq<Seq<char>>, n: int, k: int)
    requires
        0 < n <= files.len(),
        m[files[n - 1]] < k,
        forall|a: int, b: int|
            0 <= a <= b < files.len() ==> m[#[trigger] files[a]] <= m[#[trigger] files[b]],
    ensures
        owned_by_first(m, files, n, k) == n,
    decreases n,
{
    if n > 1 {
        assert(m[files[n - 2]] <= m[files[n - 1]]);
        lemma_all_before(m, files, n - 1, k);
    } else {
        assert(owned_by_first(m, files, 0, k) == 0);
    }
}

/// What is left of the files after some were taken out stays with the installers:
/// where the files come in the order of their installers, each is brought by the
/// installer that it is noted for, from that installer's source, and no file is
/// left over.
pub proof fn law_left_files_stay_with_their_installer(
    data: Seq<DataView>,
    m: Map<Seq<char>, u64>,
    files: Seq<Seq<char>>,
    f: int,
)
    requires
        0 <= f < files.len(),
        data.len() <= u32::MAX,
        forall|g: int| 0 <= g < files.len() ==> m.dom().contains(#[trigger] files[g]),
        forall|g: int| 0 <= g < files.len() ==> m[#[trigger] files[g]] < data.len(),
        forall|a: int, b: int|
            0 <= a <= b < files.len() ==> m[#[trigger] files[a]] <= m[#[trigger] files[b]],
    ensures
        ({
            let r = recounted(data, m, files);
            let i = m[files[f]] as int;
            &&& r.len() == data.len()
            &&& brings(r, i, f)
            &&& r[i].download == data[i].download
            &&& r[i].field == data[i].field
            &&& files_before(r, r.len() as int) == files.len()
        }),
{
    let i = m[files[f]] as int;
    let n = files.len() as int;
    lemma_recounted_before(data, m, files, i);
    lemma_recounted_before(data, m, files, i + 1);
    lemma_recounted_before(data, m, files, data.len() as int);
    lemma_owned_prefix(m, files, n, i, f);
    lemma_owned_prefix(m, files, n, i + 1, f);
    assert(m[files[n - 1]] < data.len());
    lemma_all_before(m, files, n, data.len() as int);
}

/// A file of a resumed installation counts as complete exactly where nothing is to
/// be fetched for it, or its name is safe and the file on disk has passed its
/// check. It is checked by its digest where the manifests have changed, and a file
/// that is not looked at is not taken for a sound one.
pub proof fn law_resumed_files_are_checked(a: AssetView, valid: bool, changed: bool)
    ensures
        file_complete(a, valid) <==> a.chunks.len() == 0 || a.is_directory() || (asset_name_fault(
            a.name,
        ) is None && valid),
        check_of(a, changed) == FileCheck::Skip <==> a.chunks.len() == 0 || a.is_directory()
            || asset_name_fault(a.name) is Some,
        check_of(a, changed) == FileCheck::Digest ==> changed,
        check_of(a, changed) == FileCheck::Size ==> !changed,
{
}

/// What is left of a file is in the way: it has failed its check, and none of its
/// chunks is to come from it.
pub open spec fn is_in_the_way(a: AssetView, valid: bool) -> bool {
    &&& a.chunks.len() > 0
    &&& !a.is_directory()
    &&& asset_name_fault(a.name) is None
    &&& !valid
    &&& all_fetched(a.chunks)
}

/// Exactly the files that are in the way are deleted before a resumed
/// installation goes on.
pub proof fn law_only_files_in_the_way_are_deleted(all: Seq<AssetView>, valid: Seq<bool>, n: int)
    requires
        0 <= n <= all.len(),
        valid.len() == all.len(),
    ensures
        forall|f: int| #[trigger]
            deleted_below(all, valid, n).contains(f) <==> 0 <= f < n && is_in_the_way(
                all[f],
                valid[f],
            ),
        0 <= complete_below(all, valid, n) <= n,
        complete_below(all, valid, n) == n <==> forall|f: int|
            0 <= f < n ==> file_complete(#[trigger] all[f], valid[f]),
    decreases n,
{
    if n > 0 {
        law_only_files_in_the_way_are_deleted(all, valid, n - 1);
        let b = deleted_below(all, valid, n - 1);
        let r = deleted_below(all, valid, n);
        assert forall|f: int| #[trigger] r.contains(f) <==> 0 <= f < n && is_in_the_way(
            all[f],
            valid[f],
        ) by {
            assert(b.contains(f) <==> 0 <= f < n - 1 && is_in_the_way(all[f], valid[f]));
            if b.contains(f) {
                let j = choose|j: int| 0 <= j < b.len() && b[j] == f;
                assert(r[j] == f);
            }
            if r.contains(f) {
                let j = choose|j: int| 0 <= j < r.len() && r[j] == f;
                if j < b.len() {
                    assert(b[j] == f);
                }
            }
            if f == n - 1 && is_in_the_way(all[f], valid[f]) {
                assert(r[b.len() as int] == f);
            }
        }
        assert(complete_below(all, valid, n) == n ==> file_complete(all[n - 1], valid[n - 1]));
    }
}

/// A chunk of a file that was not found whole is noted under its place among all
/// chunks.
pub open spec fn is_started(
    all: Seq<AssetView>,
    whole: Seq<bool>,
    noted: Map<Seq<char>, u64>,
    f: int,
    k: int,
    at: u32,
    size: u64,
) -> bool {
    exists|a: int, c: int|
        0 <= a < all.len() && 0 <= c < all[a].chunks.len() && (a < f || (a == f && c < k)) && !whole[a]
            && value_at(noted, (#[trigger] all[a].chunks[c]).name) == Some(size) && at
            == chunks_before(all, a) + c
}

/// Exactly the noted chunks of files that were not found whole count as downloaded
/// before, each under its own place and with the noted size.
pub proof fn law_noted_chunks_are_not_fetched_again(
    all: Seq<AssetView>,
    whole: Seq<bool>,
    noted: Map<Seq<char>, u64>,
    at: u32,
    size: u64,
)
    requires
        whole.len() == all.len(),
        chunks_before(all, all.len() as int) <= u32::MAX,
    ensures
        value_at(started_chunks(all, whole, noted).0, at) == Some(size) <==> is_started(
            all,
            whole,
            noted,
            all.len() as int,
            0,
            at,
            size,
        ),
{
    lemma_started(all, whole, noted, all.len() as int, 0, at);
}

proof fn lemma_place_is_one(all: Seq<AssetView>, a: int, c: int, b: int, d: int)
    requires
        0 <= a < all.len(),
        0 <= b < all.len(),
        0 <= c < all[a].chunks.len(),
        0 <= d < all[b].chunks.len(),
        chunks_before(all, a) + c == chunks_before(all, b) + d,
    ensures
        a == b,
        c == d,
{
    if a < b {
        lemma_flat_chunks(all, b);
        assert(chunks_before(all, a + 1) <= chunks_before(all, b));
    } else if b < a {
        lemma_flat_chunks(all, a);
        assert(chunks_before(all, b + 1) <= chunks_before(all, a));
    }
}

proof fn lemma_started(
    all: Seq<AssetView>,
    whole: Seq<bool>,
    noted: Map<Seq<char>, u64>,
    f: int,
    k: int,
    at: u32,
)
    requires
        whole.len() == all.len(),
        chunks_before(all, all.len() as int) <= u32::MAX,
        0 <= f <= all.len(),
        f == all.len() ==> k <= 0,
        f < all.len() ==> k <= all[f].chunks.len(),
    ensures
        forall|size: u64|
            value_at(started(all, whole, noted, f, k).0, at) == Some(size) <==> #[trigger] is_started(
                all,
                whole,
                noted,
                f,
                k,
                at,
                size,
            ),
    decreases f, k,
{
    if k <= 0 {
        if f > 0 {
            let n = all[f - 1].chunks.len() as int;
            lemma_started(all, whole, noted, f - 1, n, at);
            assert forall|size: u64|
                value_at(started(all, whole, noted, f, k).0, at) == Some(size)
                    <==> #[trigger] is_started(all, whole, noted, f, k, at, size) by {
                assert(is_started(all, whole, noted, f - 1, n, at, size) <==> value_at(
                    started(all, whole, noted, f - 1, n).0,
                    at,
                ) == Some(size));
                if is_started(all, whole, noted, f, k, at, size) {
                    let (a, c) = choose|a: int, c: int|
                        0 <= a < all.len() && 0 <= c < all[a].chunks.len() && (a < f || (a == f && c
                            < k)) && !whole[a] && value_at(
                            noted,
                            (#[trigger] all[a].chunks[c]).name,
                        ) == Some(size) && at == chunks_before(all, a) + c;
                    assert(a < f - 1 || (a == f - 1 && c < n));
                }
                if is_started(all, whole, noted, f - 1, n, at, size) {
                    let (a, c) = choose|a: int, c: int|
                        0 <= a < all.len() && 0 <= c < all[a].chunks.len() && (a < f - 1 || (a == f
                            - 1 && c < n)) && !whole[a] && value_at(
                            noted,
                            (#[trigger] all[a].chunks[c]).name,
                        ) == Some(size) && at == chunks_before(all, a) + c;
                    assert(a < f);
                }
            }
        }
    } else {
        lemma_started(all, whole, noted, f, k - 1, at);
        lemma_flat_chunks(all, all.len() as int);
        assert(chunks_before(all, f + 1) <= chunks_before(all, all.len() as int));
        assert(0 <= chunks_before(all, f));
        let x = all[f].chunks[k - 1];
        let place = chunks_before(all, f) + k - 1;
        assert forall|size: u64|
            value_at(started(all, whole, noted, f, k).0, at) == Some(size)
                <==> #[trigger] is_started(all, whole, noted, f, k, at, size) by {
            assert(is_started(all, whole, noted, f, k - 1, at, size) <==> value_at(
                started(all, whole, noted, f, k - 1).0,
                at,
            ) == Some(size));
            if is_started(all, whole, noted, f, k, at, size) {
                let (a, c) = choose|a: int, c: int|
                    0 <= a < all.len() && 0 <= c < all[a].chunks.len() && (a < f || (a == f && c
                        < k)) && !whole[a] && value_at(noted, (#[trigger] all[a].chunks[c]).name)
                        == Some(size) && at == chunks_before(all, a) + c;
                if at == place {
                    lemma_place_is_one(all, a, c, f, k - 1);
                } else {
                    assert(a < f || (a == f && c < k - 1));
                    assert(is_started(all, whole, noted, f, k - 1, at, size));
                }
            }
            if is_started(all, whole, noted, f, k - 1, at, size) {
                let (a, c) = choose|a: int, c: int|
                    0 <= a < all.len() && 0 <= c < all[a].chunks.len() && (a < f || (a == f && c < k
                        - 1)) && !whole[a] && value_at(noted, (#[trigger] all[a].chunks[c]).name)
                        == Some(size) && at == chunks_before(all, a) + c;
                assert(a < f || (a == f && c < k));
                if at == place {
                    lemma_place_is_one(all, a, c, f, k - 1);
                }
            }
            if at == place && !whole[f] && value_at(noted, x.name) == Some(size) {
                assert(value_at(noted, all[f].chunks[k - 1].name) == Some(size));
            }
        }
    }
}

/// A file counts as found on disk: something is to be fetched for it, its name is
/// safe, and the file has passed its check.
pub open spec fn is_found(a: AssetView, valid: bool) -> bool {
    a.chunks.len() > 0 && !a.is_directory() && asset_name_fault(a.name) is None && valid
}

/// The bytes that are spared grow by what a file would have taken to download
/// where it was found on disk, and by nothing for any other file; the files that
/// are complete are counted one by one.
pub proof fn law_found_files_spare_their_bytes(all: Seq<AssetView>, valid: Seq<bool>, f: int)
    requires
        0 <= f < all.len(),
        valid.len() == all.len(),
    ensures
        found_whole(all[f], valid[f]) <==> is_found(all[f], valid[f]),
        spared_below(all, valid, 0) == 0,
        spared_below(all, valid, f + 1) == (spared_below(all, valid, f) + if is_found(
            all[f],
            valid[f],
        ) {
            let bytes = chunk_bytes_below(all[f].chunks, all[f].chunks.len() as int);
            if bytes <= u64::MAX {
                bytes
            } else {
                u64::MAX as int
            }
        } else {
            0
        }) % 0x1_0000_0000_0000_0000,
        complete_below(all, valid, f + 1) - complete_below(all, valid, f) == if is_found(
            all[f],
            valid[f],
        ) || all[f].chunks.len() == 0 || all[f].is_directory() {
            1int
        } else {
            0
        },
{
}

/// The bytes that a file takes to download are the sizes of those of its chunks
/// that do not come from an old file: each such chunk adds its own, and no other
/// adds anything.
pub proof fn law_chunks_from_old_files_cost_nothing(s: Seq<ChunkView>, c: ChunkView)
    ensures
        chunk_bytes_below(s, 0) == 0,
        chunk_bytes_below(s.push(c), s.len() as int + 1) - chunk_bytes_below(s, s.len() as int)
            == if c.old_offset < 0 {
            c.size as int
        } else {
            0
        },
{
    lemma_bytes_of_head(s, c, s.len() as int);
}

proof fn lemma_bytes_of_head(s: Seq<ChunkView>, c: ChunkView, k: int)
    requires
        0 <= k <= s.len(),
    ensures
        chunk_bytes_below(s.push(c), k) == chunk_bytes_below(s, k),
    decreases k,
{
    if k > 0 {
        lemma_bytes_of_head(s, c, k - 1);
    }
}

/// A chunk that an earlier run has noted spares the noted bytes, unless its file
/// was found whole; the bytes of a whole file are not counted a second time.
pub proof fn law_noted_bytes_are_counted_once(
    all: Seq<AssetView>,
    whole: Seq<bool>,
    noted: Map<Seq<char>, u64>,
    f: int,
    k: int,
)
    requires
        0 <= f < all.len(),
        0 <= k < all[f].chunks.len(),
        whole.len() == all.len(),
    ensures
        started(all, whole, noted, f, k + 1).1 - started(all, whole, noted, f, k).1 == match value_at(
            noted,
            all[f].chunks[k].name,
        ) {
            Some(size) => if whole[f] {
                0
            } else {
                size as int
            },
            None => 0,
        },
        started(all, whole, noted, f + 1, 0) == started(
            all,
            whole,
            noted,
            f,
            all[f].chunks.len() as int,
        ),
        started(all, whole, noted, 0, 0).1 == 0,
{
}

/// The bytes that are noted for a chunk that is downloaded are those under which
/// an earlier run has noted it; a chunk of a whole file, or one that was not noted,
/// starts at zero.
pub proof fn law_downloads_start_from_what_is_noted(
    all: Seq<AssetView>,
    whole: Seq<bool>,
    noted: Map<Seq<char>, u64>,
    items: Seq<DownloadItem>,
    i: int,
)
    requires
        whole.len() == all.len(),
        chunks_before(all, all.len() as int) <= u32::MAX,
        0 <= i < items.len(),
        item_refers(all, items[i]),
    ensures
        ({
            let f = items[i].file_idx as int;
            let size = value_at(noted, all[f].chunks[items[i].chunk_idx as int].name);
            let r = noted_bytes(all, items, started_chunks(all, whole, noted).0)[i];
            &&& !whole[f] && size is Some && size->0 <= u32::MAX ==> r == size->0
            &&& whole[f] || size is None ==> r == 0
        }),
{
    let f = items[i].file_idx as int;
    let c = items[i].chunk_idx as int;
    lemma_flat_chunk(all, all.len() as int, f, c);
    let at = (chunks_before(all, f) + c) as u32;
    let m = started_chunks(all, whole, noted).0;
    let size = value_at(noted, all[f].chunks[c].name);
    if !whole[f] && size is Some {
        law_noted_chunks_are_not_fetched_again(all, whole, noted, at, size->0);
        assert(all[f].chunks[c].name == all[f].chunks[c].name);
        assert(is_started(all, whole, noted, all.len() as int, 0, at, size->0));
    } else if value_at(m, at) is Some {
        let had = value_at(m, at)->0;
        law_noted_chunks_are_not_fetched_again(all, whole, noted, at, had);
        let (a, d) = choose|a: int, d: int|
            0 <= a < all.len() && 0 <= d < all[a].chunks.len() && (a < all.len() || (a == all.len()
                && d < 0)) && !whole[a] && value_at(noted, (#[trigger] all[a].chunks[d]).name)
                == Some(had) && at == chunks_before(all, a) + d;
        lemma_place_is_one(all, a, d, f, c);
    }
}

/// An installation that is not resumed starts from nothing: no file counts as
/// complete, and no chunk as downloaded before. In one that is resumed, the files
/// that were found on disk and those for which nothing is fetched are complete, and
/// nothing is taken from an earlier run for a file that was found.
pub proof fn law_fresh_installations_start_from_nothing(
    all: Seq<AssetView>,
    valid: Seq<bool>,
    kept: Map<Seq<char>, u64>,
    f: int,
)
    requires
        0 <= f < all.len(),
        valid.len() == all.len(),
    ensures
        !complete_files(all, None)[f],
        complete_files(all, None).len() == all.len(),
        noted_chunks(all, None, kept).0 == Map::<u32, u64>::empty(),
        noted_chunks(all, None, kept).1 == 0,
        complete_files(all, Some(valid))[f] <==> is_found(all[f], valid[f]) || all[f].chunks.len()
            == 0 || all[f].is_directory(),
        complete_files(all, Some(valid)).len() == all.len(),
        noted_chunks(all, Some(valid), kept) == started_chunks(
            all,
            Seq::new(all.len(), |g: int| is_found(all[g], valid[g])),
            kept,
        ),
{
    assert(Seq::new(all.len(), |g: int| is_found(all[g], valid[g])) =~= Seq::new(
        all.len(),
        |g: int| found_whole(all[g], valid[g]),
    ));
}

} // verus!
