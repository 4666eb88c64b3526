//! Updates: which files change, and which of their chunks the old files hold.

use vstd::prelude::*;
use crate::collections::has_name;
use crate::collections::names;
use crate::collections::new_name_map;
use crate::collections::new_name_set;
use crate::collections::new_offset_map;
use crate::collections::new_text_map;
use crate::collections::number_at;
use crate::collections::numbers;
use crate::collections::offset_at;
use crate::collections::offsets_of;
use crate::collections::put_number;
use crate::collections::put_offset;
use crate::collections::put_text;
use crate::collections::text_at;
use crate::collections::texts;
use crate::collections::value_at;
use crate::collections::NameMap;
use crate::collections::NameSet;
use crate::collections::OffsetMap;
use crate::collections::TextMap;
use crate::proto_parse::asset_views;
use crate::proto_parse::chunk_views;
use crate::proto_parse::AssetView;
use crate::proto_parse::ChunkView;
use crate::proto_parse::SophonManifestAssetProperty;
use crate::proto_parse::SophonManifestProto;
use crate::text::views;

verus! {

/// The names of the first `n` assets that are files and not among `kept`.
pub open spec fn deleted_below(old: Seq<AssetView>, kept: Set<Seq<char>>, n: int) -> Seq<Seq<char>>
    decreases n,
{
    if n <= 0 {
        Seq::empty()
    } else if !old[n - 1].is_directory() && !kept.contains(old[n - 1].name) {
        deleted_below(old, kept, n - 1).push(old[n - 1].name)
    } else {
        deleted_below(old, kept, n - 1)
    }
}

/// The files of an old manifest that are not in the new one, in order.
pub open spec fn deleted_files(old: Seq<AssetView>, kept: Set<Seq<char>>) -> Seq<Seq<char>> {
    deleted_below(old, kept, old.len() as int)
}

/// The files of an old manifest that are not in the new one, in order.
pub fn collect_deleted_files(old_manifest: &SophonManifestProto, new_names: &NameSet) -> (r: Vec<
    String,
>)
    ensures
        views(r@) == deleted_files(old_manifest@, names(*new_names)),
{
    let ghost old = old_manifest@;
    let ghost kept = names(*new_names);
    let mut out: Vec<String> = Vec::new();
    let mut i: usize = 0;
    assert(views(out@) =~= deleted_below(old, kept, 0));
    while i < old_manifest.assets.len()
        invariant
            i <= old_manifest.assets@.len(),
            old == old_manifest@,
            kept == names(*new_names),
            views(out@) == deleted_below(old, kept, i as int),
        decreases old_manifest.assets@.len() - i,
    {
        let a = &old_manifest.assets[i];
        assert(old[i as int] == a@);
        let ghost before = views(out@);
        if !a.is_directory() && !has_name(new_names, a.asset_name.as_str()) {
            out.push(a.asset_name.clone());
            assert(views(out@) =~= before.push(a@.name));
        }
        i += 1;
    }
    out
}

/// The checksums of the first `n` assets that are files and not among `left_out`,
/// by name; of two files with one name the later counts.
pub open spec fn md5s_below(old: Seq<AssetView>, left_out: Set<Seq<char>>, n: int) -> Map<
    Seq<char>,
    Seq<char>,
>
    decreases n,
{
    if n <= 0 {
        Map::empty()
    } else if !old[n - 1].is_directory() && !left_out.contains(old[n - 1].name) {
        md5s_below(old, left_out, n - 1).insert(old[n - 1].name, old[n - 1].md5)
    } else {
        md5s_below(old, left_out, n - 1)
    }
}

/// The checksums of the files of a manifest that are not among `left_out`.
pub(crate) fn md5_map_without(manifest: &SophonManifestProto, left_out: &NameSet) -> (r: TextMap)
    ensures
        texts(r) == md5s_below(manifest@, names(*left_out), manifest@.len() as int),
{
    let ghost old = manifest@;
    let mut m = new_text_map();
    let mut i: usize = 0;
    while i < manifest.assets.len()
        invariant
            i <= manifest.assets@.len(),
            old == manifest@,
            texts(m) == md5s_below(old, names(*left_out), i as int),
        decreases manifest.assets@.len() - i,
    {
        let a = &manifest.assets[i];
        assert(old[i as int] == a@);
        if !a.is_directory() && !has_name(left_out, a.asset_name.as_str()) {
            put_text(&mut m, a.asset_name.clone(), a.asset_hash_md5.clone());
        }
        i += 1;
    }
    m
}

/// The checksums of the files of a manifest, by name.
pub fn build_old_md5_map(old_manifest: &SophonManifestProto) -> (r: TextMap)
    ensures
        texts(r) == md5s_below(old_manifest@, Set::empty(), old_manifest@.len() as int),
{
    let none = new_name_set();
    md5_map_without(old_manifest, &none)
}

/// A new asset is a directory, or a file that is new or has another checksum.
pub open spec fn changes(a: AssetView, old_md5: Map<Seq<char>, Seq<char>>) -> bool {
    a.is_directory() || value_at(old_md5, a.name) != Some(a.md5)
}

/// The first `n` assets, without the files that stay as they are.
pub open spec fn changed_below(
    new: Seq<AssetView>,
    old_md5: Map<Seq<char>, Seq<char>>,
    n: int,
) -> Seq<AssetView>
    decreases n,
{
    if n <= 0 {
        Seq::empty()
    } else if changes(new[n - 1], old_md5) {
        changed_below(new, old_md5, n - 1).push(new[n - 1])
    } else {
        changed_below(new, old_md5, n - 1)
    }
}

/// The assets of a manifest, without the files that stay as they are.
pub open spec fn changed_assets(new: Seq<AssetView>, old_md5: Map<Seq<char>, Seq<char>>) -> Seq<
    AssetView,
> {
    changed_below(new, old_md5, new.len() as int)
}

/// The assets of a manifest, without the files that stay as they are.
pub fn compute_diff_files(new_manifest: SophonManifestProto, old_md5_map: &TextMap) -> (r: Vec<
    SophonManifestAssetProperty,
>)
    ensures
        asset_views(r@) == changed_assets(new_manifest@, texts(*old_md5_map)),
{
    let ghost new = new_manifest@;
    let ghost old = texts(*old_md5_map);
    let mut out: Vec<SophonManifestAssetProperty> = Vec::new();
    let mut i: usize = 0;
    assert(asset_views(out@) =~= changed_below(new, old, 0));
    while i < new_manifest.assets.len()
        invariant
            i <= new_manifest.assets@.len(),
            new == new_manifest@,
            old == texts(*old_md5_map),
            asset_views(out@) == changed_below(new, old, i as int),
        decreases new_manifest.assets@.len() - i,
    {
        let a = &new_manifest.assets[i];
        assert(new[i as int] == a@);
        let ghost before = asset_views(out@);
        let keep = if a.is_directory() {
            true
        } else {
            match text_at(old_md5_map, a.asset_name.as_str()) {
                Some(m) => *m.as_str() != *a.asset_hash_md5.as_str(),
                None => true,
            }
        };
        assert(keep == changes(a@, old));
        if keep {
            out.push(a.clone());
            assert(asset_views(out@) =~= before.push(a@));
        }
        i += 1;
    }
    out
}

/// Ids for the file names and the chunk checksums of an old manifest, and the
/// place of each chunk in its file under the two ids.
pub ghost struct Interned {
    pub file_ids: Map<Seq<char>, u64>,
    pub hash_ids: Map<Seq<char>, u64>,
    pub offsets: Map<(u32, u32), u64>,
}

/// The id of `key`: the one that it has, or else the next.
pub open spec fn id_for(ids: Map<Seq<char>, u64>, key: Seq<char>) -> u64 {
    if ids.dom().contains(key) {
        ids[key]
    } else {
        (ids.dom().len() as u32) as u64
    }
}

/// `ids` with an id for `key`.
pub open spec fn with_id(ids: Map<Seq<char>, u64>, key: Seq<char>) -> Map<Seq<char>, u64> {
    if ids.dom().contains(key) {
        ids
    } else {
        ids.insert(key, id_for(ids, key))
    }
}

/// `t` with the first `k` chunks of a file.
pub open spec fn with_chunks(
    t: Interned,
    file_id: u64,
    chunks: Seq<ChunkView>,
    keep: bool,
    k: int,
) -> Interned
    decreases k,
{
    if k <= 0 {
        t
    } else {
        let s = with_chunks(t, file_id, chunks, keep, k - 1);
        let c = chunks[k - 1];
        let id = id_for(s.hash_ids, c.decompressed_md5);
        Interned {
            file_ids: s.file_ids,
            hash_ids: with_id(s.hash_ids, c.decompressed_md5),
            offsets: if keep {
                s.offsets.insert((file_id as u32, id as u32), c.on_file_offset)
            } else {
                s.offsets
            },
        }
    }
}

/// The ids and places out of the first `n` assets; the places in files among
/// `left_out` are not kept.
pub open spec fn interned_below(old: Seq<AssetView>, left_out: Set<Seq<char>>, n: int) -> Interned
    decreases n,
{
    if n <= 0 {
        Interned { file_ids: Map::empty(), hash_ids: Map::empty(), offsets: Map::empty() }
    } else {
        let t = interned_below(old, left_out, n - 1);
        let a = old[n - 1];
        if a.is_directory() {
            t
        } else {
            with_chunks(
                Interned { file_ids: with_id(t.file_ids, a.name), ..t },
                id_for(t.file_ids, a.name),
                a.chunks,
                !left_out.contains(a.name),
                a.chunks.len() as int,
            )
        }
    }
}

/// The ids and places out of a manifest.
pub open spec fn interned(old: Seq<AssetView>, left_out: Set<Seq<char>>) -> Interned {
    interned_below(old, left_out, old.len() as int)
}

/// A numbering of names, and the number of names in it.
struct Numbering {
    pub map: NameMap,
    pub count: usize,
}

impl Numbering {
    spec fn wf(&self) -> bool {
        numbers(self.map).dom().finite() && numbers(self.map).dom().len() == self.count
    }

    fn new() -> (r: Self)
        ensures
            r.wf(),
            numbers(r.map) == Map::<Seq<char>, u64>::empty(),
    {
        let map = new_name_map();
        assert(numbers(map).dom() =~= Set::<Seq<char>>::empty());
        Numbering { map, count: 0 }
    }

    /// The id of `key`, which gets one if it has none.
    fn id_of(&mut self, key: &str) -> (r: u64)
        requires
            old(self).wf(),
            old(self).count < usize::MAX,
        ensures
            final(self).wf(),
            r == id_for(numbers(old(self).map), key@),
            numbers(final(self).map) == with_id(numbers(old(self).map), key@),
            final(self).count <= old(self).count + 1,
    {
        match number_at(&self.map, key) {
            Some(id) => id,
            None => {
                let id: u64 = (self.count as u32) as u64;
                put_number(&mut self.map, key.to_owned(), id);
                assert(numbers(self.map).dom() =~= numbers(old(self).map).dom().insert(key@));
                self.count = self.count + 1;
                id
            },
        }
    }
}

/// The number of files and chunks of the first `n` assets.
pub open spec fn entries_below(old: Seq<AssetView>, n: int) -> int
    decreases n,
{
    if n <= 0 {
        0
    } else {
        entries_below(old, n - 1) + 1 + old[n - 1].chunks.len()
    }
}

/// More assets have no fewer entries.
proof fn lemma_entries_grow(old: Seq<AssetView>, i: int, n: int)
    requires
        0 <= i <= n <= old.len(),
    ensures
        0 <= entries_below(old, i) <= entries_below(old, n),
    decreases n,
{
    if i < n {
        lemma_entries_grow(old, i, n - 1);
    } else if n > 0 {
        lemma_entries_grow(old, n - 1, n - 1);
    }
}

pub(crate) fn intern_without(manifest: &SophonManifestProto, left_out: &NameSet) -> (r: (
    OffsetMap,
    NameMap,
    NameMap,
))
    requires
        entries_below(manifest@, manifest@.len() as int) < usize::MAX,
    ensures
        ({
            let t = interned(manifest@, names(*left_out));
            &&& offsets_of(r.0) == t.offsets
            &&& numbers(r.1) == t.file_ids
            &&& numbers(r.2) == t.hash_ids
        }),
{
    let ghost old = manifest@;
    let ghost out = names(*left_out);
    let ghost total = entries_below(old, old.len() as int);
    let mut files = Numbering::new();
    let mut hashes = Numbering::new();
    let mut offsets = new_offset_map();
    let mut i: usize = 0;
    while i < manifest.assets.len()
        invariant
            i <= manifest.assets@.len(),
            old == manifest@,
            out == names(*left_out),
            files.wf(),
            hashes.wf(),
            total == entries_below(old, old.len() as int),
            total < usize::MAX,
            files.count <= entries_below(old, i as int),
            hashes.count <= entries_below(old, i as int),
            interned_below(old, out, i as int) == (Interned {
                file_ids: numbers(files.map),
                hash_ids: numbers(hashes.map),
                offsets: offsets_of(offsets),
            }),
        decreases manifest.assets@.len() - i,
    {
        let a = &manifest.assets[i];
        assert(old[i as int] == a@);
        proof {
            lemma_entries_grow(old, i as int + 1, old.len() as int);
            lemma_entries_grow(old, i as int, old.len() as int);
        }
        if !a.is_directory() {
            let keep = !has_name(left_out, a.asset_name.as_str());
            let ghost t0 = interned_below(old, out, i as int);
            let file_id: u64 = files.id_of(a.asset_name.as_str());
            let ghost t1 = Interned { file_ids: with_id(t0.file_ids, a@.name), ..t0 };
            let ghost first = hashes.count;
            let mut k: usize = 0;
            while k < a.asset_chunks.len()
                invariant
                    k <= a.asset_chunks@.len(),
                    a@.chunks == chunk_views(a.asset_chunks@),
                    hashes.wf(),
                    first + a.asset_chunks@.len() < usize::MAX,
                    hashes.count <= first + k,
                    with_chunks(t1, file_id, a@.chunks, keep, k as int) == (Interned {
                        file_ids: numbers(files.map),
                        hash_ids: numbers(hashes.map),
                        offsets: offsets_of(offsets),
                    }),
                decreases a.asset_chunks@.len() - k,
            {
                let c = &a.asset_chunks[k];
                assert(a@.chunks[k as int] == c@);
                let hash_id: u64 = hashes.id_of(c.chunk_decompressed_hash_md5.as_str());
                if keep {
                    put_offset(
                        &mut offsets,
                        (file_id as u32, hash_id as u32),
                        c.chunk_on_file_offset,
                    );
                }
                k += 1;
            }
        }
        i += 1;
    }
    (offsets, files.map, hashes.map)
}

/// Ids for the file names and the chunk checksums of an old manifest, counted in
/// the order in which they come, and the place of each chunk in its file.
pub fn intern_old_chunk_offsets(manifest: &SophonManifestProto) -> (r: (
    OffsetMap,
    NameMap,
    NameMap,
))
    requires
        entries_below(manifest@, manifest@.len() as int) < usize::MAX,
    ensures
        ({
            let t = interned(manifest@, Set::empty());
            &&& offsets_of(r.0) == t.offsets
            &&& numbers(r.1) == t.file_ids
            &&& numbers(r.2) == t.hash_ids
        }),
{
    let none = new_name_set();
    intern_without(manifest, &none)
}

/// The place under the ids of a file name and a chunk checksum.
pub open spec fn place_in(t: Interned, name: Seq<char>, md5: Seq<char>) -> Option<u64> {
    match (value_at(t.file_ids, name), value_at(t.hash_ids, md5)) {
        (Some(f), Some(h)) => value_at(t.offsets, (f as u32, h as u32)),
        _ => None,
    }
}

/// A chunk with the place of its content in the old file of that name.
pub open spec fn placed_chunk(c: ChunkView, t: Interned, name: Seq<char>) -> ChunkView {
    ChunkView {
        old_offset: match place_in(t, name, c.decompressed_md5) {
            Some(o) => o as i64,
            None => -1i64,
        },
        ..c
    }
}

/// An asset with the places of its chunks in the old file of its name.
pub open spec fn placed_asset(a: AssetView, t: Interned) -> AssetView {
    AssetView { chunks: a.chunks.map_values(|c: ChunkView| placed_chunk(c, t, a.name)), ..a }
}

/// Puts into each chunk the place of its content in the old file of the same
/// name, and -1 where there is none.
pub fn assign_chunk_offsets(
    diff_files: &mut Vec<SophonManifestAssetProperty>,
    offsets: &OffsetMap,
    name_to_id: &NameMap,
    hash_to_id: &NameMap,
)
    ensures
        asset_views(final(diff_files)@) == asset_views(old(diff_files)@).map_values(
            |a: AssetView|
                placed_asset(
                    a,
                    Interned {
                        file_ids: numbers(*name_to_id),
                        hash_ids: numbers(*hash_to_id),
                        offsets: offsets_of(*offsets),
                    },
                ),
        ),
{
    let ghost t = Interned {
        file_ids: numbers(*name_to_id),
        hash_ids: numbers(*hash_to_id),
        offsets: offsets_of(*offsets),
    };
    let ghost before = asset_views(diff_files@);
    let mut i: usize = 0;
    while i < diff_files.len()
        invariant
            i <= diff_files@.len(),
            diff_files@.len() == before.len(),
            before == asset_views(old(diff_files)@),
            t == (Interned {
                file_ids: numbers(*name_to_id),
                hash_ids: numbers(*hash_to_id),
                offsets: offsets_of(*offsets),
            }),
            forall|j: int| 0 <= j < i ==> #[trigger] diff_files@[j]@ == placed_asset(before[j], t),
            forall|j: int| i <= j < before.len() ==> #[trigger] diff_files@[j]@ == before[j],
        decreases diff_files@.len() - i,
    {
        let a = with_places(diff_files[i].clone(), offsets, name_to_id, hash_to_id);
        diff_files.set(i, a);
        i += 1;
    }
    assert(asset_views(diff_files@) =~= before.map_values(|a: AssetView| placed_asset(a, t)));
}

fn with_places(
    asset: SophonManifestAssetProperty,
    offsets: &OffsetMap,
    name_to_id: &NameMap,
    hash_to_id: &NameMap,
) -> (r: SophonManifestAssetProperty)
    ensures
        r@ == placed_asset(
            asset@,
            Interned {
                file_ids: numbers(*name_to_id),
                hash_ids: numbers(*hash_to_id),
                offsets: offsets_of(*offsets),
            },
        ),
{
    let ghost t = Interned {
        file_ids: numbers(*name_to_id),
        hash_ids: numbers(*hash_to_id),
        offsets: offsets_of(*offsets),
    };
    let ghost name = asset@.name;
    let ghost chunks = asset@.chunks;
    let mut a = asset;
    let file_id = number_at(name_to_id, a.asset_name.as_str());
    let mut list = a.asset_chunks;
    let mut k: usize = 0;
    while k < list.len()
        invariant
            k <= list@.len(),
            list@.len() == chunks.len(),
            t == (Interned {
                file_ids: numbers(*name_to_id),
                hash_ids: numbers(*hash_to_id),
                offsets: offsets_of(*offsets),
            }),
            file_id == value_at(t.file_ids, name),
            forall|j: int| 0 <= j < k ==> #[trigger] list@[j]@ == placed_chunk(chunks[j], t, name),
            forall|j: int| k <= j < chunks.len() ==> #[trigger] list@[j]@ == chunks[j],
        decreases list@.len() - k,
    {
        let mut c = list[k].clone();
        assert(c@ == chunks[k as int]);
        c.chunk_old_offset = match (
            file_id,
            number_at(hash_to_id, c.chunk_decompressed_hash_md5.as_str()),
        ) {
            (Some(f), Some(h)) => match offset_at(offsets, (f as u32, h as u32)) {
                Some(o) => o as i64,
                None => -1,
            },
            _ => -1,
        };
        list.set(k, c);
        k += 1;
    }
    a.asset_chunks = list;
    assert(a@.chunks =~= chunks.map_values(|c: ChunkView| placed_chunk(c, t, name)));
    a
}

/// The place of the last of the first `k` chunks with a checksum.
pub open spec fn last_place(chunks: Seq<ChunkView>, k: int, md5: Seq<char>) -> Option<u64>
    decreases k,
{
    if k <= 0 {
        None
    } else if chunks[k - 1].decompressed_md5 == md5 {
        Some(chunks[k - 1].on_file_offset)
    } else {
        last_place(chunks, k - 1, md5)
    }
}

/// Where the first `n` old assets, without those among `left_out`, hold the
/// content with a checksum in the file of a name.
pub open spec fn old_place(
    old: Seq<AssetView>,
    left_out: Set<Seq<char>>,
    n: int,
    name: Seq<char>,
    md5: Seq<char>,
) -> Option<u64>
    decreases n,
{
    if n <= 0 {
        None
    } else {
        let a = old[n - 1];
        let before = old_place(old, left_out, n - 1, name, md5);
        if a.is_directory() || a.name != name || left_out.contains(name) {
            before
        } else {
            match last_place(a.chunks, a.chunks.len() as int, md5) {
                Some(o) => Some(o),
                None => before,
            }
        }
    }
}

/// Ids are counted from zero, and no two names have one id.
pub open spec fn ids_ok(ids: Map<Seq<char>, u64>) -> bool {
    &&& ids.dom().finite()
    &&& ids.dom().len() <= 0x1_0000_0000
    &&& forall|k: Seq<char>| #[trigger] ids.dom().contains(k) ==> ids[k] < ids.dom().len()
    &&& forall|a: Seq<char>, b: Seq<char>|
        #[trigger] ids.dom().contains(a) && #[trigger] ids.dom().contains(b) && ids[a] == ids[b]
            ==> a == b
}

/// Places are kept only under ids that were given out.
pub open spec fn interned_ok(t: Interned) -> bool {
    &&& ids_ok(t.file_ids)
    &&& ids_ok(t.hash_ids)
    &&& forall|f: u32, h: u32|
        #[trigger] t.offsets.dom().contains((f, h)) ==> f < t.file_ids.dom().len() && h
            < t.hash_ids.dom().len()
}

proof fn lemma_with_id(ids: Map<Seq<char>, u64>, key: Seq<char>)
    requires
        ids_ok(ids),
        with_id(ids, key).dom().len() <= 0x1_0000_0000,
    ensures
        ids_ok(with_id(ids, key)),
        with_id(ids, key).dom().contains(key),
        with_id(ids, key)[key] == id_for(ids, key),
        id_for(ids, key) < with_id(ids, key).dom().len(),
        with_id(ids, key).dom().len() <= ids.dom().len() + 1,
        ids.dom().len() <= with_id(ids, key).dom().len(),
        forall|k: Seq<char>|
            k != key ==> value_at(#[trigger] with_id(ids, key), k) == value_at(ids, k),
        !ids.dom().contains(key) ==> id_for(ids, key) == ids.dom().len(),
{
    let out = with_id(ids, key);
    if !ids.dom().contains(key) {
        assert(out.dom() =~= ids.dom().insert(key));
        assert(id_for(ids, key) == ids.dom().len());
        assert forall|a: Seq<char>, b: Seq<char>|
            #[trigger] out.dom().contains(a) && #[trigger] out.dom().contains(b) && out[a]
                == out[b] implies a == b by {
            assert(a != key ==> ids.dom().contains(a));
            assert(b != key ==> ids.dom().contains(b));
        }
        assert forall|k: Seq<char>| #[trigger] out.dom().contains(k) implies out[k]
            < out.dom().len() by {
            assert(k != key ==> ids.dom().contains(k));
        }
    }
}

/// No two names, and no two checksums, share an id of 32 bits.
pub open spec fn ids_fit(t: Interned) -> bool {
    t.file_ids.dom().len() <= 0x1_0000_0000 && t.hash_ids.dom().len() <= 0x1_0000_0000
}

proof fn lemma_ids_grow(ids: Map<Seq<char>, u64>, key: Seq<char>)
    requires
        ids.dom().finite(),
    ensures
        with_id(ids, key).dom().finite(),
        ids.dom().len() <= with_id(ids, key).dom().len(),
{
    if !ids.dom().contains(key) {
        assert(with_id(ids, key).dom() =~= ids.dom().insert(key));
    }
}

proof fn lemma_chunk_ids_grow(
    t: Interned,
    file_id: u64,
    chunks: Seq<ChunkView>,
    keep: bool,
    j: int,
    k: int,
)
    requires
        t.hash_ids.dom().finite(),
        0 <= j <= k,
    ensures
        ({
            let a = with_chunks(t, file_id, chunks, keep, j);
            let b = with_chunks(t, file_id, chunks, keep, k);
            &&& b.hash_ids.dom().finite()
            &&& a.hash_ids.dom().len() <= b.hash_ids.dom().len()
            &&& b.file_ids == t.file_ids
        }),
    decreases k,
{
    if k > 0 {
        lemma_chunk_ids_grow(t, file_id, chunks, keep, if j < k { j } else { 0 }, k - 1);
        let s = with_chunks(t, file_id, chunks, keep, k - 1);
        lemma_ids_grow(s.hash_ids, chunks[k - 1].decompressed_md5);
    }
}

proof fn lemma_interned_grows(old: Seq<AssetView>, left_out: Set<Seq<char>>, n: int)
    requires
        0 <= n <= old.len(),
    ensures
        ({
            let t = interned_below(old, left_out, n);
            &&& t.file_ids.dom().finite()
            &&& t.hash_ids.dom().finite()
            &&& ids_fit(t) && n > 0 ==> ids_fit(interned_below(old, left_out, n - 1))
        }),
    decreases n,
{
    if n > 0 {
        lemma_interned_grows(old, left_out, n - 1);
        let t = interned_below(old, left_out, n - 1);
        let a = old[n - 1];
        if !a.is_directory() {
            lemma_ids_grow(t.file_ids, a.name);
            lemma_chunk_ids_grow(
                Interned { file_ids: with_id(t.file_ids, a.name), ..t },
                id_for(t.file_ids, a.name),
                a.chunks,
                !left_out.contains(a.name),
                0,
                a.chunks.len() as int,
            );
        }
    } else {
        let t = interned_below(old, left_out, n);
        assert(t.file_ids.dom() =~= Set::<Seq<char>>::empty());
        assert(t.hash_ids.dom() =~= Set::<Seq<char>>::empty());
    }
}

/// What the chunks of a file do to the places.
proof fn lemma_with_chunks(
    t: Interned,
    name: Seq<char>,
    file_id: u64,
    chunks: Seq<ChunkView>,
    keep: bool,
    k: int,
)
    requires
        interned_ok(t),
        0 <= k <= chunks.len(),
        with_chunks(t, file_id, chunks, keep, k).hash_ids.dom().len() <= 0x1_0000_0000,
        t.file_ids.dom().contains(name),
        t.file_ids[name] == file_id,
    ensures
        ({
            let s = with_chunks(t, file_id, chunks, keep, k);
            &&& interned_ok(s)
            &&& s.file_ids == t.file_ids
            &&& forall|n: Seq<char>, md5: Seq<char>| #[trigger]
                place_in(s, n, md5) == if n == name && keep && last_place(chunks, k, md5) is Some {
                    last_place(chunks, k, md5)
                } else {
                    place_in(t, n, md5)
                }
        }),
    decreases k,
{
    if k > 0 {
        lemma_chunk_ids_grow(t, file_id, chunks, keep, k - 1, k);
        lemma_with_chunks(t, name, file_id, chunks, keep, k - 1);
        let s0 = with_chunks(t, file_id, chunks, keep, k - 1);
        let s = with_chunks(t, file_id, chunks, keep, k);
        let c = chunks[k - 1];
        let m = c.decompressed_md5;
        let id = id_for(s0.hash_ids, m);
        lemma_with_id(s0.hash_ids, m);
        assert(file_id < t.file_ids.dom().len());
        assert forall|f: u32, h: u32| #[trigger] s.offsets.dom().contains((f, h)) implies f
            < s.file_ids.dom().len() && h < s.hash_ids.dom().len() by {
            if !(keep && f == file_id as u32 && h == id as u32) {
                assert(s0.offsets.dom().contains((f, h)));
            }
        }
        assert forall|n: Seq<char>, md5: Seq<char>| #[trigger]
            place_in(s, n, md5) == if n == name && keep && last_place(chunks, k, md5) is Some {
                last_place(chunks, k, md5)
            } else {
                place_in(t, n, md5)
            } by {
            assert(place_in(s0, n, md5) == if n == name && keep && last_place(chunks, k - 1, md5) is Some {
                last_place(chunks, k - 1, md5)
            } else {
                place_in(t, n, md5)
            });
            assert(n != name && t.file_ids.dom().contains(n) ==> t.file_ids[n] != file_id);
            assert(t.file_ids.dom().contains(n) ==> t.file_ids[n] < t.file_ids.dom().len());
            if md5 != m {
                assert(value_at(s.hash_ids, md5) == value_at(s0.hash_ids, md5));
                if s0.hash_ids.dom().contains(md5) {
                    assert(s.hash_ids.dom().contains(md5) && s.hash_ids.dom().contains(m));
                    assert(s.hash_ids[md5] != id);
                    assert(s.hash_ids[md5] < s.hash_ids.dom().len());
                }
                assert(place_in(s, n, md5) == place_in(s0, n, md5));
            } else {
                assert(value_at(s.hash_ids, md5) == Some(id));
                if n != name || !keep {
                    if !s0.hash_ids.dom().contains(m) {
                        let idw = id as u32;
                        assert forall|f: u32| !#[trigger] s0.offsets.dom().contains((f, idw)) by {}
                    }
                    assert(place_in(s, n, md5) == place_in(s0, n, md5));
                }
            }
        }
    }
}

proof fn lemma_interned(old: Seq<AssetView>, left_out: Set<Seq<char>>, n: int)
    requires
        0 <= n <= old.len(),
        ids_fit(interned_below(old, left_out, n)),
    ensures
        ({
            let t = interned_below(old, left_out, n);
            &&& interned_ok(t)
            &&& forall|name: Seq<char>, md5: Seq<char>| #[trigger]
                place_in(t, name, md5) == old_place(old, left_out, n, name, md5)
        }),
    decreases n,
{
    if n > 0 {
        lemma_interned_grows(old, left_out, n);
        lemma_interned(old, left_out, n - 1);
        let t = interned_below(old, left_out, n - 1);
        let a = old[n - 1];
        if !a.is_directory() {
            lemma_chunk_ids_grow(
                Interned { file_ids: with_id(t.file_ids, a.name), ..t },
                id_for(t.file_ids, a.name),
                a.chunks,
                !left_out.contains(a.name),
                0,
                a.chunks.len() as int,
            );
            lemma_with_id(t.file_ids, a.name);
            let t1 = Interned { file_ids: with_id(t.file_ids, a.name), ..t };
            let id = id_for(t.file_ids, a.name);
            let keep = !left_out.contains(a.name);
            assert forall|name: Seq<char>, md5: Seq<char>| #[trigger]
                place_in(t1, name, md5) == place_in(t, name, md5) by {
                if name != a.name {
                    assert(value_at(t1.file_ids, name) == value_at(t.file_ids, name));
                } else if !t.file_ids.dom().contains(name) {
                    let idw = id as u32;
                    assert forall|h: u32| !#[trigger] t.offsets.dom().contains((idw, h)) by {}
                }
            }
            assert forall|f: u32, h: u32| #[trigger] t1.offsets.dom().contains((f, h)) implies f
                < t1.file_ids.dom().len() && h < t1.hash_ids.dom().len() by {
                assert(t.offsets.dom().contains((f, h)));
            }
            lemma_with_chunks(t1, a.name, id, a.chunks, keep, a.chunks.len() as int);
            let s = interned_below(old, left_out, n);
            assert forall|name: Seq<char>, md5: Seq<char>| #[trigger]
                place_in(s, name, md5) == old_place(old, left_out, n, name, md5) by {
                assert(place_in(t1, name, md5) == place_in(t, name, md5));
                assert(place_in(t, name, md5) == old_place(old, left_out, n - 1, name, md5));
            }
        }
    } else {
        let t = interned_below(old, left_out, n);
        assert(t.file_ids.dom() =~= Set::<Seq<char>>::empty());
        assert(t.hash_ids.dom() =~= Set::<Seq<char>>::empty());
    }
}

/// The ids only abbreviate: a chunk gets the place of its content in the old
/// file of the same name, whatever other files hold the same content, and no
/// place where that file does not hold it or is left out.
pub proof fn law_places_are_per_file(
    old: Seq<AssetView>,
    left_out: Set<Seq<char>>,
    name: Seq<char>,
    md5: Seq<char>,
)
    requires
        ids_fit(interned(old, left_out)),
    ensures
        place_in(interned(old, left_out), name, md5) == old_place(
            old,
            left_out,
            old.len() as int,
            name,
            md5,
        ),
        left_out.contains(name) ==> place_in(interned(old, left_out), name, md5) is None,
{
    lemma_interned(old, left_out, old.len() as int);
    if left_out.contains(name) {
        lemma_left_out(old, left_out, old.len() as int, name, md5);
    }
}

/// Giving the chunks of some files the places out of the ids of an old manifest
/// gives each the place of the last old chunk with its content in an old file of
/// the same name, and -1 where there is none, and changes nothing else.
pub proof fn law_chunks_get_their_old_places(old: Seq<AssetView>, files: Seq<AssetView>, f: int)
    requires
        ids_fit(interned(old, Set::empty())),
        0 <= f < files.len(),
    ensures
        ({
            let a = files[f];
            let placed = files.map_values(
                |a: AssetView| placed_asset(a, interned(old, Set::empty())),
            );
            &&& placed.len() == files.len()
            &&& placed[f] == (AssetView { chunks: placed[f].chunks, ..a })
            &&& placed[f].chunks.len() == a.chunks.len()
            &&& forall|c: int|
                0 <= c < a.chunks.len() ==> #[trigger] placed[f].chunks[c] == (ChunkView {
                    old_offset: match old_place(
                        old,
                        Set::empty(),
                        old.len() as int,
                        a.name,
                        a.chunks[c].decompressed_md5,
                    ) {
                        Some(o) => o as i64,
                        None => -1i64,
                    },
                    ..a.chunks[c]
                })
        }),
{
    let a = files[f];
    let t = interned(old, Set::empty());
    assert forall|c: int| 0 <= c < a.chunks.len() implies #[trigger] placed_asset(a, t).chunks[c]
        == placed_chunk(a.chunks[c], t, a.name) && place_in(
        t,
        a.name,
        a.chunks[c].decompressed_md5,
    ) == old_place(old, Set::empty(), old.len() as int, a.name, a.chunks[c].decompressed_md5) by {
        law_places_are_per_file(old, Set::empty(), a.name, a.chunks[c].decompressed_md5);
    }
}

proof fn lemma_left_out(
    old: Seq<AssetView>,
    left_out: Set<Seq<char>>,
    n: int,
    name: Seq<char>,
    md5: Seq<char>,
)
    requires
        left_out.contains(name),
    ensures
        old_place(old, left_out, n, name, md5) is None,
    decreases n,
{
    if n > 0 {
        lemma_left_out(old, left_out, n - 1, name, md5);
    }
}

/// One of the old files of that name, unless it is left out, holds the content
/// with a checksum at that place.
pub open spec fn holds_content(
    old: Seq<AssetView>,
    left_out: Set<Seq<char>>,
    name: Seq<char>,
    md5: Seq<char>,
    place: u64,
) -> bool {
    exists|i: int, c: int|
        0 <= i < old.len() && !old[i].is_directory() && old[i].name == name && !left_out.contains(
            name,
        ) && 0 <= c < old[i].chunks.len() && (#[trigger] old[i].chunks[c]).decompressed_md5 == md5
            && old[i].chunks[c].on_file_offset == place
}

proof fn lemma_last_place(chunks: Seq<ChunkView>, k: int, md5: Seq<char>)
    requires
        0 <= k <= chunks.len(),
    ensures
        match last_place(chunks, k, md5) {
            Some(o) => exists|c: int|
                0 <= c < k && (#[trigger] chunks[c]).decompressed_md5 == md5
                    && chunks[c].on_file_offset == o,
            None => forall|c: int|
                0 <= c < k ==> (#[trigger] chunks[c]).decompressed_md5 != md5,
        },
    decreases k,
{
    if k > 0 {
        lemma_last_place(chunks, k - 1, md5);
        if chunks[k - 1].decompressed_md5 == md5 {
            assert(chunks[k - 1].on_file_offset == last_place(chunks, k, md5)->0);
        }
    }
}

proof fn lemma_old_place(
    old: Seq<AssetView>,
    left_out: Set<Seq<char>>,
    n: int,
    name: Seq<char>,
    md5: Seq<char>,
)
    requires
        0 <= n <= old.len(),
    ensures
        match old_place(old, left_out, n, name, md5) {
            Some(o) => holds_content(old, left_out, name, md5, o),
            None => forall|i: int, c: int|
                0 <= i < n && !old[i].is_directory() && old[i].name == name && !left_out.contains(
                    name,
                ) && 0 <= c < old[i].chunks.len() ==> (
                #[trigger] old[i].chunks[c]).decompressed_md5 != md5,
        },
    decreases n,
{
    if n > 0 {
        lemma_old_place(old, left_out, n - 1, name, md5);
        let a = old[n - 1];
        lemma_last_place(a.chunks, a.chunks.len() as int, md5);
        if !(a.is_directory() || a.name != name || left_out.contains(name)) {
            match last_place(a.chunks, a.chunks.len() as int, md5) {
                Some(o) => {
                    let c = choose|c: int|
                        0 <= c < a.chunks.len() && (#[trigger] a.chunks[c]).decompressed_md5 == md5
                            && a.chunks[c].on_file_offset == o;
                    assert(old[n - 1].chunks[c].decompressed_md5 == md5);
                },
                None => {
                    assert forall|i: int, c: int|
                        0 <= i < n && !old[i].is_directory() && old[i].name == name
                            && !left_out.contains(name) && 0 <= c < old[i].chunks.len()
                            && old_place(old, left_out, n, name, md5) is None implies (
                    #[trigger] old[i].chunks[c]).decompressed_md5 != md5 by {
                        if i == n - 1 {
                            assert(a.chunks[c].decompressed_md5 != md5);
                        }
                    }
                },
            }
        }
    }
}

/// A chunk is taken from an old file only where that file, under the same name,
/// holds content of the same checksum at the place that is read, and is not left
/// out; where some old file of the name does, a place is found.
pub proof fn law_reused_content_is_the_same(
    old: Seq<AssetView>,
    left_out: Set<Seq<char>>,
    c: ChunkView,
    name: Seq<char>,
)
    requires
        ids_fit(interned(old, left_out)),
    ensures
        ({
            let t = interned(old, left_out);
            let placed = placed_chunk(c, t, name);
            &&& placed.old_offset >= 0 ==> exists|place: u64|
                place as i64 == placed.old_offset && #[trigger] holds_content(
                    old,
                    left_out,
                    name,
                    c.decompressed_md5,
                    place,
                )
            &&& (exists|place: u64| #[trigger]
                holds_content(old, left_out, name, c.decompressed_md5, place)) ==> place_in(
                t,
                name,
                c.decompressed_md5,
            ) is Some
        }),
{
    let md5 = c.decompressed_md5;
    let n = old.len() as int;
    law_places_are_per_file(old, left_out, name, md5);
    lemma_old_place(old, left_out, n, name, md5);
    let t = interned(old, left_out);
    match place_in(t, name, md5) {
        Some(o) => {
            assert(holds_content(old, left_out, name, md5, o));
        },
        None => {
            assert forall|place: u64| !#[trigger] holds_content(old, left_out, name, md5, place) by {
                if holds_content(old, left_out, name, md5, place) {
                    let (i, k) = choose|i: int, k: int|
                        0 <= i < old.len() && !old[i].is_directory() && old[i].name == name
                            && !left_out.contains(name) && 0 <= k < old[i].chunks.len() && (
                        #[trigger] old[i].chunks[k]).decompressed_md5 == md5
                            && old[i].chunks[k].on_file_offset == place;
                    assert(old[i].chunks[k].decompressed_md5 != md5);
                }
            }
        },
    }
}

proof fn lemma_last_of_a_file(chunks: Seq<ChunkView>, n: int, k: int, md5: Seq<char>)
    requires
        0 <= k < n <= chunks.len(),
        chunks[k].decompressed_md5 == md5,
        forall|c: int| k < c < n ==> (#[trigger] chunks[c]).decompressed_md5 != md5,
    ensures
        last_place(chunks, n, md5) == Some(chunks[k].on_file_offset),
    decreases n,
{
    if k < n - 1 {
        assert(chunks[n - 1].decompressed_md5 != md5);
        lemma_last_of_a_file(chunks, n - 1, k, md5);
    }
}

/// Where the old files hold a content more than once, it is taken from the last
/// of its places in the last file of that name that has it.
pub proof fn law_the_last_place_counts(
    old: Seq<AssetView>,
    left_out: Set<Seq<char>>,
    n: int,
    i: int,
    k: int,
    md5: Seq<char>,
)
    requires
        0 <= i < n <= old.len(),
        !old[i].is_directory(),
        !left_out.contains(old[i].name),
        0 <= k < old[i].chunks.len(),
        old[i].chunks[k].decompressed_md5 == md5,
        forall|c: int|
            k < c < old[i].chunks.len() ==> (#[trigger] old[i].chunks[c]).decompressed_md5 != md5,
        forall|j: int, c: int|
            i < j < n && !old[j].is_directory() && old[j].name == old[i].name && 0 <= c
                < old[j].chunks.len() ==> (#[trigger] old[j].chunks[c]).decompressed_md5 != md5,
    ensures
        old_place(old, left_out, n, old[i].name, md5) == Some(old[i].chunks[k].on_file_offset),
    decreases n,
{
    let a = old[n - 1];
    if i == n - 1 {
        lemma_last_of_a_file(a.chunks, a.chunks.len() as int, k, md5);
    } else {
        law_the_last_place_counts(old, left_out, n - 1, i, k, md5);
        if !a.is_directory() && a.name == old[i].name {
            lemma_last_place(a.chunks, a.chunks.len() as int, md5);
            if last_place(a.chunks, a.chunks.len() as int, md5) is Some {
                let c = choose|c: int|
                    0 <= c < a.chunks.len() && (#[trigger] a.chunks[c]).decompressed_md5 == md5;
                assert(old[n - 1].chunks[c].decompressed_md5 != md5);
            }
        }
    }
}

} // verus!
