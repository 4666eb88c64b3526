//! Installers: the manifests of an installation, their names and their sizes.

use vstd::prelude::*;
use crate::collections::add_name;
use crate::collections::names;
use crate::collections::new_name_set;
use crate::digest::short_hash;
use crate::digest::short_hash_of;
use crate::ordering::as_ints;
use crate::ordering::compare_names;
use crate::ordering::index_before;
use crate::ordering::key_views;
use crate::ordering::keys_of;
use crate::ordering::lemma_can_be_sorted;
use crate::ordering::lemma_name_le_antisymmetric;
use crate::ordering::lemma_name_le_total;
use crate::ordering::lemma_name_le_transitive;
use crate::ordering::name_le;
use crate::ordering::sort_keys;
use crate::ordering::sorted_order;
use crate::ordering::sorted_range;
use crate::proto_parse::asset_views;
use crate::proto_parse::AssetView;
use crate::proto_parse::ChunkView;
use crate::proto_parse::SophonManifestAssetProperty;
use crate::proto_parse::SophonManifestProto;
use crate::strings::replace_any;
use crate::strings::replaced_any;
use crate::strings::trim_of;
use crate::strings::trimmed_of;
use crate::text::chars_of;
use super::api::DownloadInfo;
use super::api::DownloadView;
use super::compact_manifest::all_chunks;
use super::compact_manifest::flat_chunks;
use super::compact_manifest::CompactManifest;
use super::compact_manifest::StringArena;

verus! {

/// Finds the place of a name in a list of names, by a sorted index.
pub struct ChunkNameLookup {
    pub arena: StringArena,
    pub sorted_indices: Vec<u32>,
}

impl View for ChunkNameLookup {
    type V = Seq<Seq<char>>;

    open spec fn view(&self) -> Seq<Seq<char>> {
        self.arena@
    }
}

/// `found` is a place of `name` in `names`, or nothing where it has none.
pub open spec fn finds(names: Seq<Seq<char>>, name: Seq<char>, found: Option<usize>) -> bool {
    match found {
        Some(i) => i < names.len() && names[i as int] == name,
        None => !names.contains(name),
    }
}

/// Every name in a list is found, and nothing else: where no name stands twice,
/// looking up the name at a place gives that place.
pub proof fn law_names_are_found(names: Seq<Seq<char>>, name: Seq<char>, found: Option<usize>)
    requires
        finds(names, name, found),
    ensures
        found is None <==> !exists|i: int| 0 <= i < names.len() && #[trigger] names[i] == name,
        names.no_duplicates() ==> forall|i: int|
            0 <= i < names.len() && #[trigger] names[i] == name ==> found is Some && found->0 == i,
{
}

impl ChunkNameLookup {
    /// The index holds every place, in the order of the names.
    pub open spec fn wf(&self) -> bool {
        &&& self.arena@.len() <= u32::MAX
        &&& sorted_range(
            self.arena@,
            0,
            self.arena@.len() as int,
            self.sorted_indices@.map_values(|i: u32| i as int),
        )
    }

    /// Builds the index. Places are counted with 32 bits.
    pub fn from_arena(arena: StringArena) -> (r: Self)
        requires
            arena@.len() <= u32::MAX,
        ensures
            r.wf(),
            r@ == arena@,
    {
        let keys = keys_of(&arena.entries);
        assert(key_views(keys@) == arena@);
        let order = sort_keys(&keys);
        let ghost oi = as_ints(order@);
        let mut sorted_indices: Vec<u32> = Vec::new();
        let mut i: usize = 0;
        while i < order.len()
            invariant
                i <= order@.len(),
                oi == as_ints(order@),
                arena@.len() <= u32::MAX,
                sorted_range(arena@, 0, arena@.len() as int, oi),
                sorted_indices@.len() == i,
                forall|j: int| 0 <= j < i ==> #[trigger] sorted_indices@[j] == order@[j],
            decreases order@.len() - i,
        {
            assert(oi.contains(oi[i as int]));
            sorted_indices.push(order[i] as u32);
            i += 1;
        }
        assert(sorted_indices@.map_values(|i: u32| i as int) =~= oi);
        ChunkNameLookup { arena, sorted_indices }
    }

    /// The name at `idx`.
    pub fn get(&self, idx: usize) -> (r: &str)
        requires
            self.wf(),
            idx < self@.len(),
        ensures
            r@ == self@[idx as int],
    {
        self.arena.get(idx as u32)
    }

    /// A place at which `name` stands, if there is one.
    pub fn lookup(&self, name: &str) -> (r: Option<usize>)
        requires
            self.wf(),
        ensures
            finds(self@, name@, r),
    {
        let key = chars_of(name);
        let ghost oi = self.sorted_indices@.map_values(|i: u32| i as int);
        let n: usize = self.sorted_indices.len();
        let mut lo: usize = 0;
        let mut hi: usize = n;
        while lo < hi
            invariant
                self.wf(),
                key@ == name@,
                oi == self.sorted_indices@.map_values(|i: u32| i as int),
                n == oi.len(),
                lo <= hi <= n,
                forall|k: int| 0 <= k < lo ==> self@[#[trigger] oi[k]] != name@,
                forall|k: int| hi <= k < n ==> self@[#[trigger] oi[k]] != name@,
            decreases hi - lo,
        {
            let mid: usize = lo + (hi - lo) / 2;
            let at: u32 = self.sorted_indices[mid];
            assert(oi.contains(oi[mid as int]));
            let here = chars_of(self.arena.get(at));
            let le = compare_names(&here, &key);
            let ge = compare_names(&key, &here);
            proof {
                lemma_name_le_total(here@, key@);
                if le && ge {
                    lemma_name_le_antisymmetric(here@, key@);
                }
                if le && !ge {
                    assert forall|k: int| 0 <= k <= mid implies self@[#[trigger] oi[k]] != name@ by {
                        if self@[oi[k]] == name@ && k < mid {
                            assert(index_before(self@, oi[k], oi[mid as int]));
                        }
                        if here@ == name@ {
                            lemma_name_le_total(key@, here@);
                        }
                    }
                }
                if ge && !le {
                    assert forall|k: int| mid <= k < n implies self@[#[trigger] oi[k]] != name@ by {
                        if self@[oi[k]] == name@ && k > mid {
                            assert(index_before(self@, oi[mid as int], oi[k]));
                        }
                        if here@ == name@ {
                            lemma_name_le_total(key@, here@);
                        }
                    }
                }
            }
            if le && ge {
                return Some(at as usize);
            }
            if le {
                lo = mid + 1;
            } else {
                hi = mid;
            }
        }
        proof {
            if self@.contains(name@) {
                let x = choose|x: int| 0 <= x < self@.len() && self@[x] == name@;
                assert(oi.contains(x));
                let k = choose|k: int| 0 <= k < oi.len() && oi[k] == x;
                assert(self@[oi[k]] != name@);
            }
        }
        None
    }
}

/// A manifest that is installed, and where its chunks come from.
#[derive(Debug)]
pub struct SophonInstaller {
    pub manifest: SophonManifestProto,
    pub chunk_download: DownloadInfo,
    pub label: String,
    pub matching_field: String,
    pub manifest_hash: String,
}

/// What an installer says.
pub ghost struct InstallerView {
    pub assets: Seq<AssetView>,
    pub download: DownloadView,
    pub label: Seq<char>,
    pub field: Seq<char>,
    pub hash: Seq<char>,
}

impl View for SophonInstaller {
    type V = InstallerView;

    open spec fn view(&self) -> InstallerView {
        InstallerView {
            assets: self.manifest@,
            download: self.chunk_download@,
            label: self.label@,
            field: self.matching_field@,
            hash: self.manifest_hash@,
        }
    }
}

/// What each of some installers says.
pub open spec fn installer_views(v: Seq<SophonInstaller>) -> Seq<InstallerView> {
    v.map_values(|i: SophonInstaller| i@)
}

/// The label of the chunks under a URL: its path with dashes for slashes.
pub open spec fn label_of(url_suffix: Seq<char>) -> Seq<char> {
    replaced_any(trimmed_of(url_suffix, '/'), "/"@, '-')
}

/// The label of the chunks under a URL.
pub fn installer_label(url_suffix: &str) -> (r: String)
    ensures
        r@ == label_of(url_suffix@),
{
    replace_any(trim_of(url_suffix, '/').as_str(), "/", '-')
}

/// A chunk that is downloaded whatever the old file holds.
pub open spec fn as_new_chunk(c: ChunkView) -> ChunkView {
    ChunkView { old_offset: -1i64, ..c }
}

/// An asset of which no chunk comes from an old file.
pub open spec fn as_new_asset(a: AssetView) -> AssetView {
    AssetView { chunks: a.chunks.map_values(|c: ChunkView| as_new_chunk(c)), ..a }
}

impl SophonInstaller {
    /// The installer for a fresh installation of a manifest: every chunk is
    /// downloaded, and none comes from an old file.
    pub fn from_manifest_meta(
        manifest: SophonManifestProto,
        chunk_download: &DownloadInfo,
        matching_field: &str,
        hash: String,
    ) -> (r: Self)
        ensures
            r@ == (InstallerView {
                assets: manifest@.map_values(|a: AssetView| as_new_asset(a)),
                download: chunk_download@,
                label: label_of(chunk_download.url_suffix@),
                field: matching_field@,
                hash: hash@,
            }),
    {
        let ghost all = manifest@;
        let mut assets = manifest.assets;
        let mut i: usize = 0;
        while i < assets.len()
            invariant
                i <= assets@.len(),
                assets@.len() == all.len(),
                forall|j: int| 0 <= j < i ==> #[trigger] assets@[j]@ == as_new_asset(all[j]),
                forall|j: int| i <= j < all.len() ==> #[trigger] assets@[j]@ == all[j],
            decreases assets@.len() - i,
        {
            let asset = as_new(assets[i].clone());
            assets.set(i, asset);
            i += 1;
        }
        let r = SophonInstaller {
            manifest: SophonManifestProto { assets },
            chunk_download: chunk_download.clone(),
            label: installer_label(chunk_download.url_suffix.as_str()),
            matching_field: matching_field.to_owned(),
            manifest_hash: hash,
        };
        assert(r.manifest@ =~= all.map_values(|a: AssetView| as_new_asset(a)));
        r
    }
}

/// The asset with no chunk from an old file.
fn as_new(asset: SophonManifestAssetProperty) -> (r: SophonManifestAssetProperty)
    ensures
        r@ == as_new_asset(asset@),
{
    let ghost chunks = asset@.chunks;
    let mut a = asset;
    let mut i: usize = 0;
    let mut list = a.asset_chunks;
    while i < list.len()
        invariant
            i <= list@.len(),
            list@.len() == chunks.len(),
            forall|j: int| 0 <= j < i ==> #[trigger] list@[j]@ == as_new_chunk(chunks[j]),
            forall|j: int| i <= j < chunks.len() ==> #[trigger] list@[j]@ == chunks[j],
        decreases list@.len() - i,
    {
        let mut c = list[i].clone();
        c.chunk_old_offset = -1;
        list.set(i, c);
        i += 1;
    }
    a.asset_chunks = list;
    assert(a@.chunks =~= chunks.map_values(|c: ChunkView| as_new_chunk(c)));
    a
}

/// The bytes of the first `n` names, one after the other.
pub open spec fn names_bytes(list: Seq<Seq<char>>, n: int) -> Seq<u8>
    decreases n,
{
    if n <= 0 {
        Seq::empty()
    } else {
        names_bytes(list, n - 1) + vstd::utf8::encode_utf8(list[n - 1])
    }
}

/// Some names, sorted.
pub open spec fn sorted_names(list: Seq<Seq<char>>) -> Seq<Seq<char>> {
    sorted_order(list).map_values(|i: int| list[i])
}

/// The common name of some manifests, out of their names.
pub open spec fn combined_hash(hashes: Seq<Seq<char>>) -> Seq<char> {
    short_hash_of(names_bytes(sorted_names(hashes), hashes.len() as int))
}

/// The names of the manifests of some installers.
pub open spec fn hashes_of(v: Seq<SophonInstaller>) -> Seq<Seq<char>> {
    v.map_values(|i: SophonInstaller| i.manifest_hash@)
}

/// The common name of the manifests of some installers. The order of the
/// installers does not count.
pub fn combine_manifest_hashes(installers: &Vec<SophonInstaller>) -> (r: String)
    ensures
        r@ == combined_hash(hashes_of(installers@)),
        r@.len() == 16,
{
    let ghost hashes = hashes_of(installers@);
    let mut keys: Vec<Vec<char>> = Vec::new();
    let mut k: usize = 0;
    while k < installers.len()
        invariant
            k <= installers@.len(),
            hashes == hashes_of(installers@),
            keys@.len() == k,
            forall|j: int| 0 <= j < k ==> #[trigger] keys@[j]@ == hashes[j],
        decreases installers@.len() - k,
    {
        keys.push(chars_of(installers[k].manifest_hash.as_str()));
        k += 1;
    }
    assert(key_views(keys@) =~= hashes);
    let order = sort_keys(&keys);
    let ghost sorted = sorted_names(hashes);
    let n: usize = order.len();
    let mut out: Vec<u8> = Vec::new();
    let mut i: usize = 0;
    while i < n
        invariant
            i <= n,
            n == order@.len(),
            n == installers@.len(),
            hashes == hashes_of(installers@),
            as_ints(order@) == sorted_order(hashes),
            sorted_range(hashes, 0, hashes.len() as int, as_ints(order@)),
            sorted == sorted_names(hashes),
            out@ == names_bytes(sorted, i as int),
        decreases n - i,
    {
        assert(as_ints(order@).contains(as_ints(order@)[i as int]));
        let mut bytes = vstd::slice::slice_to_vec(
            installers[order[i]].manifest_hash.as_str().as_bytes(),
        );
        assert(sorted[i as int] == hashes[order@[i as int] as int]);
        out.append(&mut bytes);
        i += 1;
    }
    short_hash(&out)
}

/// The order of names is one of a sorted list.
proof fn lemma_names_sorted(list: Seq<Seq<char>>)
    ensures
        ({
            let s = sorted_names(list);
            &&& s.len() == list.len()
            &&& s.to_multiset() == list.to_multiset()
            &&& vstd::relations::sorted_by(s, |a: Seq<char>, b: Seq<char>| name_le(a, b))
        }),
{
    let leq = |a: Seq<char>, b: Seq<char>| name_le(a, b);
    lemma_can_be_sorted(list);
    let o = sorted_order(list);
    let s = sorted_names(list);
    assert forall|i: int, j: int| 0 <= i < j < s.len() implies #[trigger] leq(s[i], s[j]) by {
        assert(o.contains(o[i]) && o.contains(o[j]));
        assert(index_before(list, o[i], o[j]));
        lemma_name_le_total(s[i], s[j]);
    }
    lemma_same_items(list, o, s);
}

/// A list read in another order holds the same names.
proof fn lemma_same_items(list: Seq<Seq<char>>, o: Seq<int>, s: Seq<Seq<char>>)
    requires
        sorted_range(list, 0, list.len() as int, o),
        s == o.map_values(|i: int| list[i]),
    ensures
        s.to_multiset() == list.to_multiset(),
{
    let id = Seq::new(list.len(), |i: int| i);
    assert(o.to_multiset() == id.to_multiset()) by {
        assert(o.no_duplicates()) by {
            assert forall|i: int, j: int| 0 <= i < j < o.len() implies o[i] != o[j] by {
                assert(index_before(list, o[i], o[j]));
                assert(o.contains(o[i]));
            }
        }
        assert(id.no_duplicates());
        o.lemma_multiset_has_no_duplicates();
        id.lemma_multiset_has_no_duplicates();
        assert forall|x: int| #[trigger] o.to_multiset().count(x) == id.to_multiset().count(x) by {
            o.to_multiset_ensures();
            id.to_multiset_ensures();
            assert(o.contains(x) <==> 0 <= x < list.len());
            if 0 <= x < list.len() {
                assert(id[x] == x);
            }
            assert(id.contains(x) <==> 0 <= x < list.len());
            assert(o.contains(x) <==> o.to_multiset().count(x) > 0);
            assert(id.contains(x) <==> id.to_multiset().count(x) > 0);
        }
        assert(o.to_multiset() =~= id.to_multiset());
    }
    lemma_map_multiset(list, o, id);
    assert(id.map_values(|i: int| list[i]) =~= list);
}

/// Reading a list through two orders with the same places gives the same names.
proof fn lemma_map_multiset(list: Seq<Seq<char>>, a: Seq<int>, b: Seq<int>)
    requires
        a.to_multiset() == b.to_multiset(),
    ensures
        a.map_values(|i: int| list[i]).to_multiset() == b.map_values(
            |i: int| list[i],
        ).to_multiset(),
    decreases a.len(),
{
    let f = |i: int| list[i];
    a.to_multiset_ensures();
    b.to_multiset_ensures();
    assert(a.len() == b.len());
    if a.len() > 0 {
        let x = a.last();
        assert(a.contains(x));
        assert(b.to_multiset().count(x) > 0);
        assert(b.contains(x));
        let k = choose|k: int| 0 <= k < b.len() && b[k] == x;
        let a2 = a.drop_last();
        let b2 = b.remove(k);
        assert(a =~= a2.push(x));
        a2.to_multiset_ensures();
        assert(a.to_multiset() == a2.to_multiset().insert(x));
        assert(b2.to_multiset() =~= a2.to_multiset());
        lemma_map_multiset(list, a2, b2);
        let fa2 = a2.map_values(f);
        let fb = b.map_values(f);
        assert(a.map_values(f) =~= fa2.push(f(x)));
        fa2.to_multiset_ensures();
        assert(fb.remove(k) =~= b2.map_values(f));
        fb.to_multiset_ensures();
        assert(fb.contains(fb[k]));
        assert(fb.to_multiset() =~= b2.map_values(f).to_multiset().insert(f(x)));
    } else {
        assert(a.map_values(f) =~= b.map_values(f));
    }
}

/// The order of the installers makes no difference to their common name.
pub proof fn law_installer_order_is_immaterial(a: Seq<Seq<char>>, b: Seq<Seq<char>>)
    requires
        a.to_multiset() == b.to_multiset(),
    ensures
        combined_hash(a) == combined_hash(b),
{
    let leq = |x: Seq<char>, y: Seq<char>| name_le(x, y);
    lemma_names_sorted(a);
    lemma_names_sorted(b);
    assert(vstd::relations::total_ordering(leq)) by {
        assert forall|x: Seq<char>| #[trigger] leq(x, x) by {
            lemma_name_le_total(x, x);
        }
        assert forall|x: Seq<char>, y: Seq<char>| #[trigger] leq(x, y) && #[trigger] leq(
            y,
            x,
        ) implies x == y by {
            lemma_name_le_antisymmetric(x, y);
        }
        assert forall|x: Seq<char>, y: Seq<char>, z: Seq<char>| #[trigger] leq(x, y)
            && #[trigger] leq(y, z) implies leq(x, z) by {
            lemma_name_le_transitive(x, y, z);
        }
        assert forall|x: Seq<char>, y: Seq<char>| #[trigger] leq(x, y) || leq(y, x) by {
            lemma_name_le_total(x, y);
        }
    }
    vstd::seq_lib::lemma_sorted_unique(sorted_names(a), sorted_names(b), leq);
}

/// A manifest of an installation: where its chunks come from, and how many files
/// it has.
pub struct InstallerData {
    pub chunk_download: DownloadInfo,
    pub file_count: usize,
    pub label: String,
    pub matching_field: String,
}

/// What the data of an installer say.
pub ghost struct DataView {
    pub download: DownloadView,
    pub file_count: int,
    pub label: Seq<char>,
    pub field: Seq<char>,
}

impl View for InstallerData {
    type V = DataView;

    open spec fn view(&self) -> DataView {
        DataView {
            download: self.chunk_download@,
            file_count: self.file_count as int,
            label: self.label@,
            field: self.matching_field@,
        }
    }
}

/// What the data of each of some installers say.
pub open spec fn data_views(v: Seq<InstallerData>) -> Seq<DataView> {
    v.map_values(|d: InstallerData| d@)
}

/// Those of the first `n` assets that are files.
pub open spec fn files_below(assets: Seq<AssetView>, n: int) -> Seq<AssetView>
    decreases n,
{
    if n <= 0 {
        Seq::empty()
    } else if !assets[n - 1].is_directory() {
        files_below(assets, n - 1).push(assets[n - 1])
    } else {
        files_below(assets, n - 1)
    }
}

/// The files among some assets.
pub open spec fn files_of(assets: Seq<AssetView>) -> Seq<AssetView> {
    files_below(assets, assets.len() as int)
}

/// The data of an installer.
pub open spec fn data_of(i: InstallerView) -> DataView {
    DataView {
        download: i.download,
        file_count: files_of(i.assets).len() as int,
        label: i.label,
        field: i.field,
    }
}

/// The files of the first `n` installers, one installer after the other.
pub open spec fn all_files_below(v: Seq<InstallerView>, n: int) -> Seq<AssetView>
    decreases n,
{
    if n <= 0 {
        Seq::empty()
    } else {
        all_files_below(v, n - 1) + files_of(v[n - 1].assets)
    }
}

/// Takes the files out of the installers: directories are left out.
pub fn build_installer_data(installers: Vec<SophonInstaller>) -> (r: (
    Vec<InstallerData>,
    Vec<SophonManifestAssetProperty>,
))
    ensures
        data_views(r.0@) == installer_views(installers@).map_values(|i: InstallerView| data_of(i)),
        asset_views(r.1@) == all_files_below(installer_views(installers@), installers@.len() as int),
{
    let ghost all = installer_views(installers@);
    let mut data: Vec<InstallerData> = Vec::new();
    let mut files: Vec<SophonManifestAssetProperty> = Vec::new();
    let mut i: usize = 0;
    assert(asset_views(files@) =~= all_files_below(all, 0));
    while i < installers.len()
        invariant
            i <= installers@.len(),
            all == installer_views(installers@),
            data@.len() == i,
            forall|j: int| 0 <= j < i ==> #[trigger] data@[j]@ == data_of(all[j]),
            asset_views(files@) == all_files_below(all, i as int),
        decreases installers@.len() - i,
    {
        let inst = &installers[i];
        assert(all[i as int] == inst@);
        let ghost before = asset_views(files@);
        let mut own = take_files(&inst.manifest);
        let count: usize = own.len();
        let ghost mine = asset_views(own@);
        assert(mine.len() == count);
        files.append(&mut own);
        assert(asset_views(files@) =~= before + mine);
        data.push(
            InstallerData {
                chunk_download: inst.chunk_download.clone(),
                file_count: count,
                label: inst.label.clone(),
                matching_field: inst.matching_field.clone(),
            },
        );
        i += 1;
    }
    assert(data_views(data@) =~= all.map_values(|i: InstallerView| data_of(i)));
    (data, files)
}

/// The files of a manifest.
pub fn take_files(manifest: &SophonManifestProto) -> (r: Vec<SophonManifestAssetProperty>)
    ensures
        asset_views(r@) == files_of(manifest@),
{
    let ghost all = manifest@;
    let mut out: Vec<SophonManifestAssetProperty> = Vec::new();
    let mut i: usize = 0;
    assert(asset_views(out@) =~= files_below(all, 0));
    while i < manifest.assets.len()
        invariant
            i <= manifest.assets@.len(),
            all == manifest@,
            asset_views(out@) == files_below(all, i as int),
        decreases manifest.assets@.len() - i,
    {
        let a = &manifest.assets[i];
        assert(all[i as int] == a@);
        let ghost before = asset_views(out@);
        if !a.is_directory() {
            out.push(a.clone());
            assert(asset_views(out@) =~= before.push(a@));
        }
        i += 1;
    }
    out
}

/// The names of the chunks among `s` that are downloaded.
pub open spec fn fetched_names(s: Seq<ChunkView>) -> Set<Seq<char>>
    decreases s.len(),
{
    if s.len() == 0 {
        Set::empty()
    } else if s.last().old_offset < 0 {
        fetched_names(s.drop_last()).insert(s.last().name)
    } else {
        fetched_names(s.drop_last())
    }
}

/// The bytes that the chunks among `s` take to download: a chunk that the old
/// files hold takes none, and a name is downloaded once, with its first size.
pub open spec fn fetched_bytes(s: Seq<ChunkView>) -> int
    decreases s.len(),
{
    if s.len() == 0 {
        0
    } else {
        let c = s.last();
        fetched_bytes(s.drop_last()) + if c.old_offset < 0 && !fetched_names(
            s.drop_last(),
        ).contains(c.name) {
            c.size as int
        } else {
            0
        }
    }
}

/// `x`, or the largest number of 64 bits.
pub open spec fn saturated(x: int) -> int {
    if x <= u64::MAX {
        x
    } else {
        u64::MAX as int
    }
}

/// The bytes that a build takes to download, and the number of its files.
pub fn compute_totals(all_files: &CompactManifest) -> (r: (u64, u64))
    ensures
        r.0 == saturated(fetched_bytes(all_chunks(all_files@))),
        r.1 == all_files@.len(),
{
    let ghost all = all_files@;
    let mut seen = new_name_set();
    let mut total: u64 = 0;
    let n: usize = all_files.num_files();
    let mut f: usize = 0;
    while f < n
        invariant
            f <= n,
            n == all.len(),
            all == all_files@,
            names(seen) == fetched_names(flat_chunks(all, f as int)),
            total == saturated(fetched_bytes(flat_chunks(all, f as int))),
        decreases n - f,
    {
        let ghost head = flat_chunks(all, f as int);
        let ghost chunks = all[f as int].chunks;
        let m: usize = all_files.file_chunk_count(f);
        let mut c: usize = 0;
        assert(head + chunks.take(0) =~= head);
        while c < m
            invariant
                c <= m,
                f < n,
                n == all.len(),
                all == all_files@,
                chunks == all[f as int].chunks,
                m == chunks.len(),
                names(seen) == fetched_names(head + chunks.take(c as int)),
                total == saturated(fetched_bytes(head + chunks.take(c as int))),
            decreases m - c,
        {
            let chunk = all_files.file_chunk(f, c);
            proof {
                let s = head + chunks.take(c as int + 1);
                assert(s.drop_last() =~= head + chunks.take(c as int));
                assert(s.last() == chunk@);
                lemma_fetched_positive(s);
                lemma_fetched_positive(s.drop_last());
            }
            if chunk.chunk_old_offset < 0 {
                if add_name(&mut seen, chunk.chunk_name.clone()) {
                    total = total.saturating_add(chunk.chunk_size);
                } else {
                    assert(names(seen) =~= fetched_names(head + chunks.take(c as int + 1)));
                }
            }
            c += 1;
        }
        assert(head + chunks.take(m as int) =~= flat_chunks(all, f as int + 1));
        f += 1;
    }
    (total, n as u64)
}

proof fn lemma_fetched_positive(s: Seq<ChunkView>)
    ensures
        fetched_bytes(s) >= 0,
    decreases s.len(),
{
    if s.len() > 0 {
        lemma_fetched_positive(s.drop_last());
    }
}

/// Names of the same widths give different bytes wherever one of them differs: no
/// name is left out of the common name.
pub proof fn law_every_manifest_counts(a: Seq<Seq<char>>, b: Seq<Seq<char>>, n: int)
    requires
        0 <= n <= a.len(),
        a.len() == b.len(),
        forall|i: int|
            0 <= i < a.len() ==> vstd::utf8::encode_utf8(#[trigger] a[i]).len()
                == vstd::utf8::encode_utf8(b[i]).len(),
        names_bytes(a, n) == names_bytes(b, n),
    ensures
        forall|i: int| 0 <= i < n ==> #[trigger] a[i] == b[i],
    decreases n,
{
    if n > 0 {
        let x = vstd::utf8::encode_utf8(a[n - 1]);
        let y = vstd::utf8::encode_utf8(b[n - 1]);
        let p = names_bytes(a, n - 1);
        let q = names_bytes(b, n - 1);
        assert(x.len() == y.len());
        assert((p + x).len() == (q + y).len());
        assert(p =~= (p + x).take(p.len() as int));
        assert(q =~= (q + y).take(q.len() as int));
        assert(x =~= (p + x).skip(p.len() as int));
        assert(y =~= (q + y).skip(q.len() as int));
        vstd::utf8::encode_utf8_decode_utf8(a[n - 1]);
        vstd::utf8::encode_utf8_decode_utf8(b[n - 1]);
        law_every_manifest_counts(a, b, n - 1);
    }
}

/// The label of the chunks under a URL holds no slash, and apart from the slashes
/// at its ends every other character of the URL is kept.
pub proof fn law_labels_have_no_slashes(url_suffix: Seq<char>, i: int)
    requires
        0 <= i < label_of(url_suffix).len(),
    ensures
        label_of(url_suffix).len() == trimmed_of(url_suffix, '/').len(),
        label_of(url_suffix)[i] != '/',
        trimmed_of(url_suffix, '/')[i] != '/' ==> label_of(url_suffix)[i] == trimmed_of(
            url_suffix,
            '/',
        )[i],
        trimmed_of(url_suffix, '/')[i] == '/' ==> label_of(url_suffix)[i] == '-',
{
    reveal_strlit("/");
    let s = "/"@;
    let c = trimmed_of(url_suffix, '/')[i];
    assert(s[0] == '/');
    assert(s.contains('/'));
    if s.contains(c) {
        let k = choose|k: int| 0 <= k < s.len() && s[k] == c;
        assert(k == 0);
    }
}

} // verus!
