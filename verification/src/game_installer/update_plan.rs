//! The installers of an update, out of the old and the new manifests.

use vstd::prelude::*;
use crate::collections::add_name;
use crate::collections::names;
use crate::collections::new_name_set;
use crate::collections::new_text_map;
use crate::collections::NameSet;
use crate::manifest::asset_names;
use crate::proto_parse::asset_views;
use crate::proto_parse::AssetView;
use crate::proto_parse::SophonManifestAssetProperty;
use crate::proto_parse::SophonManifestProto;
use crate::text::views;
use super::api::manifest_qualifies;
use super::api::qualifies;
use super::api::DownloadInfo;
use super::api::DownloadView;
use super::chunk_reuse::assign_chunk_offsets;
use super::chunk_reuse::changed_assets;
use super::chunk_reuse::changed_below;
use super::chunk_reuse::changes;
use super::chunk_reuse::collect_deleted_files;
use super::chunk_reuse::compute_diff_files;
use super::chunk_reuse::deleted_files;
use super::chunk_reuse::entries_below;
use super::chunk_reuse::ids_fit;
use super::chunk_reuse::intern_without;
use super::chunk_reuse::interned;
use super::chunk_reuse::md5_map_without;
use super::chunk_reuse::md5s_below;
use super::chunk_reuse::placed_asset;
use super::chunk_reuse::law_places_are_per_file;
use super::installer::installer_label;
use super::installer::installer_views;
use super::installer::label_of;
use super::installer::InstallerView;
use super::installer::SophonInstaller;

verus! {

/// The manifest that is installed, and the size on disk of each of its assets,
/// where there is a file.
pub struct OldManifest {
    pub manifest: SophonManifestProto,
    pub on_disk: Vec<Option<u64>>,
}

/// A manifest of a new build, and the one that is installed in its place.
pub struct ManifestUpdate {
    pub matching_field: String,
    pub chunk_download: DownloadInfo,
    pub manifest: SophonManifestProto,
    pub manifest_hash: String,
    pub old: Option<OldManifest>,
}

/// What an update of a manifest says.
pub ghost struct UpdateView {
    pub field: Seq<char>,
    pub download: DownloadView,
    pub assets: Seq<AssetView>,
    pub hash: Seq<char>,
    pub old: Option<(Seq<AssetView>, Seq<Option<u64>>)>,
}

impl View for ManifestUpdate {
    type V = UpdateView;

    open spec fn view(&self) -> UpdateView {
        UpdateView {
            field: self.matching_field@,
            download: self.chunk_download@,
            assets: self.manifest@,
            hash: self.manifest_hash@,
            old: match self.old {
                Some(o) => Some((o.manifest@, o.on_disk@)),
                None => None,
            },
        }
    }
}

/// What each of some updates says.
pub open spec fn update_views(v: Seq<ManifestUpdate>) -> Seq<UpdateView> {
    v.map_values(|u: ManifestUpdate| u@)
}

impl UpdateView {
    /// Every old asset has its size on disk, and the chunks can be counted.
    pub open spec fn wf(self) -> bool {
        match self.old {
            Some((old, on_disk)) => on_disk.len() == old.len() && entries_below(
                old,
                old.len() as int,
            ) < usize::MAX,
            None => true,
        }
    }

    /// The installer of the update takes the files that change, with the places
    /// of their chunks in the old files.
    pub open spec fn changed(self) -> Seq<AssetView> {
        match self.old {
            None => changed_assets(self.assets, Map::empty()),
            Some((old, on_disk)) => {
                let bad = damaged_names(old, on_disk, old.len() as int);
                changed_assets(self.assets, md5s_below(old, bad, old.len() as int)).map_values(
                    |a: AssetView| placed_asset(a, interned(old, bad)),
                )
            },
        }
    }

    /// The old files that the update removes.
    pub open spec fn removed(self) -> Seq<Seq<char>> {
        match self.old {
            None => Seq::empty(),
            Some((old, _)) => deleted_files(old, asset_names(self.assets).to_set()),
        }
    }

    /// The installer of the update.
    pub open spec fn installer(self) -> InstallerView {
        InstallerView {
            assets: self.changed(),
            download: self.download,
            label: label_of(self.download.url_suffix),
            field: self.field,
            hash: self.hash,
        }
    }
}

/// The names of those of the first `n` old files that are missing or have another
/// size on disk.
pub open spec fn damaged_names(old: Seq<AssetView>, on_disk: Seq<Option<u64>>, n: int) -> Set<
    Seq<char>,
>
    decreases n,
{
    if n <= 0 {
        Set::empty()
    } else if !old[n - 1].is_directory() && on_disk[n - 1] != Some(old[n - 1].size) {
        damaged_names(old, on_disk, n - 1).insert(old[n - 1].name)
    } else {
        damaged_names(old, on_disk, n - 1)
    }
}

/// The names of the old files that are missing or have another size on disk.
fn find_damaged(old: &OldManifest) -> (r: NameSet)
    requires
        old.on_disk@.len() == old.manifest@.len(),
    ensures
        names(r) == damaged_names(old.manifest@, old.on_disk@, old.manifest@.len() as int),
{
    let ghost assets = old.manifest@;
    let mut bad = new_name_set();
    let mut i: usize = 0;
    while i < old.manifest.assets.len()
        invariant
            i <= old.manifest.assets@.len(),
            assets == old.manifest@,
            old.on_disk@.len() == assets.len(),
            names(bad) == damaged_names(assets, old.on_disk@, i as int),
        decreases old.manifest.assets@.len() - i,
    {
        let a = &old.manifest.assets[i];
        assert(assets[i as int] == a@);
        let sound = match old.on_disk[i] {
            Some(size) => size == a.asset_size,
            None => false,
        };
        if !a.is_directory() && !sound {
            add_name(&mut bad, a.asset_name.clone());
        }
        i += 1;
    }
    bad
}

/// The names of some assets.
pub fn names_of_assets(assets: &Vec<SophonManifestAssetProperty>) -> (r: NameSet)
    ensures
        names(r) == asset_names(asset_views(assets@)).to_set(),
{
    let ghost all = asset_names(asset_views(assets@));
    let mut out = new_name_set();
    let mut i: usize = 0;
    assert(names(out) =~= all.take(0).to_set());
    while i < assets.len()
        invariant
            i <= assets@.len(),
            all == asset_names(asset_views(assets@)),
            names(out) == all.take(i as int).to_set(),
        decreases assets@.len() - i,
    {
        add_name(&mut out, assets[i].asset_name.clone());
        proof {
            let x = assets@[i as int]@.name;
            assert(all[i as int] == x);
            assert(all.take(i as int + 1) =~= all.take(i as int).push(x));
            assert(all.take(i as int + 1).to_set() =~= all.take(i as int).to_set().insert(x)) by {
                assert forall|y: Seq<char>| all.take(i as int + 1).to_set().contains(y) <==> all.take(
                    i as int,
                ).to_set().insert(x).contains(y) by {
                    let p = all.take(i as int);
                    if p.push(x).contains(y) && y != x {
                        let k = choose|k: int| 0 <= k < p.push(x).len() && p.push(x)[k] == y;
                        assert(p[k] == y);
                    }
                    if p.contains(y) {
                        let k = choose|k: int| 0 <= k < p.len() && p[k] == y;
                        assert(p.push(x)[k] == y);
                    }
                    assert(p.push(x)[p.len() as int] == x);
                }
            }
        }
        i += 1;
    }
    assert(all.take(all.len() as int) =~= all);
    out
}

/// The installer that brings one manifest up to date, if any file changes, and
/// the old files that it leaves behind.
pub fn diff_installer(update: ManifestUpdate) -> (r: (Option<SophonInstaller>, Vec<String>))
    requires
        update@.wf(),
    ensures
        views(r.1@) == update@.removed(),
        if update@.changed().len() == 0 {
            r.0 is None
        } else {
            r.0 matches Some(i) && i@ == update@.installer()
        },
{
    let ghost u = update@;
    let ManifestUpdate { matching_field, chunk_download, manifest, manifest_hash, old } = update;
    let (diff, deleted) = match &old {
        Some(o) => {
            let new_names = names_of_assets(&manifest.assets);
            let deleted = collect_deleted_files(&o.manifest, &new_names);
            let bad = find_damaged(o);
            let md5s = md5_map_without(&o.manifest, &bad);
            let (offsets, name_to_id, hash_to_id) = intern_without(&o.manifest, &bad);
            let mut files = compute_diff_files(manifest, &md5s);
            assign_chunk_offsets(&mut files, &offsets, &name_to_id, &hash_to_id);
            assert(asset_views(files@) =~= u.changed());
            (files, deleted)
        },
        None => {
            let md5s = new_text_map();
            let deleted: Vec<String> = Vec::new();
            assert(views(deleted@) =~= u.removed());
            (compute_diff_files(manifest, &md5s), deleted)
        },
    };
    assert(asset_views(diff@).len() == diff@.len());
    if diff.len() == 0 {
        return (None, deleted);
    }
    let label = installer_label(chunk_download.url_suffix.as_str());
    (
        Some(
            SophonInstaller {
                manifest: SophonManifestProto { assets: diff },
                chunk_download,
                label,
                matching_field,
                manifest_hash,
            },
        ),
        deleted,
    )
}

/// The installers of the first `n` updates that belong to the installation and
/// change anything.
pub open spec fn update_installers(us: Seq<UpdateView>, lang: Seq<char>, n: int) -> Seq<
    InstallerView,
>
    decreases n,
{
    if n <= 0 {
        Seq::empty()
    } else {
        let u = us[n - 1];
        if qualifies(u.field, lang) && u.changed().len() > 0 {
            update_installers(us, lang, n - 1).push(u.installer())
        } else {
            update_installers(us, lang, n - 1)
        }
    }
}

/// The files that the first `n` updates remove.
pub open spec fn update_removals(us: Seq<UpdateView>, lang: Seq<char>, n: int) -> Seq<Seq<char>>
    decreases n,
{
    if n <= 0 {
        Seq::empty()
    } else {
        let u = us[n - 1];
        if qualifies(u.field, lang) {
            update_removals(us, lang, n - 1) + u.removed()
        } else {
            update_removals(us, lang, n - 1)
        }
    }
}

/// The installers that bring a build up to date, and the files that it leaves
/// behind.
pub fn build_diff_installers(updates: Vec<ManifestUpdate>, vo_lang: &str) -> (r: (
    Vec<SophonInstaller>,
    Vec<String>,
))
    requires
        forall|i: int| 0 <= i < updates@.len() ==> #[trigger] update_views(updates@)[i].wf(),
    ensures
        installer_views(r.0@) == update_installers(
            update_views(updates@),
            vo_lang@,
            updates@.len() as int,
        ),
        views(r.1@) == update_removals(update_views(updates@), vo_lang@, updates@.len() as int),
{
    let ghost us = update_views(updates@);
    let ghost all = updates@;
    let mut rest = updates;
    let mut installers: Vec<SophonInstaller> = Vec::new();
    let mut deleted: Vec<String> = Vec::new();
    let n: usize = rest.len();
    let mut i: usize = 0;
    assert(installer_views(installers@) =~= update_installers(us, vo_lang@, 0));
    assert(views(deleted@) =~= update_removals(us, vo_lang@, 0));
    while i < n
        invariant
            i <= n,
            us == update_views(all),
            n == us.len(),
            rest@ == all.skip(i as int),
            forall|k: int| 0 <= k < us.len() ==> #[trigger] us[k].wf(),
            installer_views(installers@) == update_installers(us, vo_lang@, i as int),
            views(deleted@) == update_removals(us, vo_lang@, i as int),
        decreases n - i,
    {
        let ghost before = installer_views(installers@);
        let ghost gone = views(deleted@);
        let update = rest.remove(0);
        assert(all[i as int]@ == us[i as int]);
        assert(rest@ =~= all.skip(i as int + 1));
        if manifest_qualifies(update.matching_field.as_str(), vo_lang) {
            assert(us[i as int].wf());
            let (made, mut files) = diff_installer(update);
            let ghost removed = views(files@);
            let ghost old_deleted = deleted@;
            let ghost new_files = files@;
            deleted.append(&mut files);
            assert(views(deleted@) =~= gone + removed);
            match made {
                Some(x) => {
                    installers.push(x);
                    assert(installer_views(installers@) =~= before.push(x@));
                },
                None => {},
            }
        }
        i += 1;
    }
    (installers, deleted)
}

/// The last of the first `n` fields that is `field`: the later of two manifests
/// with one field counts.
pub open spec fn last_field(fields: Seq<Seq<char>>, field: Seq<char>, n: int) -> Option<int>
    decreases n,
{
    if n <= 0 {
        None
    } else if fields[n - 1] == field {
        Some(n - 1)
    } else {
        last_field(fields, field, n - 1)
    }
}

/// The manifest that is installed for a field.
pub fn find_field(fields: &Vec<String>, field: &str) -> (r: Option<usize>)
    ensures
        match last_field(views(fields@), field@, fields@.len() as int) {
            Some(i) => r matches Some(j) && i == j,
            None => r is None,
        },
{
    let mut i: usize = fields.len();
    while i > 0
        invariant
            i <= fields@.len(),
            last_field(views(fields@), field@, fields@.len() as int) == last_field(
                views(fields@),
                field@,
                i as int,
            ),
        decreases i,
    {
        assert(views(fields@)[i - 1] == fields@[i - 1]@);
        if *fields[i - 1].as_str() == *field {
            return Some(i - 1);
        }
        i -= 1;
    }
    None
}

/// A file of which the old version is damaged on disk is installed again, and no
/// chunk is taken from it.
pub proof fn law_damaged_files_are_installed_again(u: UpdateView, i: int)
    requires
        u.old is Some,
        0 <= i < u.assets.len(),
        !u.assets[i].is_directory(),
        ({
            let (old, on_disk) = u.old->0;
            &&& ids_fit(interned(old, damaged_names(old, on_disk, old.len() as int)))
            &&& damaged_names(old, on_disk, old.len() as int).contains(u.assets[i].name)
        }),
    ensures
        ({
            let (old, on_disk) = u.old->0;
            let t = interned(old, damaged_names(old, on_disk, old.len() as int));
            &&& u.changed().contains(placed_asset(u.assets[i], t))
            &&& forall|c: int|
                0 <= c < u.assets[i].chunks.len() ==> (#[trigger] placed_asset(
                    u.assets[i],
                    t,
                ).chunks[c]).old_offset == -1
        }),
{
    let (old, on_disk) = u.old->0;
    let n = old.len() as int;
    let bad = damaged_names(old, on_disk, n);
    let name = u.assets[i].name;
    let md5s = md5s_below(old, bad, n);
    lemma_left_out_md5(old, bad, n, name);
    lemma_changed_contains(u.assets, md5s, u.assets.len() as int, i);
    let t = interned(old, bad);
    let changed = changed_assets(u.assets, md5s);
    let k = choose|k: int| 0 <= k < changed.len() && changed[k] == u.assets[i];
    assert(u.changed()[k] == placed_asset(u.assets[i], t));
    assert forall|c: int| 0 <= c < u.assets[i].chunks.len() implies (#[trigger] placed_asset(
        u.assets[i],
        t,
    ).chunks[c]).old_offset == -1 by {
        law_places_are_per_file(old, bad, name, u.assets[i].chunks[c].decompressed_md5);
    }
}

proof fn lemma_left_out_md5(old: Seq<AssetView>, bad: Set<Seq<char>>, n: int, name: Seq<char>)
    requires
        bad.contains(name),
        0 <= n <= old.len(),
    ensures
        !md5s_below(old, bad, n).dom().contains(name),
    decreases n,
{
    if n > 0 {
        lemma_left_out_md5(old, bad, n - 1, name);
    }
}

proof fn lemma_changed_contains(
    new: Seq<AssetView>,
    md5s: Map<Seq<char>, Seq<char>>,
    n: int,
    i: int,
)
    requires
        0 <= i < n <= new.len(),
        changes(new[i], md5s),
    ensures
        changed_below(new, md5s, n).contains(new[i]),
    decreases n,
{
    let s = changed_below(new, md5s, n);
    if i == n - 1 {
        assert(s[s.len() - 1] == new[i]);
    } else {
        lemma_changed_contains(new, md5s, n - 1, i);
        let t = changed_below(new, md5s, n - 1);
        let k = choose|k: int| 0 <= k < t.len() && t[k] == new[i];
        assert(s[k] == new[i]);
    }
}

/// Only directories, and files that are new or have another checksum, are
/// installed.
pub proof fn law_unchanged_files_are_left(new: Seq<AssetView>, md5s: Map<Seq<char>, Seq<char>>)
    ensures
        forall|i: int|
            0 <= i < changed_assets(new, md5s).len() ==> changes(
                #[trigger] changed_assets(new, md5s)[i],
                md5s,
            ),
{
    lemma_changed_below(new, md5s, new.len() as int);
}

proof fn lemma_changed_below(new: Seq<AssetView>, md5s: Map<Seq<char>, Seq<char>>, n: int)
    ensures
        forall|i: int|
            0 <= i < changed_below(new, md5s, n).len()
                ==> changes(
                #[trigger] changed_below(new, md5s, n)[i],
                md5s,
            ),
    decreases n,
{
    if n > 0 {
        lemma_changed_below(new, md5s, n - 1);
        let s = changed_below(new, md5s, n);
        let t = changed_below(new, md5s, n - 1);
        assert forall|i: int| 0 <= i < s.len() implies changes(#[trigger] s[i], md5s) by {
            if i < t.len() {
                assert(s[i] == t[i]);
            }
        }
    }
}

/// The manifest that is installed for a field is the last with that field.
pub proof fn law_the_later_manifest_counts(fields: Seq<Seq<char>>, field: Seq<char>, n: int)
    requires
        0 <= n <= fields.len(),
    ensures
        match last_field(fields, field, n) {
            Some(i) => 0 <= i < n && fields[i] == field && forall|j: int|
                i < j < n ==> #[trigger] fields[j] != field,
            None => forall|j: int| 0 <= j < n ==> #[trigger] fields[j] != field,
        },
    decreases n,
{
    if n > 0 && fields[n - 1] != field {
        law_the_later_manifest_counts(fields, field, n - 1);
    }
}

} // verus!
