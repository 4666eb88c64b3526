//! What a preinstallation downloads, patches and deletes.

use vstd::prelude::*;
use crate::collections::add_name;
use crate::collections::has_name;
use crate::collections::names;
use crate::collections::NameMap;
use crate::collections::NameSet;
use crate::collections::new_name_map;
use crate::collections::new_name_set;
use crate::collections::number_at;
use crate::collections::numbered_names;
use crate::collections::numbers;
use crate::collections::put_number;
use crate::digest::equal_ignoring_case;
use crate::digest::same_ignoring_case;
use crate::proto_parse::asset_views;
use crate::proto_parse::AssetView;
use crate::proto_parse::SophonManifestAssetProperty;
use crate::proto_parse::SophonManifestProto;
use crate::text::copy_text;
use crate::text::text_of;
use crate::text::views;
use super::api::DownloadInfo;
use super::api::DownloadView;
use super::error::ErrorView;
use super::error::SophonError;
use super::error::SophonResult;
use super::patch_manifest::group_views;
use super::patch_manifest::info_views;
use super::patch_manifest::PatchedView;
use super::patch_manifest::patched_views;
use super::patch_manifest::PatchInfoView;
use super::patch_manifest::PatchProtoView;
use super::patch_manifest::PieceView;
use super::patch_manifest::piece_ok;
use super::patch_manifest::SophonPatchAssetChunk;
use super::patch_manifest::SophonPatchAssetInfo;
use super::patch_manifest::SophonPatchAssetProperty;
use super::patch_manifest::SophonPatchProto;
use super::patch_manifest::SophonUnusedAssetProperty;
use super::patch_manifest::unused_views;
use super::patch_manifest::UnusedView;
use super::patch_manifest::validate_patch_asset_fields;
use super::patch_manifest::validate_patch_chunk_fields;

verus! {

/// How a file of the next version is made.
#[derive(Debug, Clone, Copy, PartialEq, Eq, Structural)]
pub enum PatchMethod {
    CopyOver,
    Patch,
    DownloadOver,
    Remove,
    Skip,
}

/// A file of the next version, and how it is made.
#[derive(Debug)]
pub struct PatchAssetInfo {
    pub target_file_path: String,
    pub target_file_size: u64,
    pub target_file_hash: String,
    pub patch_method: PatchMethod,
    pub patch_name: String,
    pub patch_hash: String,
    pub patch_offset: u64,
    pub patch_size: u64,
    pub patch_chunk_length: u64,
    pub original_file_path: Option<String>,
    pub original_file_hash: Option<String>,
    pub original_file_size: Option<u64>,
    pub matching_field: String,
}

/// A patch file to download.
#[derive(Debug)]
pub struct PatchChunkInfo {
    pub patch_name: String,
    pub patch_size: u64,
    pub patch_md5: String,
    pub matching_field: String,
}

/// What a file of the next version says.
pub ghost struct TargetView {
    pub target_file_path: Seq<char>,
    pub target_file_size: u64,
    pub target_file_hash: Seq<char>,
    pub patch_method: PatchMethod,
    pub patch_name: Seq<char>,
    pub patch_hash: Seq<char>,
    pub patch_offset: u64,
    pub patch_size: u64,
    pub patch_chunk_length: u64,
    pub original_file_path: Option<Seq<char>>,
    pub original_file_hash: Option<Seq<char>>,
    pub original_file_size: Option<u64>,
    pub matching_field: Seq<char>,
}

/// What a patch file to download says.
pub ghost struct PatchFileView {
    pub patch_name: Seq<char>,
    pub patch_size: u64,
    pub patch_md5: Seq<char>,
    pub matching_field: Seq<char>,
}

impl View for PatchAssetInfo {
    type V = TargetView;

    open spec fn view(&self) -> TargetView {
        TargetView {
            target_file_path: self.target_file_path@,
            target_file_size: self.target_file_size,
            target_file_hash: self.target_file_hash@,
            patch_method: self.patch_method,
            patch_name: self.patch_name@,
            patch_hash: self.patch_hash@,
            patch_offset: self.patch_offset,
            patch_size: self.patch_size,
            patch_chunk_length: self.patch_chunk_length,
            original_file_path: text_of(self.original_file_path),
            original_file_hash: text_of(self.original_file_hash),
            original_file_size: self.original_file_size,
            matching_field: self.matching_field@,
        }
    }
}

impl Clone for PatchAssetInfo {
    fn clone(&self) -> (r: Self)
        ensures
            r@ == self@,
    {
        PatchAssetInfo {
            target_file_path: self.target_file_path.clone(),
            target_file_size: self.target_file_size,
            target_file_hash: self.target_file_hash.clone(),
            patch_method: self.patch_method,
            patch_name: self.patch_name.clone(),
            patch_hash: self.patch_hash.clone(),
            patch_offset: self.patch_offset,
            patch_size: self.patch_size,
            patch_chunk_length: self.patch_chunk_length,
            original_file_path: copy_text(&self.original_file_path),
            original_file_hash: copy_text(&self.original_file_hash),
            original_file_size: self.original_file_size,
            matching_field: self.matching_field.clone(),
        }
    }
}

impl View for PatchChunkInfo {
    type V = PatchFileView;

    open spec fn view(&self) -> PatchFileView {
        PatchFileView {
            patch_name: self.patch_name@,
            patch_size: self.patch_size,
            patch_md5: self.patch_md5@,
            matching_field: self.matching_field@,
        }
    }
}

impl Clone for PatchChunkInfo {
    fn clone(&self) -> (r: Self)
        ensures
            r@ == self@,
    {
        PatchChunkInfo {
            patch_name: self.patch_name.clone(),
            patch_size: self.patch_size,
            patch_md5: self.patch_md5.clone(),
            matching_field: self.matching_field.clone(),
        }
    }
}

/// What some files of the next version say.
pub open spec fn target_views(v: Seq<PatchAssetInfo>) -> Seq<TargetView> {
    v.map_values(|a: PatchAssetInfo| a@)
}

/// What some patch files say.
pub open spec fn patch_file_views(v: Seq<PatchChunkInfo>) -> Seq<PatchFileView> {
    v.map_values(|c: PatchChunkInfo| c@)
}

/// Where the patch files of each part of the game are served.
pub struct DiffDownloads {
    places: NameMap,
    sources: Vec<DownloadInfo>,
}

impl View for DiffDownloads {
    type V = Map<Seq<char>, DownloadView>;

    closed spec fn view(&self) -> Map<Seq<char>, DownloadView> {
        Map::new(
            |k: Seq<char>| numbers(self.places).dom().contains(k),
            |k: Seq<char>| self.sources@[numbers(self.places)[k] as int]@,
        )
    }
}

impl DiffDownloads {
    /// Every part has a source, and every source a part.
    pub closed spec fn wf(&self) -> bool {
        let m = numbers(self.places);
        &&& forall|k: Seq<char>| #[trigger] m.dom().contains(k) ==> m[k] < self.sources@.len()
        &&& forall|k: Seq<char>, l: Seq<char>|
            #![trigger m.dom().contains(k), m.dom().contains(l)]
            m.dom().contains(k) && m.dom().contains(l) && m[k] == m[l] ==> k == l
        &&& self.sources@.len() > 0 ==> exists|k: Seq<char>|
            #[trigger] m.dom().contains(k) && m[k] == 0
    }

    /// No part has a source yet.
    pub fn new() -> (r: Self)
        ensures
            r.wf(),
            r@ == Map::<Seq<char>, DownloadView>::empty(),
    {
        let r = DiffDownloads { places: new_name_map(), sources: Vec::new() };
        assert(r@ =~= Map::<Seq<char>, DownloadView>::empty());
        r
    }

    /// Gives a part of the game its source, in place of one that it had.
    pub fn insert(&mut self, field: &str, source: &DownloadInfo)
        requires
            old(self).wf(),
        ensures
            final(self).wf(),
            final(self)@ == old(self)@.insert(field@, source@),
    {
        let ghost before = self@;
        let ghost m = numbers(self.places);
        match number_at(&self.places, field) {
            Some(i) => {
                assert(i < self.sources.len());
                let at: usize = i as usize;
                self.sources.set(at, source.clone());
                assert(self@ =~= before.insert(field@, source@));
            },
            None => {
                let n: usize = self.sources.len();
                put_number(&mut self.places, field.to_owned(), n as u64);
                self.sources.push(source.clone());
                proof {
                    let now = numbers(self.places);
                    if n == 0 {
                        assert(now.dom().contains(field@) && now[field@] == 0);
                    } else {
                        let k = choose|k: Seq<char>| #[trigger] m.dom().contains(k) && m[k] == 0;
                        assert(now.dom().contains(k) && now[k] == 0);
                    }
                    assert(self@ =~= before.insert(field@, source@));
                }
            },
        }
    }

    /// The parts of the game that have a source, in no particular order.
    pub fn fields(&self) -> (r: Vec<String>)
        ensures
            views(r@).no_duplicates(),
            views(r@).to_set() == self@.dom(),
    {
        assert(numbers(self.places).dom() =~= self@.dom());
        numbered_names(&self.places)
    }

    /// Where the patch files of a part of the game are served; a part without a
    /// source of its own takes that of another part.
    pub fn for_field(&self, field: &str) -> (r: Option<&DownloadInfo>)
        requires
            self.wf(),
        ensures
            if self@.dom().contains(field@) {
                r matches Some(d) && d@ == self@[field@]
            } else {
                match r {
                    Some(d) => exists|k: Seq<char>|
                        #[trigger] self@.dom().contains(k) && self@[k] == d@,
                    None => self@ == Map::<Seq<char>, DownloadView>::empty(),
                }
            },
    {
        let n: usize = self.sources.len();
        match number_at(&self.places, field) {
            Some(i) => {
                let at: usize = i as usize;
                Some(&self.sources[at])
            },
            None => if n == 0 {
                assert(self@ =~= Map::<Seq<char>, DownloadView>::empty());
                None
            } else {
                proof {
                    let m = numbers(self.places);
                    let k = choose|k: Seq<char>| #[trigger] m.dom().contains(k) && m[k] == 0;
                    assert(self@.dom().contains(k) && self@[k] == self.sources@[0]@);
                }
                Some(&self.sources[0])
            },
        }
    }
}

/// The patch manifest for a part of the game, and where its patch files are
/// served.
pub struct PatchResult {
    pub matching_field: String,
    pub patch_manifest: SophonPatchProto,
    pub diff_download: DownloadInfo,
}

/// The manifest of the next version of a part of the game, and where its chunks
/// are served.
pub struct MainManifest {
    pub matching_field: String,
    pub manifest_id: String,
    pub chunk_download: DownloadInfo,
    pub manifest: SophonManifestProto,
}

/// What a patch manifest and its source say.
pub ghost struct PatchResultView {
    pub field: Seq<char>,
    pub manifest: PatchProtoView,
    pub source: DownloadView,
}

/// What the manifest of a part of the game says.
pub ghost struct MainView {
    pub field: Seq<char>,
    pub id: Seq<char>,
    pub source: DownloadView,
    pub assets: Seq<AssetView>,
}

impl View for PatchResult {
    type V = PatchResultView;

    open spec fn view(&self) -> PatchResultView {
        PatchResultView {
            field: self.matching_field@,
            manifest: self.patch_manifest@,
            source: self.diff_download@,
        }
    }
}

impl View for MainManifest {
    type V = MainView;

    open spec fn view(&self) -> MainView {
        MainView {
            field: self.matching_field@,
            id: self.manifest_id@,
            source: self.chunk_download@,
            assets: self.manifest@,
        }
    }
}

/// What some patch manifests say.
pub open spec fn result_views(v: Seq<PatchResult>) -> Seq<PatchResultView> {
    v.map_values(|p: PatchResult| p@)
}

/// What some manifests say.
pub open spec fn main_views(v: Seq<MainManifest>) -> Seq<MainView> {
    v.map_values(|m: MainManifest| m@)
}

/// A part of the game is among the first `n` manifests.
pub open spec fn has_main_field(mains: Seq<MainView>, field: Seq<char>) -> bool {
    exists|i: int| 0 <= i < mains.len() && (#[trigger] mains[i]).field == field
}

/// A plan in the making: the files, what is deleted, the patch files, and the
/// names that were met.
pub ghost struct PlanView {
    pub assets: Seq<TargetView>,
    pub deleted: Seq<Seq<char>>,
    pub chunks: Seq<PatchFileView>,
    pub chunk_names: Set<Seq<char>>,
    pub seen: Set<Seq<char>>,
}

/// A file that is downloaded whole.
pub open spec fn whole_file(path: Seq<char>, size: u64, md5: Seq<char>, field: Seq<char>) -> TargetView {
    TargetView {
        target_file_path: path,
        target_file_size: size,
        target_file_hash: md5,
        patch_method: PatchMethod::DownloadOver,
        patch_name: Seq::empty(),
        patch_hash: Seq::empty(),
        patch_offset: 0,
        patch_size: 0,
        patch_chunk_length: 0,
        original_file_path: None,
        original_file_hash: None,
        original_file_size: None,
        matching_field: field,
    }
}

/// A file that is made from a piece of a patch file: copied, or patched from an
/// original where the piece names one.
pub open spec fn patched_file(a: PatchedView, c: PieceView, field: Seq<char>) -> TargetView {
    let from_original = c.original_file_name.len() > 0;
    TargetView {
        target_file_path: a.name,
        target_file_size: a.size as u64,
        target_file_hash: a.md5,
        patch_method: if from_original {
            PatchMethod::Patch
        } else {
            PatchMethod::CopyOver
        },
        patch_name: c.patch_name,
        patch_hash: c.patch_md5,
        patch_offset: c.patch_offset as u64,
        patch_size: c.patch_size as u64,
        patch_chunk_length: c.patch_length as u64,
        original_file_path: if from_original {
            Some(c.original_file_name)
        } else {
            None
        },
        original_file_hash: if from_original {
            Some(c.original_file_md5)
        } else {
            None
        },
        original_file_size: if from_original {
            Some(c.original_file_length as u64)
        } else {
            None
        },
        matching_field: field,
    }
}

impl PlanView {
    /// A plan with nothing in it.
    pub open spec fn blank() -> PlanView {
        PlanView {
            assets: Seq::empty(),
            deleted: Seq::empty(),
            chunks: Seq::empty(),
            chunk_names: Set::empty(),
            seen: Set::empty(),
        }
    }

    /// The plan once a file was met.
    pub open spec fn see(self, name: Seq<char>) -> PlanView {
        PlanView { seen: self.seen.insert(name), ..self }
    }

    /// The plan with one file more.
    pub open spec fn with(self, t: TargetView) -> PlanView {
        PlanView { assets: self.assets.push(t), ..self }
    }

    /// The plan with a patch file, which is listed once.
    pub open spec fn with_patch_file(self, c: PieceView, field: Seq<char>) -> PlanView {
        if self.chunk_names.contains(c.patch_name) {
            self
        } else {
            PlanView {
                chunks: self.chunks.push(
                    PatchFileView {
                        patch_name: c.patch_name,
                        patch_size: c.patch_size as u64,
                        patch_md5: c.patch_md5,
                        matching_field: field,
                    },
                ),
                chunk_names: self.chunk_names.insert(c.patch_name),
                ..self
            }
        }
    }

    /// The plan with one file more to delete, unless it is made anew.
    pub open spec fn without(self, name: Seq<char>) -> PlanView {
        if self.seen.contains(name) {
            self
        } else {
            PlanView { deleted: self.deleted.push(name), ..self }
        }
    }
}

/// The first patch, from `i` on, that starts at the version `tag`.
pub open spec fn info_from(infos: Seq<PatchInfoView>, tag: Seq<char>, i: int) -> Option<PatchInfoView>
    decreases infos.len() - i,
{
    if i >= infos.len() {
        None
    } else if same_ignoring_case(infos[i].version_tag, tag) {
        Some(infos[i])
    } else {
        info_from(infos, tag, i + 1)
    }
}

/// The plan once a file of a patch manifest is taken in. A file without a patch
/// from the installed version is downloaded whole, where there is a manifest to
/// download it by; what states a negative size or offset is left out.
pub open spec fn after_asset(
    s: PlanView,
    a: PatchedView,
    field: Seq<char>,
    tag: Seq<char>,
    has_main: bool,
) -> PlanView {
    match info_from(a.infos, tag, 0) {
        Some(info) => match info.chunk {
            None => if has_main && a.size >= 0 {
                s.see(a.name).with(whole_file(a.name, a.size as u64, a.md5, field))
            } else {
                s.see(a.name)
            },
            Some(c) => if a.size >= 0 && piece_ok(c) {
                s.see(a.name).with_patch_file(c, field).with(patched_file(a, c, field))
            } else {
                s.see(a.name)
            },
        },
        None => if has_main {
            if a.size >= 0 {
                s.see(a.name).with(whole_file(a.name, a.size as u64, a.md5, field))
            } else {
                s.see(a.name)
            }
        } else {
            s
        },
    }
}

/// The plan once the first `n` files of a patch manifest are taken in.
pub open spec fn after_assets(
    s: PlanView,
    assets: Seq<PatchedView>,
    field: Seq<char>,
    tag: Seq<char>,
    has_main: bool,
    n: int,
) -> PlanView
    decreases n,
{
    if n <= 0 {
        s
    } else {
        after_asset(
            after_assets(s, assets, field, tag, has_main, n - 1),
            assets[n - 1],
            field,
            tag,
            has_main,
        )
    }
}

/// The plan once the first `n` of some files are deleted.
pub open spec fn after_files(s: PlanView, files: Seq<Seq<char>>, n: int) -> PlanView
    decreases n,
{
    if n <= 0 {
        s
    } else {
        after_files(s, files, n - 1).without(files[n - 1])
    }
}

/// The plan once the first `n` groups of files are deleted.
pub open spec fn after_groups(s: PlanView, groups: Seq<Seq<Seq<char>>>, n: int) -> PlanView
    decreases n,
{
    if n <= 0 {
        s
    } else {
        let files = groups[n - 1];
        after_files(after_groups(s, groups, n - 1), files, files.len() as int)
    }
}

/// The plan once the first `n` lists of unused files are taken in: those of the
/// installed version are deleted.
pub open spec fn after_unused(s: PlanView, unused: Seq<UnusedView>, tag: Seq<char>, n: int) -> PlanView
    decreases n,
{
    if n <= 0 {
        s
    } else {
        let before = after_unused(s, unused, tag, n - 1);
        let u = unused[n - 1];
        if same_ignoring_case(u.version_tag, tag) {
            after_groups(before, u.groups, u.groups.len() as int)
        } else {
            before
        }
    }
}

/// The plan once a patch manifest is taken in.
pub open spec fn after_patch(s: PlanView, p: PatchResultView, tag: Seq<char>, mains: Seq<MainView>) -> PlanView {
    let m = p.manifest;
    after_unused(
        after_assets(s, m.assets, p.field, tag, has_main_field(mains, p.field), m.assets.len() as int),
        m.unused,
        tag,
        m.unused.len() as int,
    )
}

/// The plan once the first `n` patch manifests are taken in.
pub open spec fn after_patches(
    patches: Seq<PatchResultView>,
    tag: Seq<char>,
    mains: Seq<MainView>,
    n: int,
) -> PlanView
    decreases n,
{
    if n <= 0 {
        PlanView::blank()
    } else {
        after_patch(after_patches(patches, tag, mains, n - 1), patches[n - 1], tag, mains)
    }
}

/// The plan once a file of the next version is taken in: what no patch manifest
/// has met is downloaded whole.
pub open spec fn after_main_asset(s: PlanView, a: AssetView, field: Seq<char>) -> PlanView {
    if a.is_directory() {
        s.see(a.name)
    } else if s.seen.contains(a.name) {
        s
    } else {
        s.with(whole_file(a.name, a.size, a.md5, field)).see(a.name)
    }
}

/// The plan once the first `n` files of the next version are taken in.
pub open spec fn after_main_assets(s: PlanView, assets: Seq<AssetView>, field: Seq<char>, n: int) -> PlanView
    decreases n,
{
    if n <= 0 {
        s
    } else {
        after_main_asset(after_main_assets(s, assets, field, n - 1), assets[n - 1], field)
    }
}

/// The plan once the first `n` manifests of the next version are taken in.
pub open spec fn after_mains(s: PlanView, mains: Seq<MainView>, n: int) -> PlanView
    decreases n,
{
    if n <= 0 {
        s
    } else {
        let m = mains[n - 1];
        after_main_assets(after_mains(s, mains, n - 1), m.assets, m.field, m.assets.len() as int)
    }
}

/// The whole plan.
pub open spec fn whole_plan(patches: Seq<PatchResultView>, tag: Seq<char>, mains: Seq<MainView>) -> PlanView {
    after_mains(
        after_patches(patches, tag, mains, patches.len() as int),
        mains,
        mains.len() as int,
    )
}

/// The sources of the first `n` patch manifests.
pub open spec fn sources_below(patches: Seq<PatchResultView>, n: int) -> Map<Seq<char>, DownloadView>
    decreases n,
{
    if n <= 0 {
        Map::empty()
    } else {
        sources_below(patches, n - 1).insert(patches[n - 1].field, patches[n - 1].source)
    }
}

struct PlanBuilder {
    assets: Vec<PatchAssetInfo>,
    deleted: Vec<String>,
    chunks: Vec<PatchChunkInfo>,
    chunk_names: NameSet,
    seen: NameSet,
}

impl View for PlanBuilder {
    type V = PlanView;

    closed spec fn view(&self) -> PlanView {
        PlanView {
            assets: target_views(self.assets@),
            deleted: views(self.deleted@),
            chunks: patch_file_views(self.chunks@),
            chunk_names: names(self.chunk_names),
            seen: names(self.seen),
        }
    }
}

impl PlanBuilder {
    fn new() -> (r: Self)
        ensures
            r@ == PlanView::blank(),
    {
        let r = PlanBuilder {
            assets: Vec::new(),
            deleted: Vec::new(),
            chunks: Vec::new(),
            chunk_names: new_name_set(),
            seen: new_name_set(),
        };
        assert(r@.assets =~= Seq::<TargetView>::empty());
        assert(r@.deleted =~= Seq::<Seq<char>>::empty());
        assert(r@.chunks =~= Seq::<PatchFileView>::empty());
        r
    }

    fn see(&mut self, name: &str)
        ensures
            final(self)@ == old(self)@.see(name@),
    {
        add_name(&mut self.seen, name.to_owned());
    }

    fn add(&mut self, t: PatchAssetInfo)
        ensures
            final(self)@ == old(self)@.with(t@),
    {
        let ghost before = self@;
        self.assets.push(t);
        assert(self@.assets =~= before.assets.push(t@));
    }

    fn add_whole(&mut self, path: &str, size: u64, md5: &str, field: &str)
        ensures
            final(self)@ == old(self)@.with(whole_file(path@, size, md5@, field@)),
    {
        let t = PatchAssetInfo {
            target_file_path: path.to_owned(),
            target_file_size: size,
            target_file_hash: md5.to_owned(),
            patch_method: PatchMethod::DownloadOver,
            patch_name: String::new(),
            patch_hash: String::new(),
            patch_offset: 0,
            patch_size: 0,
            patch_chunk_length: 0,
            original_file_path: None,
            original_file_hash: None,
            original_file_size: None,
            matching_field: field.to_owned(),
        };
        assert(t@.patch_name =~= Seq::<char>::empty());
        assert(t@.patch_hash =~= Seq::<char>::empty());
        self.add(t);
    }

    fn add_patch_file(&mut self, c: &SophonPatchAssetChunk, field: &str)
        requires
            piece_ok(c@),
        ensures
            final(self)@ == old(self)@.with_patch_file(c@, field@),
    {
        let ghost before = self@;
        if add_name(&mut self.chunk_names, c.patch_name.clone()) {
            let info = PatchChunkInfo {
                patch_name: c.patch_name.clone(),
                patch_size: c.patch_size as u64,
                patch_md5: c.patch_md5.clone(),
                matching_field: field.to_owned(),
            };
            self.chunks.push(info);
            assert(self@.chunks =~= before.chunks.push(info@));
        } else {
            assert(self@.chunk_names =~= before.chunk_names);
        }
    }

    fn add_patched(&mut self, a: &SophonPatchAssetProperty, c: &SophonPatchAssetChunk, field: &str)
        requires
            a@.size >= 0,
            piece_ok(c@),
        ensures
            final(self)@ == old(self)@.with(patched_file(a@, c@, field@)),
    {
        let copy = c.original_file_name.as_str().is_empty();
        let t = PatchAssetInfo {
            target_file_path: a.asset_name.clone(),
            target_file_size: a.asset_size as u64,
            target_file_hash: a.asset_hash_md5.clone(),
            patch_method: if copy {
                PatchMethod::CopyOver
            } else {
                PatchMethod::Patch
            },
            patch_name: c.patch_name.clone(),
            patch_hash: c.patch_md5.clone(),
            patch_offset: c.patch_offset as u64,
            patch_size: c.patch_size as u64,
            patch_chunk_length: c.patch_length as u64,
            original_file_path: if copy {
                None
            } else {
                Some(c.original_file_name.clone())
            },
            original_file_hash: if copy {
                None
            } else {
                Some(c.original_file_md5.clone())
            },
            original_file_size: if copy {
                None
            } else {
                Some(c.original_file_length as u64)
            },
            matching_field: field.to_owned(),
        };
        self.add(t);
    }

    fn delete(&mut self, name: &String)
        ensures
            final(self)@ == old(self)@.without(name@),
    {
        let ghost before = self@;
        if !has_name(&self.seen, name.as_str()) {
            self.deleted.push(name.clone());
            assert(self@.deleted =~= before.deleted.push(name@));
        }
    }

    fn take_asset(&mut self, a: &SophonPatchAssetProperty, field: &str, tag: &str, has_main: bool)
        ensures
            final(self)@ == after_asset(old(self)@, a@, field@, tag@, has_main),
    {
        match find_info(&a.asset_infos, tag) {
            Some(info) => {
                self.see(a.asset_name.as_str());
                match &info.chunk {
                    None => {
                        if has_main && validate_patch_asset_fields(a) {
                            self.add_whole(
                                a.asset_name.as_str(),
                                a.asset_size as u64,
                                a.asset_hash_md5.as_str(),
                                field,
                            );
                        }
                    },
                    Some(c) => {
                        if validate_patch_asset_fields(a) && validate_patch_chunk_fields(c) {
                            self.add_patch_file(c, field);
                            self.add_patched(a, c, field);
                        }
                    },
                }
            },
            None => {
                if has_main {
                    self.see(a.asset_name.as_str());
                    if validate_patch_asset_fields(a) {
                        self.add_whole(
                            a.asset_name.as_str(),
                            a.asset_size as u64,
                            a.asset_hash_md5.as_str(),
                            field,
                        );
                    }
                }
            },
        }
    }

    fn take_assets(
        &mut self,
        assets: &Vec<SophonPatchAssetProperty>,
        field: &str,
        tag: &str,
        has_main: bool,
    )
        ensures
            final(self)@ == after_assets(
                old(self)@,
                patched_views(assets@),
                field@,
                tag@,
                has_main,
                assets@.len() as int,
            ),
    {
        let ghost start = self@;
        let ghost v = patched_views(assets@);
        let mut i: usize = 0;
        while i < assets.len()
            invariant
                i <= assets@.len(),
                v == patched_views(assets@),
                self@ == after_assets(start, v, field@, tag@, has_main, i as int),
            decreases assets@.len() - i,
        {
            assert(v[i as int] == assets@[i as int]@);
            self.take_asset(&assets[i], field, tag, has_main);
            i += 1;
        }
    }

    fn delete_all(&mut self, files: &Vec<String>)
        ensures
            final(self)@ == after_files(old(self)@, views(files@), files@.len() as int),
    {
        let ghost start = self@;
        let ghost v = views(files@);
        let mut i: usize = 0;
        while i < files.len()
            invariant
                i <= files@.len(),
                v == views(files@),
                self@ == after_files(start, v, i as int),
            decreases files@.len() - i,
        {
            assert(v[i as int] == files@[i as int]@);
            self.delete(&files[i]);
            i += 1;
        }
    }

    fn delete_unused(&mut self, u: &SophonUnusedAssetProperty)
        ensures
            final(self)@ == after_groups(old(self)@, u@.groups, u@.groups.len() as int),
    {
        let ghost start = self@;
        let groups = &u.asset_infos;
        let ghost v = group_views(groups@);
        let mut i: usize = 0;
        while i < groups.len()
            invariant
                i <= groups@.len(),
                v == group_views(groups@),
                self@ == after_groups(start, v, i as int),
            decreases groups@.len() - i,
        {
            assert(v[i as int] == views(groups@[i as int].file_names@));
            self.delete_all(&groups[i].file_names);
            i += 1;
        }
    }

    fn take_unused(&mut self, unused: &Vec<SophonUnusedAssetProperty>, tag: &str)
        ensures
            final(self)@ == after_unused(
                old(self)@,
                unused_views(unused@),
                tag@,
                unused@.len() as int,
            ),
    {
        let ghost start = self@;
        let ghost v = unused_views(unused@);
        let mut i: usize = 0;
        while i < unused.len()
            invariant
                i <= unused@.len(),
                v == unused_views(unused@),
                self@ == after_unused(start, v, tag@, i as int),
            decreases unused@.len() - i,
        {
            assert(v[i as int] == unused@[i as int]@);
            if equal_ignoring_case(unused[i].version_tag.as_str(), tag) {
                self.delete_unused(&unused[i]);
            }
            i += 1;
        }
    }

    fn take_main(&mut self, assets: &Vec<SophonManifestAssetProperty>, field: &str)
        ensures
            final(self)@ == after_main_assets(
                old(self)@,
                asset_views(assets@),
                field@,
                assets@.len() as int,
            ),
    {
        let ghost start = self@;
        let ghost v = asset_views(assets@);
        let mut i: usize = 0;
        while i < assets.len()
            invariant
                i <= assets@.len(),
                v == asset_views(assets@),
                self@ == after_main_assets(start, v, field@, i as int),
            decreases assets@.len() - i,
        {
            let a = &assets[i];
            assert(v[i as int] == a@);
            if a.is_directory() {
                self.see(a.asset_name.as_str());
            } else if !has_name(&self.seen, a.asset_name.as_str()) {
                self.add_whole(
                    a.asset_name.as_str(),
                    a.asset_size,
                    a.asset_hash_md5.as_str(),
                    field,
                );
                self.see(a.asset_name.as_str());
            }
            i += 1;
        }
    }
}

fn find_info<'a>(infos: &'a Vec<SophonPatchAssetInfo>, tag: &str) -> (r: Option<
    &'a SophonPatchAssetInfo,
>)
    ensures
        match r {
            Some(i) => info_from(info_views(infos@), tag@, 0) == Some(i@),
            None => info_from(info_views(infos@), tag@, 0) is None,
        },
{
    let ghost v = info_views(infos@);
    let mut i: usize = 0;
    while i < infos.len()
        invariant
            i <= infos@.len(),
            v == info_views(infos@),
            info_from(v, tag@, 0) == info_from(v, tag@, i as int),
        decreases infos@.len() - i,
    {
        assert(v[i as int] == infos@[i as int]@);
        if equal_ignoring_case(infos[i].version_tag.as_str(), tag) {
            return Some(&infos[i]);
        }
        i += 1;
    }
    None
}

fn main_has_field(mains: &Vec<MainManifest>, field: &str) -> (r: bool)
    ensures
        r == has_main_field(main_views(mains@), field@),
{
    let ghost v = main_views(mains@);
    let mut i: usize = 0;
    while i < mains.len()
        invariant
            i <= mains@.len(),
            v == main_views(mains@),
            forall|j: int| 0 <= j < i ==> (#[trigger] v[j]).field != field@,
        decreases mains@.len() - i,
    {
        assert(v[i as int] == mains@[i as int]@);
        if *mains[i].matching_field.as_str() == *field {
            assert(v[i as int].field == field@);
            return true;
        }
        i += 1;
    }
    false
}

/// What a preinstallation downloads, patches and deletes.
pub struct PreinstallPlan {
    pub patch_assets: Vec<PatchAssetInfo>,
    pub deleted_files: Vec<String>,
    pub unique_chunks: Vec<PatchChunkInfo>,
    pub diff_downloads: DiffDownloads,
    pub main_chunk_download: DownloadInfo,
    pub tag: String,
    pub main_manifest_ids: Vec<(String, String)>,
}

/// The part of the game and the manifest's identifier, for each manifest.
pub open spec fn id_pairs(v: Seq<(String, String)>) -> Seq<(Seq<char>, Seq<char>)> {
    v.map_values(|p: (String, String)| (p.0@, p.1@))
}

/// The part of the game and the manifest's identifier, for each manifest.
pub open spec fn manifest_ids(mains: Seq<MainView>) -> Seq<(Seq<char>, Seq<char>)> {
    mains.map_values(|m: MainView| (m.field, m.id))
}

/// The first of the manifests, from `i` on, that is for the game itself.
pub open spec fn game_from(mains: Seq<MainView>, i: int) -> Option<MainView>
    decreases mains.len() - i,
{
    if i >= mains.len() {
        None
    } else if mains[i].field == "game"@ {
        Some(mains[i])
    } else {
        game_from(mains, i + 1)
    }
}

/// Where the chunks of the next version are served: as for the game itself, or
/// else as for the first part that there is.
pub open spec fn main_source(mains: Seq<MainView>) -> DownloadView {
    match game_from(mains, 0) {
        Some(m) => m.source,
        None => mains[0].source,
    }
}

fn find_main_source(mains: &Vec<MainManifest>) -> (r: DownloadInfo)
    requires
        mains@.len() > 0,
    ensures
        r@ == main_source(main_views(mains@)),
{
    let ghost v = main_views(mains@);
    let mut i: usize = 0;
    while i < mains.len()
        invariant
            i <= mains@.len(),
            v == main_views(mains@),
            game_from(v, 0) == game_from(v, i as int),
        decreases mains@.len() - i,
    {
        assert(v[i as int] == mains@[i as int]@);
        if *mains[i].matching_field.as_str() == *"game" {
            return mains[i].chunk_download.clone();
        }
        i += 1;
    }
    assert(v[0] == mains@[0]@);
    mains[0].chunk_download.clone()
}

fn list_manifest_ids(mains: &Vec<MainManifest>) -> (r: Vec<(String, String)>)
    ensures
        id_pairs(r@) == manifest_ids(main_views(mains@)),
{
    let ghost v = manifest_ids(main_views(mains@));
    let mut out: Vec<(String, String)> = Vec::new();
    let mut i: usize = 0;
    while i < mains.len()
        invariant
            i <= mains@.len(),
            v == manifest_ids(main_views(mains@)),
            id_pairs(out@) =~= v.take(i as int),
        decreases mains@.len() - i,
    {
        let ghost before = id_pairs(out@);
        let m = &mains[i];
        out.push((m.matching_field.clone(), m.manifest_id.clone()));
        assert(id_pairs(out@) =~= before.push(v[i as int]));
        i += 1;
    }
    assert(id_pairs(out@) =~= v);
    out
}

/// Plans a preinstallation of the version `tag` over the version
/// `installed_tag`, from the patch manifests that belong to the installation and
/// the manifests of the next version, which come in the order in which they are
/// walked.
pub fn build_preinstall_plan(
    tag: &str,
    installed_tag: &str,
    patches: &Vec<PatchResult>,
    mains: &Vec<MainManifest>,
) -> (r: SophonResult<PreinstallPlan>)
    ensures
        if patches@.len() == 0 || mains@.len() == 0 {
            r matches Err(e) && e@ == ErrorView::NoGameManifest
        } else {
            r matches Ok(plan) && {
                let p = result_views(patches@);
                let m = main_views(mains@);
                let w = whole_plan(p, installed_tag@, m);
                &&& target_views(plan.patch_assets@) == w.assets
                &&& views(plan.deleted_files@) == w.deleted
                &&& patch_file_views(plan.unique_chunks@) == w.chunks
                &&& plan.diff_downloads.wf()
                &&& plan.diff_downloads@ == sources_below(p, p.len() as int)
                &&& plan.main_chunk_download@ == main_source(m)
                &&& plan.tag@ == tag@
                &&& id_pairs(plan.main_manifest_ids@) == manifest_ids(m)
            }
        },
{
    if patches.len() == 0 || mains.len() == 0 {
        return Err(SophonError::NoGameManifest);
    }
    let ghost p = result_views(patches@);
    let ghost m = main_views(mains@);
    let mut b = PlanBuilder::new();
    let mut downloads = DiffDownloads::new();
    let mut i: usize = 0;
    while i < patches.len()
        invariant
            i <= patches@.len(),
            p == result_views(patches@),
            m == main_views(mains@),
            b@ == after_patches(p, installed_tag@, m, i as int),
            downloads.wf(),
            downloads@ == sources_below(p, i as int),
        decreases patches@.len() - i,
    {
        let one = &patches[i];
        assert(p[i as int] == one@);
        downloads.insert(one.matching_field.as_str(), &one.diff_download);
        let has_main = main_has_field(mains, one.matching_field.as_str());
        b.take_assets(
            &one.patch_manifest.patch_assets,
            one.matching_field.as_str(),
            installed_tag,
            has_main,
        );
        b.take_unused(&one.patch_manifest.unused_assets, installed_tag);
        i += 1;
    }
    let ghost patched = b@;
    let mut k: usize = 0;
    while k < mains.len()
        invariant
            k <= mains@.len(),
            m == main_views(mains@),
            b@ == after_mains(patched, m, k as int),
        decreases mains@.len() - k,
    {
        assert(m[k as int] == mains@[k as int]@);
        b.take_main(&mains[k].manifest.assets, mains[k].matching_field.as_str());
        k += 1;
    }
    Ok(
        PreinstallPlan {
            patch_assets: b.assets,
            deleted_files: b.deleted,
            unique_chunks: b.chunks,
            diff_downloads: downloads,
            main_chunk_download: find_main_source(mains),
            tag: tag.to_owned(),
            main_manifest_ids: list_manifest_ids(mains),
        },
    )
}

/// The patch files of a plan in the making are named once each, and those names
/// are the ones that were met.
spec fn patch_files_ok(s: PlanView) -> bool {
    &&& forall|i: int, j: int|
        0 <= i < j < s.chunks.len() ==> (#[trigger] s.chunks[i]).patch_name != (
        #[trigger] s.chunks[j]).patch_name
    &&& forall|i: int|
        0 <= i < s.chunks.len() ==> s.chunk_names.contains((#[trigger] s.chunks[i]).patch_name)
    &&& forall|k: int|
        0 <= k < s.assets.len() && needs_patch(#[trigger] s.assets[k]) ==> s.chunk_names.contains(
            s.assets[k].patch_name,
        )
    &&& forall|name: Seq<char>|
        s.chunk_names.contains(name) ==> #[trigger] lists_patch(s.chunks, name)
}

/// One of the patch files has the name.
pub open spec fn lists_patch(chunks: Seq<PatchFileView>, name: Seq<char>) -> bool {
    exists|i: int| 0 <= i < chunks.len() && (#[trigger] chunks[i]).patch_name == name
}

/// A file is made from a patch file.
pub open spec fn needs_patch(t: TargetView) -> bool {
    t.patch_method == PatchMethod::CopyOver || t.patch_method == PatchMethod::Patch
}

proof fn lemma_asset_keeps(s: PlanView, a: PatchedView, field: Seq<char>, tag: Seq<char>, has_main: bool)
    requires
        patch_files_ok(s),
    ensures
        patch_files_ok(after_asset(s, a, field, tag, has_main)),
{
    let r = after_asset(s, a, field, tag, has_main);
    assert forall|k: int| 0 <= k < r.assets.len() && needs_patch(#[trigger] r.assets[k]) implies r.chunk_names.contains(
        r.assets[k].patch_name,
    ) by {
        if k < s.assets.len() {
            assert(r.assets[k] == s.assets[k]);
        }
    }
    assert forall|name: Seq<char>| r.chunk_names.contains(name) implies #[trigger] lists_patch(
        r.chunks,
        name,
    ) by {
        if s.chunk_names.contains(name) {
            assert(lists_patch(s.chunks, name));
            let i = choose|i: int| 0 <= i < s.chunks.len() && (#[trigger] s.chunks[i]).patch_name == name;
            assert(r.chunks[i].patch_name == name);
        } else {
            assert(r.chunks.last().patch_name == name);
            assert(r.chunks[r.chunks.len() - 1].patch_name == name);
        }
    }
}

proof fn lemma_assets_keep(
    s: PlanView,
    assets: Seq<PatchedView>,
    field: Seq<char>,
    tag: Seq<char>,
    has_main: bool,
    n: int,
)
    requires
        patch_files_ok(s),
    ensures
        patch_files_ok(after_assets(s, assets, field, tag, has_main, n)),
    decreases n,
{
    if n > 0 {
        lemma_assets_keep(s, assets, field, tag, has_main, n - 1);
        lemma_asset_keeps(
            after_assets(s, assets, field, tag, has_main, n - 1),
            assets[n - 1],
            field,
            tag,
            has_main,
        );
    }
}

proof fn lemma_files_keep(s: PlanView, files: Seq<Seq<char>>, n: int)
    requires
        patch_files_ok(s),
    ensures
        patch_files_ok(after_files(s, files, n)),
    decreases n,
{
    if n > 0 {
        lemma_files_keep(s, files, n - 1);
    }
}

proof fn lemma_groups_keep(s: PlanView, groups: Seq<Seq<Seq<char>>>, n: int)
    requires
        patch_files_ok(s),
    ensures
        patch_files_ok(after_groups(s, groups, n)),
    decreases n,
{
    if n > 0 {
        lemma_groups_keep(s, groups, n - 1);
        lemma_files_keep(after_groups(s, groups, n - 1), groups[n - 1], groups[n - 1].len() as int);
    }
}

proof fn lemma_unused_keep(s: PlanView, unused: Seq<UnusedView>, tag: Seq<char>, n: int)
    requires
        patch_files_ok(s),
    ensures
        patch_files_ok(after_unused(s, unused, tag, n)),
    decreases n,
{
    if n > 0 {
        lemma_unused_keep(s, unused, tag, n - 1);
        let u = unused[n - 1];
        lemma_groups_keep(after_unused(s, unused, tag, n - 1), u.groups, u.groups.len() as int);
    }
}

proof fn lemma_patches_keep(
    patches: Seq<PatchResultView>,
    tag: Seq<char>,
    mains: Seq<MainView>,
    n: int,
)
    ensures
        patch_files_ok(after_patches(patches, tag, mains, n)),
    decreases n,
{
    if n > 0 {
        lemma_patches_keep(patches, tag, mains, n - 1);
        let before = after_patches(patches, tag, mains, n - 1);
        let p = patches[n - 1];
        let m = p.manifest;
        let has_main = has_main_field(mains, p.field);
        lemma_assets_keep(before, m.assets, p.field, tag, has_main, m.assets.len() as int);
        lemma_unused_keep(
            after_assets(before, m.assets, p.field, tag, has_main, m.assets.len() as int),
            m.unused,
            tag,
            m.unused.len() as int,
        );
    }
}

proof fn lemma_main_assets_keep(s: PlanView, assets: Seq<AssetView>, field: Seq<char>, n: int)
    requires
        patch_files_ok(s),
    ensures
        patch_files_ok(after_main_assets(s, assets, field, n)),
    decreases n,
{
    if n > 0 {
        lemma_main_assets_keep(s, assets, field, n - 1);
        let b = after_main_assets(s, assets, field, n - 1);
        let r = after_main_assets(s, assets, field, n);
        assert forall|k: int| 0 <= k < r.assets.len() && needs_patch(#[trigger] r.assets[k]) implies r.chunk_names.contains(
            r.assets[k].patch_name,
        ) by {
            if k < b.assets.len() {
                assert(r.assets[k] == b.assets[k]);
            }
        }
    }
}

proof fn lemma_mains_keep(s: PlanView, mains: Seq<MainView>, n: int)
    requires
        patch_files_ok(s),
    ensures
        patch_files_ok(after_mains(s, mains, n)),
    decreases n,
{
    if n > 0 {
        lemma_mains_keep(s, mains, n - 1);
        let m = mains[n - 1];
        lemma_main_assets_keep(after_mains(s, mains, n - 1), m.assets, m.field, m.assets.len() as int);
    }
}

/// A plan downloads each patch file once, and every patch file that one of its
/// files is made from.
pub proof fn law_patch_files_are_downloaded_once(
    patches: Seq<PatchResultView>,
    tag: Seq<char>,
    mains: Seq<MainView>,
)
    ensures
        ({
            let w = whole_plan(patches, tag, mains);
            &&& forall|i: int, j: int|
                0 <= i < j < w.chunks.len() ==> (#[trigger] w.chunks[i]).patch_name != (
                #[trigger] w.chunks[j]).patch_name
            &&& forall|k: int|
                0 <= k < w.assets.len() && needs_patch(#[trigger] w.assets[k]) ==> lists_patch(
                    w.chunks,
                    w.assets[k].patch_name,
                )
        }),
{
    lemma_patches_keep(patches, tag, mains, patches.len() as int);
    lemma_mains_keep(
        after_patches(patches, tag, mains, patches.len() as int),
        mains,
        mains.len() as int,
    );
}

/// The plan downloads the file whole.
pub open spec fn downloads_whole(s: PlanView, name: Seq<char>) -> bool {
    exists|k: int|
        0 <= k < s.assets.len() && (#[trigger] s.assets[k]).target_file_path == name
            && s.assets[k].patch_method == PatchMethod::DownloadOver
}

/// None of the directories has the name.
pub open spec fn no_directory(assets: Seq<AssetView>, name: Seq<char>) -> bool {
    forall|i: int|
        0 <= i < assets.len() && (#[trigger] assets[i]).name == name ==> !assets[i].is_directory()
}

proof fn lemma_main_covers(s: PlanView, assets: Seq<AssetView>, field: Seq<char>, n: int, name: Seq<char>)
    requires
        0 <= n <= assets.len(),
        s.seen.contains(name) ==> downloads_whole(s, name),
        no_directory(assets, name),
    ensures
        ({
            let r = after_main_assets(s, assets, field, n);
            &&& r.seen.contains(name) ==> downloads_whole(r, name)
            &&& s.seen.contains(name) ==> r.seen.contains(name)
            &&& forall|i: int| 0 <= i < n && (#[trigger] assets[i]).name == name ==> r.seen.contains(name)
        }),
    decreases n,
{
    if n > 0 {
        lemma_main_covers(s, assets, field, n - 1, name);
        let b = after_main_assets(s, assets, field, n - 1);
        let r = after_main_assets(s, assets, field, n);
        let a = assets[n - 1];
        if b.seen.contains(name) {
            let k = choose|k: int|
                0 <= k < b.assets.len() && (#[trigger] b.assets[k]).target_file_path == name
                    && b.assets[k].patch_method == PatchMethod::DownloadOver;
            assert(r.assets[k].target_file_path == name);
        } else if a.name == name {
            assert(r.assets[r.assets.len() - 1].target_file_path == name);
        }
    }
}

/// No manifest has a directory of that name.
pub open spec fn names_no_directory(mains: Seq<MainView>, name: Seq<char>) -> bool {
    forall|i: int| 0 <= i < mains.len() ==> no_directory((#[trigger] mains[i]).assets, name)
}

proof fn lemma_mains_cover(s: PlanView, mains: Seq<MainView>, n: int, name: Seq<char>)
    requires
        0 <= n <= mains.len(),
        !s.seen.contains(name),
        names_no_directory(mains, name),
    ensures
        ({
            let r = after_mains(s, mains, n);
            &&& r.seen.contains(name) ==> downloads_whole(r, name)
            &&& forall|i: int, k: int|
                0 <= i < n && 0 <= k < mains[i].assets.len() && (#[trigger] mains[i].assets[k]).name
                    == name ==> r.seen.contains(name)
        }),
    decreases n,
{
    if n > 0 {
        lemma_mains_cover(s, mains, n - 1, name);
        let m = mains[n - 1];
        assert(no_directory(m.assets, name));
        lemma_main_covers(after_mains(s, mains, n - 1), m.assets, m.field, m.assets.len() as int, name);
        let r = after_mains(s, mains, n);
        assert forall|i: int, k: int|
            0 <= i < n && 0 <= k < mains[i].assets.len() && (#[trigger] mains[i].assets[k]).name
                == name implies r.seen.contains(name) by {
            if i == n - 1 {
                assert(m.assets[k].name == name);
            }
        }
    }
}

/// No file of the next version is left out of a plan: what the patch manifests
/// have not met is downloaded whole.
pub proof fn law_new_files_are_downloaded(
    patches: Seq<PatchResultView>,
    tag: Seq<char>,
    mains: Seq<MainView>,
    i: int,
    k: int,
)
    requires
        0 <= i < mains.len(),
        0 <= k < mains[i].assets.len(),
        !after_patches(patches, tag, mains, patches.len() as int).seen.contains(
            mains[i].assets[k].name,
        ),
        names_no_directory(mains, mains[i].assets[k].name),
    ensures
        downloads_whole(whole_plan(patches, tag, mains), mains[i].assets[k].name),
{
    let s = after_patches(patches, tag, mains, patches.len() as int);
    lemma_mains_cover(s, mains, mains.len() as int, mains[i].assets[k].name);
}

/// A file was met and is not deleted.
pub open spec fn stays(s: PlanView, name: Seq<char>) -> bool {
    s.seen.contains(name) && !s.deleted.contains(name)
}

proof fn lemma_assets_delete_nothing(
    s: PlanView,
    assets: Seq<PatchedView>,
    field: Seq<char>,
    tag: Seq<char>,
    has_main: bool,
    n: int,
)
    ensures
        ({
            let r = after_assets(s, assets, field, tag, has_main, n);
            &&& r.deleted == s.deleted
            &&& s.seen.subset_of(r.seen)
        }),
    decreases n,
{
    if n > 0 {
        lemma_assets_delete_nothing(s, assets, field, tag, has_main, n - 1);
    }
}

proof fn lemma_files_leave(s: PlanView, files: Seq<Seq<char>>, n: int, name: Seq<char>)
    ensures
        after_files(s, files, n).seen == s.seen,
        stays(s, name) ==> stays(after_files(s, files, n), name),
    decreases n,
{
    if n > 0 {
        lemma_files_leave(s, files, n - 1, name);
        let b = after_files(s, files, n - 1);
        let r = after_files(s, files, n);
        if stays(s, name) && r.deleted.contains(name) {
            let i = choose|i: int| 0 <= i < r.deleted.len() && r.deleted[i] == name;
            assert(i < b.deleted.len() ==> b.deleted[i] == name);
        }
    }
}

proof fn lemma_groups_leave(s: PlanView, groups: Seq<Seq<Seq<char>>>, n: int, name: Seq<char>)
    ensures
        after_groups(s, groups, n).seen == s.seen,
        stays(s, name) ==> stays(after_groups(s, groups, n), name),
    decreases n,
{
    if n > 0 {
        lemma_groups_leave(s, groups, n - 1, name);
        let files = groups[n - 1];
        lemma_files_leave(after_groups(s, groups, n - 1), files, files.len() as int, name);
    }
}

proof fn lemma_unused_leave(s: PlanView, unused: Seq<UnusedView>, tag: Seq<char>, n: int, name: Seq<char>)
    ensures
        after_unused(s, unused, tag, n).seen == s.seen,
        stays(s, name) ==> stays(after_unused(s, unused, tag, n), name),
    decreases n,
{
    if n > 0 {
        lemma_unused_leave(s, unused, tag, n - 1, name);
        let groups = unused[n - 1].groups;
        lemma_groups_leave(after_unused(s, unused, tag, n - 1), groups, groups.len() as int, name);
    }
}

proof fn lemma_patch_leaves(s: PlanView, p: PatchResultView, tag: Seq<char>, mains: Seq<MainView>, name: Seq<char>)
    ensures
        after_patch(s, p, tag, mains).seen.contains(name) && !s.deleted.contains(name) ==> stays(
            after_patch(s, p, tag, mains),
            name,
        ),
        stays(s, name) ==> stays(after_patch(s, p, tag, mains), name),
{
    let m = p.manifest;
    let n = m.assets.len() as int;
    let has_main = has_main_field(mains, p.field);
    lemma_assets_delete_nothing(s, m.assets, p.field, tag, has_main, n);
    lemma_unused_leave(
        after_assets(s, m.assets, p.field, tag, has_main, n),
        m.unused,
        tag,
        m.unused.len() as int,
        name,
    );
}

proof fn lemma_patches_leave(
    patches: Seq<PatchResultView>,
    tag: Seq<char>,
    mains: Seq<MainView>,
    j: int,
    n: int,
    name: Seq<char>,
)
    requires
        0 <= j < n,
        after_patches(patches, tag, mains, j + 1).seen.contains(name),
        !after_patches(patches, tag, mains, j).deleted.contains(name),
    ensures
        stays(after_patches(patches, tag, mains, n), name),
    decreases n,
{
    if j + 1 < n {
        lemma_patches_leave(patches, tag, mains, j, n - 1, name);
    }
    lemma_patch_leaves(after_patches(patches, tag, mains, n - 1), patches[n - 1], tag, mains, name);
}

proof fn lemma_main_assets_delete_nothing(s: PlanView, assets: Seq<AssetView>, field: Seq<char>, n: int)
    ensures
        after_main_assets(s, assets, field, n).deleted == s.deleted,
    decreases n,
{
    if n > 0 {
        lemma_main_assets_delete_nothing(s, assets, field, n - 1);
    }
}

proof fn lemma_mains_delete_nothing(s: PlanView, mains: Seq<MainView>, n: int)
    ensures
        after_mains(s, mains, n).deleted == s.deleted,
    decreases n,
{
    if n > 0 {
        lemma_mains_delete_nothing(s, mains, n - 1);
        let m = mains[n - 1];
        lemma_main_assets_delete_nothing(
            after_mains(s, mains, n - 1),
            m.assets,
            m.field,
            m.assets.len() as int,
        );
    }
}

/// A file that a patch manifest meets is not deleted, whatever that manifest and
/// the later ones list as unused, unless an earlier one has deleted it already.
pub proof fn law_patched_files_are_not_deleted(
    patches: Seq<PatchResultView>,
    tag: Seq<char>,
    mains: Seq<MainView>,
    j: int,
    name: Seq<char>,
)
    requires
        0 <= j < patches.len(),
        after_patches(patches, tag, mains, j + 1).seen.contains(name),
        !after_patches(patches, tag, mains, j).deleted.contains(name),
    ensures
        !whole_plan(patches, tag, mains).deleted.contains(name),
{
    let n = patches.len() as int;
    lemma_patches_leave(patches, tag, mains, j, n, name);
    lemma_mains_delete_nothing(after_patches(patches, tag, mains, n), mains, mains.len() as int);
}

} // verus!
