//! Patch manifests: for each file of the next version, the patches that lead to
//! it from earlier ones.

use vstd::prelude::*;

verus! {

/// A piece of a patch file that makes one file of the next version.
#[derive(Debug)]
pub struct SophonPatchAssetChunk {
    pub patch_name: String,
    pub patch_md5: String,
    pub patch_size: i64,
    pub patch_offset: i64,
    pub patch_length: i64,
    pub original_file_name: String,
    pub original_file_md5: String,
    pub original_file_length: i64,
}

/// The patch from one version.
#[derive(Debug)]
pub struct SophonPatchAssetInfo {
    pub version_tag: String,
    pub chunk: Option<SophonPatchAssetChunk>,
}

/// A file of the next version.
#[derive(Debug)]
pub struct SophonPatchAssetProperty {
    pub asset_name: String,
    pub asset_size: i64,
    pub asset_hash_md5: String,
    pub asset_infos: Vec<SophonPatchAssetInfo>,
}

/// Some files that the next version no longer has.
#[derive(Debug)]
pub struct SophonUnusedAssetInfo {
    pub file_names: Vec<String>,
}

/// The files of one version that the next one no longer has.
#[derive(Debug)]
pub struct SophonUnusedAssetProperty {
    pub version_tag: String,
    pub asset_infos: Vec<SophonUnusedAssetInfo>,
}

/// A patch manifest.
#[derive(Debug)]
pub struct SophonPatchProto {
    pub patch_assets: Vec<SophonPatchAssetProperty>,
    pub unused_assets: Vec<SophonUnusedAssetProperty>,
}

/// What a piece of a patch file says.
pub ghost struct PieceView {
    pub patch_name: Seq<char>,
    pub patch_md5: Seq<char>,
    pub patch_size: i64,
    pub patch_offset: i64,
    pub patch_length: i64,
    pub original_file_name: Seq<char>,
    pub original_file_md5: Seq<char>,
    pub original_file_length: i64,
}

/// What the patch from one version says.
pub ghost struct PatchInfoView {
    pub version_tag: Seq<char>,
    pub chunk: Option<PieceView>,
}

/// What a file of the next version says.
pub ghost struct PatchedView {
    pub name: Seq<char>,
    pub size: i64,
    pub md5: Seq<char>,
    pub infos: Seq<PatchInfoView>,
}

/// What is said of the files that the next version no longer has.
pub ghost struct UnusedView {
    pub version_tag: Seq<char>,
    pub groups: Seq<Seq<Seq<char>>>,
}

/// What a patch manifest says.
pub ghost struct PatchProtoView {
    pub assets: Seq<PatchedView>,
    pub unused: Seq<UnusedView>,
}

impl View for SophonPatchAssetChunk {
    type V = PieceView;

    open spec fn view(&self) -> PieceView {
        PieceView {
            patch_name: self.patch_name@,
            patch_md5: self.patch_md5@,
            patch_size: self.patch_size,
            patch_offset: self.patch_offset,
            patch_length: self.patch_length,
            original_file_name: self.original_file_name@,
            original_file_md5: self.original_file_md5@,
            original_file_length: self.original_file_length,
        }
    }
}

impl View for SophonPatchAssetInfo {
    type V = PatchInfoView;

    open spec fn view(&self) -> PatchInfoView {
        PatchInfoView {
            version_tag: self.version_tag@,
            chunk: match self.chunk {
                Some(c) => Some(c@),
                None => None,
            },
        }
    }
}

/// What some patches say.
pub open spec fn info_views(v: Seq<SophonPatchAssetInfo>) -> Seq<PatchInfoView> {
    v.map_values(|i: SophonPatchAssetInfo| i@)
}

impl View for SophonPatchAssetProperty {
    type V = PatchedView;

    open spec fn view(&self) -> PatchedView {
        PatchedView {
            name: self.asset_name@,
            size: self.asset_size,
            md5: self.asset_hash_md5@,
            infos: info_views(self.asset_infos@),
        }
    }
}

/// The names in some groups of files.
pub open spec fn group_views(v: Seq<SophonUnusedAssetInfo>) -> Seq<Seq<Seq<char>>> {
    v.map_values(|g: SophonUnusedAssetInfo| crate::text::views(g.file_names@))
}

impl View for SophonUnusedAssetProperty {
    type V = UnusedView;

    open spec fn view(&self) -> UnusedView {
        UnusedView { version_tag: self.version_tag@, groups: group_views(self.asset_infos@) }
    }
}

/// What some files of the next version say.
pub open spec fn patched_views(v: Seq<SophonPatchAssetProperty>) -> Seq<PatchedView> {
    v.map_values(|a: SophonPatchAssetProperty| a@)
}

/// What is said of some files that the next version no longer has.
pub open spec fn unused_views(v: Seq<SophonUnusedAssetProperty>) -> Seq<UnusedView> {
    v.map_values(|u: SophonUnusedAssetProperty| u@)
}

impl View for SophonPatchProto {
    type V = PatchProtoView;

    open spec fn view(&self) -> PatchProtoView {
        PatchProtoView {
            assets: patched_views(self.patch_assets@),
            unused: unused_views(self.unused_assets@),
        }
    }
}

/// The sizes and offsets of a piece are not negative.
pub open spec fn piece_ok(c: PieceView) -> bool {
    c.patch_size >= 0 && c.patch_offset >= 0 && c.patch_length >= 0 && c.original_file_length >= 0
}

/// Whether the sizes and offsets of a piece are not negative.
pub fn validate_patch_chunk_fields(chunk: &SophonPatchAssetChunk) -> (r: bool)
    ensures
        r == piece_ok(chunk@),
{
    chunk.patch_size >= 0 && chunk.patch_offset >= 0 && chunk.patch_length >= 0
        && chunk.original_file_length >= 0
}

/// Whether the size of a file is not negative.
pub fn validate_patch_asset_fields(asset: &SophonPatchAssetProperty) -> (r: bool)
    ensures
        r == (asset@.size >= 0),
{
    asset.asset_size >= 0
}

/// A piece with a number below zero is refused, whichever number that is, and
/// every other piece is accepted with its numbers as they are.
pub proof fn law_pieces_keep_their_numbers(c: PieceView)
    ensures
        piece_ok(c) <==> {
            &&& c.patch_size as u64 == c.patch_size
            &&& c.patch_offset as u64 == c.patch_offset
            &&& c.patch_length as u64 == c.patch_length
            &&& c.original_file_length as u64 == c.original_file_length
        },
{
}

} // verus!
