//! Applying a preinstallation: how each file of the next version comes about
//! from what was downloaded and what is installed.

use vstd::prelude::*;
use crate::collections::NameMap;
use crate::collections::new_name_map;
use crate::collections::number_at;
use crate::collections::numbered_names;
use crate::collections::numbers;
use crate::collections::put_number;
use crate::files::ContentView;
use crate::files::FileContent;
use crate::hdiffpatch::diff::HDiff;
use crate::hdiffpatch::diff::patch_result;
use crate::hdiffpatch::diff::PatchInput;
use crate::proto_parse::asset_views;
use crate::proto_parse::AssetView;
use crate::proto_parse::SophonManifestAssetProperty;
use crate::proto_parse::SophonManifestProto;
use crate::strings::ends_with;
use crate::strings::has_suffix;
use crate::strings::lowercase;
use crate::strings::lowercase_of;
use crate::strings::replace_any;
use crate::strings::replaced_any;
use crate::strings::starts_with;
use crate::text::behind_last;
use crate::text::decimal;
use crate::text::push_decimal;
use crate::text::split_on;
use crate::text::text_of;
use crate::text::views;
use super::api::DownloadInfo;
use super::api::DownloadView;
use super::asset_filter::filtered;
use super::asset_filter::FilterCache;
use super::asset_filter::FilterView;
use super::asset_filter::is_filtered_asset;
use super::asset_filter::is_hk4e_pkg_version;
use super::asset_filter::lists_packages;
use super::error::ErrorView;
use super::error::SophonError;
use super::error::SophonResult;
use super::file_hash::content_of;
use super::file_hash::has_hash;
use super::file_hash::is_file_already_patched;
use super::file_hash::is_patched;
use super::file_hash::verify_file_hash;
use super::flow::REPORT_INTERVAL_NANOS;
use super::installer::files_below;
use super::installer::files_of;
use super::installer::take_files;
use super::names::asset_name_fault;
use super::names::patch_name_fault;
use super::names::validate_asset_name;
use super::names::validate_patch_name;
use super::preinstall_plan::PatchAssetInfo;
use super::preinstall_plan::PatchMethod;
use super::preinstall_plan::TargetView;

verus! {

/// How many bytes tell that a piece of a patch file is a binary patch.
pub const HDIFF_MAGIC_LEN: u64 = 5;

/// The MD5 of a file without content.
pub const BLANK_FILE_MD5: &'static str = "d41d8cd98f00b204e9800998ecf8427e";

/// Where the patch files are kept in the game directory.
pub const PATCHING_CHUNK_DIR: &'static str = "patching/chunk";

/// A preinstallation is for another version than the one that is installed.
pub open spec fn version_changed(expected: Seq<char>, actual: Seq<char>) -> Option<ErrorView> {
    if expected == actual {
        None
    } else {
        Some(
            ErrorView::PreinstallStateInvalid(
                "Installed version changed since preinstall (expected "@ + expected + ", got "@
                    + actual + ")"@,
            ),
        )
    }
}

/// Refuses a preinstallation that was made over another version.
pub fn check_installed_version(expected: &str, actual: &str) -> (r: SophonResult<()>)
    ensures
        match version_changed(expected@, actual@) {
            None => r is Ok,
            Some(e) => r matches Err(f) && f@ == e,
        },
{
    if *expected == *actual {
        return Ok(());
    }
    let mut text: String = "Installed version changed since preinstall (expected ".to_owned();
    text.append(expected);
    text.append(", got ");
    text.append(actual);
    text.append(")");
    Err(SophonError::PreinstallStateInvalid(text))
}

/// A file of hk4e, whose path in lower case is `lower`, is made anew on the spot.
pub open spec fn streams_table(lower: Seq<char>) -> bool {
    ends_with(lower, "ctable_streaming.dat"@)
}

/// Whether a file of hk4e, whose path in lower case is `lower`, is made anew on
/// the spot.
pub fn is_streaming_table(lower: &str) -> (r: bool)
    ensures
        r == streams_table(lower@),
{
    has_suffix(lower, "ctable_streaming.dat")
}

/// A file is passed over: it belongs to what a player has removed, or hk4e makes
/// it anew.
pub open spec fn passed_over(t: TargetView, hk4e: bool) -> bool {
    ||| t.patch_method == PatchMethod::Skip
    ||| hk4e && lists_packages(t.target_file_path)
    ||| hk4e && streams_table(lowercase_of(t.target_file_path))
}

/// Whether a file is looked at, or why the whole preinstallation ends.
pub fn first_apply_step(asset: &PatchAssetInfo, hk4e: bool) -> (r: SophonResult<bool>)
    ensures
        if passed_over(asset@, hk4e) {
            r matches Ok(false)
        } else {
            match asset_name_fault(asset@.target_file_path) {
                None => r matches Ok(true),
                Some(e) => r matches Err(f) && f@ == e,
            }
        },
{
    if asset.patch_method == PatchMethod::Skip {
        return Ok(false);
    }
    if hk4e {
        if is_hk4e_pkg_version(asset.target_file_path.as_str()) {
            return Ok(false);
        }
        let lower = lowercase(asset.target_file_path.as_str());
        if is_streaming_table(lower.as_str()) {
            return Ok(false);
        }
    }
    match validate_asset_name(asset.target_file_path.as_str()) {
        Ok(()) => Ok(true),
        Err(e) => Err(e),
    }
}

/// What is done for a file.
#[derive(Debug, Clone, Copy, PartialEq, Eq, Structural)]
pub enum ApplyAction {
    /// The file is there already.
    AlreadyDone,
    CopyOver,
    Patch,
    DownloadOver,
    Nothing,
}

/// What is done for a file, by what stands in its place: the size of that, where
/// there is such a file, and its content, where it could be read.
pub open spec fn action_for(t: TargetView, size: Option<u64>, content: Option<Seq<u8>>) -> ApplyAction {
    if is_patched(size, content, t.target_file_size, t.target_file_hash) {
        ApplyAction::AlreadyDone
    } else {
        match t.patch_method {
            PatchMethod::CopyOver => ApplyAction::CopyOver,
            PatchMethod::Patch => ApplyAction::Patch,
            PatchMethod::DownloadOver => ApplyAction::DownloadOver,
            PatchMethod::Remove => ApplyAction::Nothing,
            PatchMethod::Skip => ApplyAction::Nothing,
        }
    }
}

/// What is done for a file, by what stands in its place.
pub fn apply_action(asset: &PatchAssetInfo, size: Option<u64>, content: Option<&Vec<u8>>) -> (r:
    ApplyAction)
    ensures
        r == action_for(asset@, size, content_of(content)),
{
    if is_file_already_patched(
        size,
        content,
        asset.target_file_size,
        asset.target_file_hash.as_str(),
    ) {
        return ApplyAction::AlreadyDone;
    }
    match asset.patch_method {
        PatchMethod::CopyOver => ApplyAction::CopyOver,
        PatchMethod::Patch => ApplyAction::Patch,
        PatchMethod::DownloadOver => ApplyAction::DownloadOver,
        PatchMethod::Remove => ApplyAction::Nothing,
        PatchMethod::Skip => ApplyAction::Nothing,
    }
}

/// How many files are dealt with, and when that was last reported.
#[derive(Debug, Clone, Copy)]
pub struct ApplyAccount {
    pub applied_files: u64,
    pub last_report: u64,
}

impl ApplyAccount {
    /// Counts a file that is passed over or was there already.
    pub fn pass(&mut self)
        requires
            old(self).applied_files < u64::MAX,
        ensures
            final(self).applied_files == old(self).applied_files + 1,
            final(self).last_report == old(self).last_report,
    {
        self.applied_files = self.applied_files + 1;
    }

    /// Counts a file that was made, and says how many to report, if a second has
    /// gone by since the last report.
    pub fn settle(&mut self, now: u64) -> (r: Option<u64>)
        requires
            old(self).applied_files < u64::MAX,
        ensures
            final(self).applied_files == old(self).applied_files + 1,
            if now - old(self).last_report >= REPORT_INTERVAL_NANOS {
                r == Some(final(self).applied_files) && final(self).last_report == now
            } else {
                r is None && final(self).last_report == old(self).last_report
            },
    {
        self.applied_files = self.applied_files + 1;
        if now.saturating_sub(self.last_report) >= REPORT_INTERVAL_NANOS {
            self.last_report = now;
            Some(self.applied_files)
        } else {
            None
        }
    }
}

/// The bytes of a patch file from `offset` on.
pub open spec fn tail(data: Seq<u8>, offset: u64) -> Seq<u8> {
    if offset <= data.len() {
        data.skip(offset as int)
    } else {
        Seq::empty()
    }
}

/// The bytes of a patch file from `offset` on, at most `len` of them.
pub open spec fn piece(data: Seq<u8>, offset: u64, len: u64) -> Seq<u8> {
    let t = tail(data, offset);
    if len <= t.len() {
        t.take(len as int)
    } else {
        t
    }
}

fn copy_piece(data: &Vec<u8>, offset: u64, len: u64) -> (r: Vec<u8>)
    ensures
        r@ == piece(data@, offset, len),
{
    let n: usize = data.len();
    let mut out: Vec<u8> = Vec::new();
    if offset > n as u64 {
        assert(out@ =~= piece(data@, offset, len));
        return out;
    }
    let start: usize = offset as usize;
    let mut i: usize = start;
    let ghost t = tail(data@, offset);
    while i < n && ((i - start) as u64) < len
        invariant
            start <= i <= n,
            n == data@.len(),
            start == offset,
            t == data@.skip(offset as int),
            i - start <= len,
            out@ =~= t.take(i - start),
        decreases n - i,
    {
        out.push(data[i]);
        i += 1;
    }
    assert(out@ =~= piece(data@, offset, len));
    out
}

fn copy_tail(data: &Vec<u8>, offset: u64) -> (r: Vec<u8>)
    ensures
        r@ == tail(data@, offset),
{
    let n: usize = data.len();
    let out = copy_piece(data, offset, n as u64);
    assert(out@ =~= tail(data@, offset));
    out
}

/// The data starts a binary patch.
pub open spec fn starts_patch(data: Seq<u8>) -> bool {
    &&& data.len() >= 5
    &&& data[0] == 0x48
    &&& data[1] == 0x44
    &&& data[2] == 0x49
    &&& data[3] == 0x46
    &&& data[4] == 0x46
}

/// Whether the data starts a binary patch: with the letters HDIFF.
pub fn has_hdiff_magic(data: &Vec<u8>) -> (r: bool)
    ensures
        r == starts_patch(data@),
{
    data.len() >= 5 && data[0] == 0x48 && data[1] == 0x44 && data[2] == 0x49 && data[3] == 0x46
        && data[4] == 0x46
}

/// A name that can stand for a hash or the name of a patch file.
pub open spec fn safe_name(s: Seq<char>) -> Seq<char> {
    replaced_any(s, "/\\\0"@, '_')
}

/// A name that can stand for a path.
pub open spec fn safe_path(s: Seq<char>) -> Seq<char> {
    replaced_any(s, "/\\\0:"@, '_')
}

/// The file that stands for an original without content.
pub open spec fn blank_original(t: TargetView) -> Seq<char> {
    "patching/"@ + safe_name(t.patch_name) + ".diff_ref"@
}

/// The file that a patch writes to.
pub open spec fn patch_output(t: TargetView) -> Seq<char> {
    "patching/"@ + safe_path(t.target_file_path) + "_"@ + safe_name(t.target_file_hash)
        + ".tmp.out"@
}

/// The file that a copy writes to.
pub open spec fn copy_output(t: TargetView) -> Seq<char> {
    "patching/copyover_"@ + safe_path(t.target_file_path) + "_"@ + safe_name(t.target_file_hash)
        + ".tmp"@
}

/// The file that stands for an original without content.
pub fn blank_original_name(asset: &PatchAssetInfo) -> (r: String)
    ensures
        r@ == blank_original(asset@),
{
    let mut out: String = "patching/".to_owned();
    out.append(replace_any(asset.patch_name.as_str(), "/\\\0", '_').as_str());
    out.append(".diff_ref");
    out
}

/// The file that a patch writes to.
pub fn patch_output_name(asset: &PatchAssetInfo) -> (r: String)
    ensures
        r@ == patch_output(asset@),
{
    let mut out: String = "patching/".to_owned();
    out.append(replace_any(asset.target_file_path.as_str(), "/\\\0:", '_').as_str());
    out.append("_");
    out.append(replace_any(asset.target_file_hash.as_str(), "/\\\0", '_').as_str());
    out.append(".tmp.out");
    out
}

/// The file that a copy writes to.
pub fn copy_output_name(asset: &PatchAssetInfo) -> (r: String)
    ensures
        r@ == copy_output(asset@),
{
    let mut out: String = "patching/copyover_".to_owned();
    out.append(replace_any(asset.target_file_path.as_str(), "/\\\0:", '_').as_str());
    out.append("_");
    out.append(replace_any(asset.target_file_hash.as_str(), "/\\\0", '_').as_str());
    out.append(".tmp");
    out
}

/// What is wrong with the content that a file is to get, if anything.
pub open spec fn output_fault(t: TargetView, data: Seq<u8>) -> Option<ErrorView> {
    if data.len() != t.target_file_size {
        Some(
            ErrorView::SizeMismatch {
                item: t.target_file_path,
                expected: t.target_file_size,
                actual: data.len() as u64,
            },
        )
    } else if !has_hash(Some(data), t.target_file_hash) {
        Some(
            ErrorView::Md5Mismatch {
                item: t.target_file_path,
                expected: t.target_file_hash,
                actual: "(computed)"@,
            },
        )
    } else {
        None
    }
}

fn check_output(asset: &PatchAssetInfo, data: &Vec<u8>) -> (r: SophonResult<()>)
    ensures
        match output_fault(asset@, data@) {
            None => r is Ok,
            Some(e) => r matches Err(f) && f@ == e,
        },
{
    let n: usize = data.len();
    if n as u64 != asset.target_file_size {
        return Err(
            SophonError::SizeMismatch {
                item: asset.target_file_path.clone(),
                expected: asset.target_file_size,
                actual: n as u64,
            },
        );
    }
    if !verify_file_hash(Some(data), asset.target_file_hash.as_str()) {
        return Err(
            SophonError::Md5Mismatch {
                item: asset.target_file_path.clone(),
                expected: asset.target_file_hash.clone(),
                actual: "(computed)".to_owned(),
            },
        );
    }
    Ok(())
}

/// The content that a binary patch gives a file, or why it does not.
pub open spec fn patch_outcome(
    t: TargetView,
    source_path: Seq<char>,
    source: ContentView,
    diff: ContentView,
    refusal: Seq<char>,
) -> Result<Seq<u8>, ErrorView> {
    match patch_result(source_path, patch_output(t), false, source, diff) {
        Err(_) => Err(ErrorView::HDiffPatchFailed { file: t.target_file_path, error: refusal }),
        Ok((data, _)) => match output_fault(t, data) {
            Some(e) => Err(e),
            None => Ok(data),
        },
    }
}

fn run_patch(
    asset: &PatchAssetInfo,
    source_path: String,
    source: FileContent,
    diff: FileContent,
    refusal: &str,
) -> (r: SophonResult<Vec<u8>>)
    ensures
        match patch_outcome(asset@, source_path@, source@, diff@, refusal@) {
            Ok(data) => r matches Ok(out) && out@ == data,
            Err(e) => r matches Err(f) && f@ == e,
        },
{
    let hdiff = HDiff::new(source_path, asset.patch_name.clone(), patch_output_name(asset));
    let input = PatchInput { same_file: false, source, diff };
    match hdiff.apply(&input) {
        None => Err(
            SophonError::HDiffPatchFailed {
                file: asset.target_file_path.clone(),
                error: refusal.to_owned(),
            },
        ),
        Some(out) => match check_output(asset, &out.data) {
            Ok(()) => Ok(out.data),
            Err(e) => Err(e),
        },
    }
}

/// What a patch from nothing gives a file: the patch stands in the patch file
/// from its offset on.
pub open spec fn from_nothing(t: TargetView, chunk: Seq<u8>) -> Result<Seq<u8>, ErrorView> {
    if !has_hash(Some(Seq::<u8>::empty()), BLANK_FILE_MD5@) {
        Err(blank_fault(t))
    } else {
        patch_outcome(
            t,
            blank_original(t),
            ContentView::Bytes(Seq::<u8>::empty()),
            ContentView::Bytes(tail(chunk, t.patch_offset)),
            "HDiff apply returned false (from files)"@,
        )
    }
}

/// What stands for an original without content is not what it has to be.
pub open spec fn blank_fault(t: TargetView) -> ErrorView {
    ErrorView::HDiffPatchFailed {
        file: t.target_file_path,
        error: "Blank diff_ref file hash mismatch for created empty file at \""@ + blank_original(t)
            + "\""@,
    }
}

fn blank_mismatch(asset: &PatchAssetInfo) -> (r: SophonError)
    ensures
        r@ == blank_fault(asset@),
{
    let mut text: String = "Blank diff_ref file hash mismatch for created empty file at \"".to_owned();
    text.append(blank_original_name(asset).as_str());
    text.append("\"");
    SophonError::HDiffPatchFailed { file: asset.target_file_path.clone(), error: text }
}

/// Applies a patch that makes a file from nothing.
pub fn apply_hdiff_patch_from_files(asset: &PatchAssetInfo, chunk: &Vec<u8>) -> (r: SophonResult<
    Vec<u8>,
>)
    ensures
        match asset_name_fault(asset@.target_file_path) {
            Some(e) => r matches Err(f) && f@ == e,
            None => match from_nothing(asset@, chunk@) {
                Ok(data) => r matches Ok(out) && out@ == data,
                Err(e) => r matches Err(f) && f@ == e,
            },
        },
{
    match validate_asset_name(asset.target_file_path.as_str()) {
        Ok(()) => {},
        Err(e) => return Err(e),
    }
    let empty: Vec<u8> = Vec::new();
    assert(empty@ =~= Seq::<u8>::empty());
    if !verify_file_hash(Some(&empty), BLANK_FILE_MD5) {
        return Err(blank_mismatch(asset));
    }
    run_patch(
        asset,
        blank_original_name(asset),
        FileContent::Bytes(empty),
        FileContent::Bytes(copy_tail(chunk, asset.patch_offset)),
        "HDiff apply returned false (from files)",
    )
}

/// Why a patch file cannot be copied from, if it cannot. Without a stated hash it
/// is only looked for before the name of the target is checked, and read after.
pub open spec fn copy_source_fault(t: TargetView, chunk: ContentView) -> Option<ErrorView> {
    match patch_name_fault(t.patch_name) {
        Some(e) => Some(e),
        None => if t.patch_hash.len() == 0 && chunk is Missing {
            Some(ErrorView::PatchChunkNotFound(t.patch_name))
        } else if !has_hash(chunk.bytes(), t.patch_hash) {
            Some(
                ErrorView::Md5Mismatch {
                    item: t.patch_name,
                    expected: t.patch_hash,
                    actual: "(computed)"@,
                },
            )
        } else {
            match asset_name_fault(t.target_file_path) {
                Some(e) => Some(e),
                None => match chunk {
                    ContentView::Unreadable(why) => Some(ErrorView::Io(why)),
                    _ => None,
                },
            }
        },
    }
}

/// The content that a file gets from a piece of a patch file: that piece, or what
/// it makes of nothing where it is a binary patch.
pub open spec fn copied(t: TargetView, chunk: ContentView) -> Result<Seq<u8>, ErrorView> {
    match copy_source_fault(t, chunk) {
        Some(e) => Err(e),
        None => {
            let data = chunk->Bytes_0;
            let here = piece(data, t.patch_offset, t.patch_chunk_length);
            let head = tail(data, t.patch_offset);
            if t.patch_chunk_length >= HDIFF_MAGIC_LEN && head.len() < HDIFF_MAGIC_LEN {
                Err(ErrorView::Io("failed to fill whole buffer"@))
            } else if t.patch_chunk_length >= HDIFF_MAGIC_LEN && starts_patch(head) {
                from_nothing(t, data)
            } else if here.len() != t.patch_chunk_length {
                Err(
                    ErrorView::SizeMismatch {
                        item: t.target_file_path,
                        expected: t.patch_chunk_length,
                        actual: here.len() as u64,
                    },
                )
            } else {
                match output_fault(t, here) {
                    Some(e) => Err(e),
                    None => Ok(here),
                }
            }
        },
    }
}

fn check_copy_source<'a>(asset: &PatchAssetInfo, chunk: &'a FileContent) -> (r: SophonResult<
    &'a Vec<u8>,
>)
    ensures
        match copy_source_fault(asset@, chunk@) {
            None => r matches Ok(data) && chunk@ == ContentView::Bytes(data@),
            Some(e) => r matches Err(f) && f@ == e,
        },
{
    match validate_patch_name(asset.patch_name.as_str()) {
        Ok(()) => {},
        Err(e) => return Err(e),
    }
    if asset.patch_hash.as_str().is_empty() {
        if let FileContent::Missing = chunk {
            return Err(SophonError::PatchChunkNotFound(asset.patch_name.clone()));
        }
    } else if !verify_file_hash(chunk.bytes(), asset.patch_hash.as_str()) {
        return Err(
            SophonError::Md5Mismatch {
                item: asset.patch_name.clone(),
                expected: asset.patch_hash.clone(),
                actual: "(computed)".to_owned(),
            },
        );
    }
    match validate_asset_name(asset.target_file_path.as_str()) {
        Ok(()) => {},
        Err(e) => return Err(e),
    }
    match chunk {
        FileContent::Bytes(data) => Ok(data),
        FileContent::Unreadable(why) => Err(SophonError::Io(why.clone())),
        FileContent::Missing => Err(SophonError::PatchChunkNotFound(asset.patch_name.clone())),
    }
}

/// The content that a file gets from a piece of a patch file. `chunk` is the patch
/// file as it is found.
pub fn apply_copy_over(asset: &PatchAssetInfo, chunk: &FileContent) -> (r: SophonResult<Vec<u8>>)
    ensures
        match copied(asset@, chunk@) {
            Ok(data) => r matches Ok(out) && out@ == data,
            Err(e) => r matches Err(f) && f@ == e,
        },
{
    let data = match check_copy_source(asset, chunk) {
        Ok(data) => data,
        Err(e) => return Err(e),
    };
    if asset.patch_chunk_length >= HDIFF_MAGIC_LEN {
        let head = copy_piece(data, asset.patch_offset, HDIFF_MAGIC_LEN);
        let ghost t = tail(data@, asset.patch_offset);
        assert(head@.len() < HDIFF_MAGIC_LEN <==> t.len() < HDIFF_MAGIC_LEN);
        if (head.len() as u64) < HDIFF_MAGIC_LEN {
            return Err(SophonError::Io("failed to fill whole buffer".to_owned()));
        }
        assert(starts_patch(head@) == starts_patch(t));
        if has_hdiff_magic(&head) {
            return apply_hdiff_patch_from_files(asset, data);
        }
    }
    let here = copy_piece(data, asset.patch_offset, asset.patch_chunk_length);
    let n: usize = here.len();
    if n as u64 != asset.patch_chunk_length {
        return Err(
            SophonError::SizeMismatch {
                item: asset.target_file_path.clone(),
                expected: asset.patch_chunk_length,
                actual: n as u64,
            },
        );
    }
    match check_output(asset, &here) {
        Ok(()) => Ok(here),
        Err(e) => Err(e),
    }
}

/// An original file: its size, or why that could not be read, and what is found
/// when it is opened.
pub struct OriginalFile {
    pub size: Result<u64, String>,
    pub content: FileContent,
}

/// What is said of an original file.
pub ghost struct OriginalView {
    pub size: Result<u64, Seq<char>>,
    pub content: ContentView,
}

impl View for OriginalFile {
    type V = OriginalView;

    open spec fn view(&self) -> OriginalView {
        OriginalView {
            size: match self.size {
                Ok(n) => Ok(n),
                Err(e) => Err(e@),
            },
            content: self.content@,
        }
    }
}

/// What is said of an original file that may be missing.
pub open spec fn original_view(o: Option<OriginalFile>) -> Option<OriginalView> {
    match o {
        Some(f) => Some(f@),
        None => None,
    }
}

/// The file that a patch starts from.
pub open spec fn original_path(t: TargetView) -> Seq<char> {
    match t.original_file_path {
        Some(p) => p,
        None => t.target_file_path,
    }
}

/// The file that a patch starts from has no content.
pub open spec fn starts_blank(t: TargetView) -> bool {
    t.original_file_hash == Some(BLANK_FILE_MD5@) || t.original_file_size == Some(0u64)
}

/// What becomes of an original file that is not as it has to be.
pub ghost enum OriginalFault {
    Sound,
    Missing(Seq<char>),
    Blank(ErrorView),
}

/// What is wrong with the file that a patch starts from, which is shown as
/// `shown`.
pub open spec fn original_fault(t: TargetView, original: Option<OriginalView>, shown: Seq<char>) -> OriginalFault {
    match original {
        None => if !starts_blank(t) {
            OriginalFault::Missing(shown)
        } else if !has_hash(Some(Seq::<u8>::empty()), BLANK_FILE_MD5@) {
            OriginalFault::Blank(blank_fault(t))
        } else {
            OriginalFault::Sound
        },
        Some(o) => {
            let bad_size = match t.original_file_size {
                None => None,
                Some(want) => match o.size {
                    Err(why) => Some(shown + " (Metadata unreadable: "@ + why + ")"@),
                    Ok(have) => if have == want {
                        None
                    } else {
                        Some(
                            shown + " (Size mismatch: expected "@ + decimal(want as nat) + ", got "@
                                + decimal(have as nat) + ")"@,
                        )
                    },
                },
            };
            match bad_size {
                Some(text) => OriginalFault::Missing(text),
                None => if t.original_file_hash is Some && o.content !is Missing && !has_hash(
                    o.content.bytes(),
                    t.original_file_hash->0,
                ) {
                    OriginalFault::Missing(shown)
                } else {
                    OriginalFault::Sound
                },
            }
        },
    }
}

/// The part of a patch file in which a patch stands: all from `offset` on.
pub open spec fn patch_part(chunk: ContentView, offset: u64) -> ContentView {
    match chunk {
        ContentView::Bytes(data) => ContentView::Bytes(tail(data, offset)),
        _ => chunk,
    }
}

/// What a patch makes of a file: nothing, where the file belongs to what a player
/// has removed and its original is not as it has to be. A patch fails where the
/// original or the patch file is there and cannot be read.
pub open spec fn patched_over(
    cache: FilterView,
    t: TargetView,
    original: Option<OriginalView>,
    shown: Seq<char>,
    chunk: ContentView,
) -> Result<Option<Seq<u8>>, ErrorView> {
    match asset_name_fault(original_path(t)) {
        Some(e) => Err(e),
        None => match original_fault(t, original, shown) {
            OriginalFault::Blank(e) => Err(e),
            OriginalFault::Missing(text) => if filtered(cache, t) {
                Ok(None)
            } else {
                Err(ErrorView::OriginalFileMissing(text))
            },
            OriginalFault::Sound => match patch_name_fault(t.patch_name) {
                Some(e) => Err(e),
                None => if chunk is Missing {
                    Err(ErrorView::PatchChunkNotFound(t.patch_name))
                } else {
                    match asset_name_fault(t.target_file_path) {
                        Some(e) => Err(e),
                        None => {
                            let out = match original {
                                None => patch_outcome(
                                    t,
                                    blank_original(t),
                                    ContentView::Bytes(Seq::<u8>::empty()),
                                    patch_part(chunk, t.patch_offset),
                                    "HDiff apply returned false"@,
                                ),
                                Some(o) => patch_outcome(
                                    t,
                                    original_path(t),
                                    o.content,
                                    patch_part(chunk, t.patch_offset),
                                    "HDiff apply returned false"@,
                                ),
                            };
                            match out {
                                Ok(made) => Ok(Some(made)),
                                Err(e) => Err(e),
                            }
                        },
                    }
                },
            },
        },
    }
}

/// How the check of an original file ends.
enum Checked {
    Sound,
    Missing(String),
    Blank(SophonError),
}

fn same_text(a: &Option<String>, b: &str) -> (r: bool)
    ensures
        r == (text_of(*a) == Some(b@)),
{
    match a {
        Some(s) => *s.as_str() == *b,
        None => false,
    }
}

fn check_original(asset: &PatchAssetInfo, original: &Option<OriginalFile>, shown: &str) -> (r:
    Checked)
    ensures
        match original_fault(asset@, original_view(*original), shown@) {
            OriginalFault::Sound => r is Sound,
            OriginalFault::Missing(text) => r matches Checked::Missing(s) && s@ == text,
            OriginalFault::Blank(e) => r matches Checked::Blank(f) && f@ == e,
        },
{
    match original {
        None => {
            let blank = same_text(&asset.original_file_hash, BLANK_FILE_MD5)
                || asset.original_file_size == Some(0u64);
            if !blank {
                return Checked::Missing(shown.to_owned());
            }
            let empty: Vec<u8> = Vec::new();
            assert(empty@ =~= Seq::<u8>::empty());
            if !verify_file_hash(Some(&empty), BLANK_FILE_MD5) {
                return Checked::Blank(blank_mismatch(asset));
            }
            Checked::Sound
        },
        Some(o) => {
            match asset.original_file_size {
                None => {},
                Some(want) => match &o.size {
                    Err(why) => {
                        let mut text: String = shown.to_owned();
                        text.append(" (Metadata unreadable: ");
                        text.append(why.as_str());
                        text.append(")");
                        return Checked::Missing(text);
                    },
                    Ok(have) => {
                        let have: u64 = *have;
                        if have != want {
                            let mut text: String = shown.to_owned();
                            text.append(" (Size mismatch: expected ");
                            push_decimal(&mut text, want);
                            text.append(", got ");
                            push_decimal(&mut text, have);
                            text.append(")");
                            return Checked::Missing(text);
                        }
                    },
                },
            }
            match &asset.original_file_hash {
                None => {},
                Some(hash) => {
                    let there = match &o.content {
                        FileContent::Missing => false,
                        _ => true,
                    };
                    if there && !verify_file_hash(o.content.bytes(), hash.as_str()) {
                        return Checked::Missing(shown.to_owned());
                    }
                },
            }
            Checked::Sound
        },
    }
}

fn copy_patch_part(chunk: &FileContent, offset: u64) -> (r: FileContent)
    ensures
        r@ == patch_part(chunk@, offset),
{
    match chunk {
        FileContent::Bytes(data) => FileContent::Bytes(copy_tail(data, offset)),
        FileContent::Unreadable(why) => FileContent::Unreadable(why.clone()),
        FileContent::Missing => FileContent::Missing,
    }
}

/// What a patch makes of a file. `original` is the file that it starts from,
/// which is shown as `shown`, and `chunk` the patch file as it is found; nothing
/// comes out for a file that may stay as it is.
pub fn apply_hdiff_patch(
    cache: &FilterCache,
    asset: &PatchAssetInfo,
    original: Option<OriginalFile>,
    shown: &str,
    chunk: &FileContent,
) -> (r: SophonResult<Option<Vec<u8>>>)
    ensures
        match patched_over(cache@, asset@, original_view(original), shown@, chunk@) {
            Ok(Some(data)) => r matches Ok(Some(out)) && out@ == data,
            Ok(None) => r matches Ok(None),
            Err(e) => r matches Err(f) && f@ == e,
        },
{
    let path: String = match &asset.original_file_path {
        Some(p) => p.clone(),
        None => asset.target_file_path.clone(),
    };
    match validate_asset_name(path.as_str()) {
        Ok(()) => {},
        Err(e) => return Err(e),
    }
    match check_original(asset, &original, shown) {
        Checked::Sound => {},
        Checked::Blank(e) => return Err(e),
        Checked::Missing(text) => {
            if is_filtered_asset(cache, asset) {
                return Ok(None);
            }
            return Err(SophonError::OriginalFileMissing(text));
        },
    }
    match validate_patch_name(asset.patch_name.as_str()) {
        Ok(()) => {},
        Err(e) => return Err(e),
    }
    if let FileContent::Missing = chunk {
        return Err(SophonError::PatchChunkNotFound(asset.patch_name.clone()));
    }
    match validate_asset_name(asset.target_file_path.as_str()) {
        Ok(()) => {},
        Err(e) => return Err(e),
    }
    let diff = copy_patch_part(chunk, asset.patch_offset);
    let made = match original {
        None => {
            let empty: Vec<u8> = Vec::new();
            assert(empty@ =~= Seq::<u8>::empty());
            run_patch(
                asset,
                blank_original_name(asset),
                FileContent::Bytes(empty),
                diff,
                "HDiff apply returned false",
            )
        },
        Some(o) => run_patch(asset, path, o.content, diff, "HDiff apply returned false"),
    };
    match made {
        Ok(out) => Ok(Some(out)),
        Err(e) => Err(e),
    }
}

/// The manifests by which whole files are downloaded, for each part of the game,
/// and where the chunks of each are served.
pub struct DownloadOverContext {
    places: NameMap,
    sources: Vec<DownloadInfo>,
    manifests: Vec<SophonManifestProto>,
}

impl View for DownloadOverContext {
    type V = Map<Seq<char>, (DownloadView, Seq<AssetView>)>;

    closed spec fn view(&self) -> Map<Seq<char>, (DownloadView, Seq<AssetView>)> {
        Map::new(
            |k: Seq<char>| numbers(self.places).dom().contains(k),
            |k: Seq<char>|
                {
                    let i = numbers(self.places)[k] as int;
                    (self.sources@[i]@, self.manifests@[i]@)
                },
        )
    }
}

impl DownloadOverContext {
    /// Every part has a place of its own, with a source and a manifest.
    pub closed spec fn wf(&self) -> bool {
        let m = numbers(self.places);
        &&& self.sources@.len() == self.manifests@.len()
        &&& forall|k: Seq<char>| #[trigger] m.dom().contains(k) ==> m[k] < self.sources@.len()
        &&& forall|k: Seq<char>, l: Seq<char>|
            #![trigger m.dom().contains(k), m.dom().contains(l)]
            m.dom().contains(k) && m.dom().contains(l) && m[k] == m[l] ==> k == l
    }

    /// No part has a manifest yet.
    pub fn new() -> (r: Self)
        ensures
            r.wf(),
            r@ == Map::<Seq<char>, (DownloadView, Seq<AssetView>)>::empty(),
    {
        let r = DownloadOverContext {
            places: new_name_map(),
            sources: Vec::new(),
            manifests: Vec::new(),
        };
        assert(r@ =~= Map::<Seq<char>, (DownloadView, Seq<AssetView>)>::empty());
        r
    }

    /// Gives a part of the game its manifest, in place of one that it had.
    pub fn insert(&mut self, field: String, source: DownloadInfo, manifest: SophonManifestProto)
        requires
            old(self).wf(),
        ensures
            final(self).wf(),
            final(self)@ == old(self)@.insert(field@, (source@, manifest@)),
    {
        let ghost before = self@;
        let ghost entry = (source@, manifest@);
        let ghost name = field@;
        match number_at(&self.places, field.as_str()) {
            Some(i) => {
                let at: usize = i as usize;
                self.sources.set(at, source);
                self.manifests.set(at, manifest);
            },
            None => {
                let n: usize = self.sources.len();
                put_number(&mut self.places, field, n as u64);
                self.sources.push(source);
                self.manifests.push(manifest);
            },
        }
        assert(self@ =~= before.insert(name, entry));
    }

    /// Where the chunks of a part of the game are served, and its manifest.
    pub fn part(&self, field: &str) -> (r: Option<(&DownloadInfo, &SophonManifestProto)>)
        requires
            self.wf(),
        ensures
            match r {
                Some(p) => self@.dom().contains(field@) && self@[field@] == (p.0@, p.1@),
                None => !self@.dom().contains(field@),
            },
    {
        match number_at(&self.places, field) {
            Some(i) => {
                assert(i < self.sources.len());
                let at: usize = i as usize;
                Some((&self.sources[at], &self.manifests[at]))
            },
            None => None,
        }
    }

    /// The parts of the game that have a manifest, in no particular order.
    pub fn fields(&self) -> (r: Vec<String>)
        requires
            self.wf(),
        ensures
            views(r@).no_duplicates(),
            views(r@).to_set() == self@.dom(),
    {
        let r = numbered_names(&self.places);
        assert(self@.dom() =~= numbers(self.places).dom());
        r
    }
}

/// The files of the first `n` parts among `fields`, one part after the other. A
/// part without a manifest has none.
pub open spec fn files_of_parts(
    context: Map<Seq<char>, (DownloadView, Seq<AssetView>)>,
    fields: Seq<Seq<char>>,
    n: int,
) -> Seq<AssetView>
    decreases n,
{
    if n <= 0 {
        Seq::empty()
    } else if context.dom().contains(fields[n - 1]) {
        files_of_parts(context, fields, n - 1) + files_of(context[fields[n - 1]].1)
    } else {
        files_of_parts(context, fields, n - 1)
    }
}

/// The files of the given parts of the game, without directories.
pub fn take_files_of_parts(context: &DownloadOverContext, fields: &Vec<String>) -> (r: Vec<
    SophonManifestAssetProperty,
>)
    requires
        context.wf(),
    ensures
        asset_views(r@) == files_of_parts(context@, views(fields@), fields@.len() as int),
{
    let ghost names = views(fields@);
    let mut files: Vec<SophonManifestAssetProperty> = Vec::new();
    let mut i: usize = 0;
    assert(asset_views(files@) =~= files_of_parts(context@, names, 0));
    while i < fields.len()
        invariant
            i <= fields@.len(),
            names == views(fields@),
            context.wf(),
            asset_views(files@) == files_of_parts(context@, names, i as int),
        decreases fields@.len() - i,
    {
        assert(names[i as int] == fields@[i as int]@);
        let ghost before = asset_views(files@);
        if let Some((_, manifest)) = context.part(fields[i].as_str()) {
            let mut own = take_files(manifest);
            let ghost mine = asset_views(own@);
            files.append(&mut own);
            assert(asset_views(files@) =~= before + mine);
        }
        i += 1;
    }
    files
}

/// The first of the assets, from `i` on, that has the name.
pub open spec fn asset_from(assets: Seq<AssetView>, name: Seq<char>, i: int) -> Option<int>
    decreases assets.len() - i,
{
    if i >= assets.len() {
        None
    } else if assets[i].name == name {
        Some(i)
    } else {
        asset_from(assets, name, i + 1)
    }
}

/// Where the chunks of a file that is downloaded whole are served, and its entry
/// in the manifest of its part of the game, or why there is none.
pub fn find_download_over<'a>(context: &'a DownloadOverContext, asset: &PatchAssetInfo) -> (r:
    SophonResult<(&'a DownloadInfo, &'a SophonManifestAssetProperty)>)
    requires
        context.wf(),
    ensures
        ({
            let t = asset@;
            match asset_name_fault(t.target_file_path) {
                Some(e) => r matches Err(f) && f@ == e,
                None => if !context@.dom().contains(t.matching_field) {
                    r matches Err(f) && f@ == ErrorView::NoVoiceManifest(t.matching_field)
                } else {
                    let (source, assets) = context@[t.matching_field];
                    match asset_from(assets, t.target_file_path, 0) {
                        None => r matches Err(f) && f@ == (ErrorView::AssemblyFailed {
                            file: t.target_file_path,
                            error: "File not found in main manifest for DownloadOver"@,
                        }),
                        Some(k) => r matches Ok(p) && p.0@ == source && p.1@ == assets[k],
                    }
                },
            }
        }),
{
    match validate_asset_name(asset.target_file_path.as_str()) {
        Ok(()) => {},
        Err(e) => return Err(e),
    }
    let (source, manifest) = match context.part(asset.matching_field.as_str()) {
        Some(p) => p,
        None => return Err(SophonError::NoVoiceManifest(asset.matching_field.clone())),
    };
    let assets = &manifest.assets;
    let ghost v = asset_views(assets@);
    let ghost name = asset.target_file_path@;
    let mut i: usize = 0;
    while i < assets.len()
        invariant
            i <= assets@.len(),
            v == asset_views(assets@),
            context@.dom().contains(asset@.matching_field),
            context@[asset@.matching_field] == (source@, v),
            name == asset.target_file_path@,
            name == asset@.target_file_path,
            asset_name_fault(name) is None,
            asset_from(v, name, 0) == asset_from(v, name, i as int),
        decreases assets@.len() - i,
    {
        assert(v[i as int] == assets@[i as int]@);
        if *assets[i].asset_name.as_str() == *asset.target_file_path.as_str() {
            return Ok((source, &assets[i]));
        }
        i += 1;
    }
    Err(
        SophonError::AssemblyFailed {
            file: asset.target_file_path.clone(),
            error: "File not found in main manifest for DownloadOver".to_owned(),
        },
    )
}

/// Whatever a file gets from a preinstallation is what the next version has in its
/// place: a file that was made is found to be there already when the
/// preinstallation is applied again.
pub proof fn law_made_files_are_done(
    cache: FilterView,
    t: TargetView,
    original: Option<OriginalView>,
    shown: Seq<char>,
    chunk: ContentView,
)
    ensures
        copied(t, chunk) matches Ok(data) ==> action_for(t, Some(data.len() as u64), Some(data))
            == ApplyAction::AlreadyDone,
        patched_over(cache, t, original, shown, chunk) matches Ok(Some(data)) ==> action_for(
            t,
            Some(data.len() as u64),
            Some(data),
        ) == ApplyAction::AlreadyDone,
{
}

/// A copy fails only where the patch file is missing or damaged, or does not hold
/// what the next version has: a sound patch file whose piece has the size and the
/// hash of the file, and is no binary patch, is copied as it is.
pub proof fn law_sound_pieces_are_copied(t: TargetView, data: Seq<u8>)
    requires
        patch_name_fault(t.patch_name) is None,
        asset_name_fault(t.target_file_path) is None,
        has_hash(Some(data), t.patch_hash),
        t.patch_offset + t.patch_chunk_length <= data.len(),
        t.patch_chunk_length == t.target_file_size,
        t.patch_chunk_length >= HDIFF_MAGIC_LEN ==> !starts_patch(tail(data, t.patch_offset)),
        has_hash(
            Some(
                data.subrange(
                    t.patch_offset as int,
                    t.patch_offset + t.patch_chunk_length,
                ),
            ),
            t.target_file_hash,
        ),
    ensures
        copied(t, ContentView::Bytes(data)) == Ok::<Seq<u8>, ErrorView>(
            data.subrange(t.patch_offset as int, t.patch_offset + t.patch_chunk_length),
        ),
{
    assert(piece(data, t.patch_offset, t.patch_chunk_length) =~= data.subrange(
        t.patch_offset as int,
        t.patch_offset + t.patch_chunk_length,
    ));
}

/// The names that a planned file brings lead nowhere out of the game directory.
pub open spec fn names_are_safe(t: TargetView) -> bool {
    &&& patch_name_fault(t.patch_name) is None
    &&& asset_name_fault(t.target_file_path) is None
    &&& t.original_file_path matches Some(p) ==> asset_name_fault(p) is None
}

/// An original is the one that a patch is made for, as far as the plan states its
/// size and its hash.
pub open spec fn is_stated_original(t: TargetView, size: u64, content: Seq<u8>) -> bool {
    &&& t.original_file_size matches Some(n) ==> n == size
    &&& t.original_file_hash matches Some(h) ==> has_hash(Some(content), h)
}

/// A sound patch is applied: the names are safe, the original has the size and the
/// hash that are stated for it, and the patch that stands in the patch file from
/// its offset on makes of the original what has the size and the hash of the file
/// in the next version. That is what the file gets, whatever a player has removed.
pub proof fn law_sound_patches_are_applied(
    cache: FilterView,
    t: TargetView,
    shown: Seq<char>,
    size: u64,
    old: Seq<u8>,
    chunk: Seq<u8>,
    anywhere: Seq<char>,
    made: Seq<u8>,
)
    requires
        names_are_safe(t),
        is_stated_original(t, size, old),
        t.patch_offset <= chunk.len(),
        ({
            let path = match t.original_file_path {
                Some(p) => p,
                None => t.target_file_path,
            };
            &&& path != patch_output(t)
            &&& patch_result(
                path,
                anywhere,
                false,
                ContentView::Bytes(old),
                ContentView::Bytes(chunk.skip(t.patch_offset as int)),
            ) matches Ok((data, _)) && data == made
        }),
        made.len() == t.target_file_size,
        has_hash(Some(made), t.target_file_hash),
    ensures
        patched_over(
            cache,
            t,
            Some(OriginalView { size: Ok(size), content: ContentView::Bytes(old) }),
            shown,
            ContentView::Bytes(chunk),
        ) == Ok::<Option<Seq<u8>>, ErrorView>(Some(made)),
{
}

/// A sound patch from nothing is applied: where the original is missing and is
/// stated to have no content, the patch starts from no content.
pub proof fn law_sound_patches_from_nothing_are_applied(
    cache: FilterView,
    t: TargetView,
    shown: Seq<char>,
    chunk: Seq<u8>,
    anywhere: Seq<char>,
    made: Seq<u8>,
)
    requires
        names_are_safe(t),
        t.original_file_size == Some(0u64) || t.original_file_hash == Some(BLANK_FILE_MD5@),
        has_hash(Some(Seq::<u8>::empty()), BLANK_FILE_MD5@),
        t.patch_offset <= chunk.len(),
        blank_original(t) != patch_output(t),
        patch_result(
            blank_original(t),
            anywhere,
            false,
            ContentView::Bytes(Seq::<u8>::empty()),
            ContentView::Bytes(chunk.skip(t.patch_offset as int)),
        ) matches Ok((data, _)) && data == made,
        made.len() == t.target_file_size,
        has_hash(Some(made), t.target_file_hash),
    ensures
        patched_over(cache, t, None, shown, ContentView::Bytes(chunk)) == Ok::<
            Option<Seq<u8>>,
            ErrorView,
        >(Some(made)),
{
}

/// Nothing is made of a file from anything but the original that is stated: where
/// a patch makes a file, the original is there with the stated size and hash, or
/// it is missing and stated to have no content; the patch file is there, the names
/// are safe, and what was made has the size and the hash of the next version.
pub proof fn law_patches_start_from_the_stated_original(
    cache: FilterView,
    t: TargetView,
    original: Option<OriginalView>,
    shown: Seq<char>,
    chunk: ContentView,
)
    requires
        patched_over(cache, t, original, shown, chunk) matches Ok(Some(_)),
    ensures
        names_are_safe(t),
        chunk is Bytes,
        match original {
            Some(o) => {
                &&& t.original_file_size matches Some(n) ==> o.size == Ok::<u64, Seq<char>>(n)
                &&& t.original_file_hash matches Some(h) ==> o.content is Bytes ==> has_hash(
                    o.content.bytes(),
                    h,
                )
                &&& o.content !is Unreadable
            },
            None => t.original_file_size == Some(0u64) || t.original_file_hash == Some(
                BLANK_FILE_MD5@,
            ),
        },
        ({
            let made = patched_over(cache, t, original, shown, chunk)->Ok_0->0;
            made.len() == t.target_file_size && has_hash(Some(made), t.target_file_hash)
        }),
{
}

/// A patch file that is missing or that cannot be read makes no file, neither by
/// copying nor by patching, and a file is left as it is only where the player has
/// removed what it belongs to.
pub proof fn law_nothing_comes_of_missing_patch_files(
    cache: FilterView,
    t: TargetView,
    original: Option<OriginalView>,
    shown: Seq<char>,
    chunk: ContentView,
)
    requires
        !(chunk is Bytes),
    ensures
        copied(t, chunk) is Err,
        patched_over(cache, t, original, shown, chunk) matches Ok(r) ==> r is None && filtered(
            cache,
            t,
        ),
{
}

/// What is copied stands in the patch file at the stated offset, with the stated
/// length, size and hash, unless it is a binary patch that makes the file from
/// nothing.
pub proof fn law_copies_are_pieces(t: TargetView, chunk: ContentView)
    requires
        copied(t, chunk) is Ok,
    ensures
        patch_name_fault(t.patch_name) is None,
        asset_name_fault(t.target_file_path) is None,
        chunk is Bytes,
        has_hash(chunk.bytes(), t.patch_hash),
        ({
            let data = chunk->Bytes_0;
            let made = copied(t, chunk)->Ok_0;
            &&& made.len() == t.target_file_size
            &&& has_hash(Some(made), t.target_file_hash)
            &&& !(t.patch_chunk_length >= HDIFF_MAGIC_LEN && starts_patch(
                data.skip(t.patch_offset as int),
            )) ==> made.len() == t.patch_chunk_length && forall|i: int|
                0 <= i < made.len() ==> #[trigger] made[i] == data[t.patch_offset + i]
        }),
{
    let data = chunk->Bytes_0;
    if t.patch_offset > data.len() {
        assert(tail(data, t.patch_offset).len() == 0);
        assert(piece(data, t.patch_offset, t.patch_chunk_length).len() == 0);
    }
}

/// A file that is as the next version has it is left alone; any other is made as
/// the plan says.
pub proof fn law_only_outdated_files_are_made(t: TargetView, size: Option<u64>, content: Option<Seq<u8>>)
    ensures
        ({
            let done = size == Some(t.target_file_size) && has_hash(content, t.target_file_hash);
            let action = action_for(t, size, content);
            &&& action == ApplyAction::AlreadyDone <==> done
            &&& !done ==> {
                &&& action == ApplyAction::CopyOver <==> t.patch_method == PatchMethod::CopyOver
                &&& action == ApplyAction::Patch <==> t.patch_method == PatchMethod::Patch
                &&& action == ApplyAction::DownloadOver <==> t.patch_method
                    == PatchMethod::DownloadOver
            }
        }),
{
}

/// The entry by which a file is downloaded whole has its name, and no earlier one
/// has.
pub proof fn law_entries_are_found_by_name(assets: Seq<AssetView>, name: Seq<char>)
    ensures
        match asset_from(assets, name, 0) {
            Some(k) => 0 <= k < assets.len() && assets[k].name == name && forall|j: int|
                0 <= j < k ==> (#[trigger] assets[j]).name != name,
            None => forall|j: int| 0 <= j < assets.len() ==> (#[trigger] assets[j]).name != name,
        },
{
    lemma_asset_from(assets, name, 0);
}

proof fn lemma_asset_from(assets: Seq<AssetView>, name: Seq<char>, i: int)
    requires
        0 <= i <= assets.len(),
        forall|j: int| 0 <= j < i ==> (#[trigger] assets[j]).name != name,
    ensures
        match asset_from(assets, name, i) {
            Some(k) => i <= k < assets.len() && assets[k].name == name && forall|j: int|
                0 <= j < k ==> (#[trigger] assets[j]).name != name,
            None => forall|j: int| 0 <= j < assets.len() ==> (#[trigger] assets[j]).name != name,
        },
    decreases assets.len() - i,
{
    if i < assets.len() && assets[i].name != name {
        lemma_asset_from(assets, name, i + 1);
    }
}

/// A preinstallation is refused exactly where the installed version is not the one
/// that it was made for.
pub proof fn law_other_versions_are_refused(expected: Seq<char>, actual: Seq<char>)
    ensures
        version_changed(expected, actual) is Some <==> expected != actual,
{
}

/// What stands behind the last slash.
proof fn lemma_behind_slash(dir: Seq<char>, name: Seq<char>)
    requires
        !name.contains('/'),
    ensures
        behind_last(dir + seq!['/'] + name, '/') == name,
    decreases name.len(),
{
    let s = dir + seq!['/'] + name;
    if name.len() == 0 {
        assert(s.last() == '/');
        assert(split_on(s, '/').last() =~= name);
    } else {
        let front = name.drop_last();
        assert(!front.contains('/')) by {
            if front.contains('/') {
                let i = choose|i: int| 0 <= i < front.len() && front[i] == '/';
                assert(name[i] == '/');
            }
        }
        lemma_behind_slash(dir, front);
        assert(s.drop_last() =~= dir + seq!['/'] + front);
        assert(name.contains(name.last()));
        assert(front.push(name.last()) =~= name);
    }
}

/// A file of a player's removed features is passed over. Outside of hk4e nothing
/// else is; in hk4e the lists of packages in any directory are, and so are the
/// tables that the game makes anew, and nothing else.
pub proof fn law_files_are_passed_over(t: TargetView, dir: Seq<char>)
    ensures
        t.patch_method == PatchMethod::Skip ==> passed_over(t, true) && passed_over(t, false),
        passed_over(t, false) ==> t.patch_method == PatchMethod::Skip,
        t.target_file_path == dir + seq!['/'] + "pkg_version"@ ==> passed_over(t, true),
        t.target_file_path == dir + seq!['/'] + "beyond_pkg_version"@ ==> passed_over(t, true),
        ends_with(lowercase_of(t.target_file_path), "ctable_streaming.dat"@) ==> passed_over(
            t,
            true,
        ),
        ({
            let name = behind_last(t.target_file_path, '/');
            passed_over(t, true) <==> t.patch_method == PatchMethod::Skip || ends_with(
                lowercase_of(t.target_file_path),
                "ctable_streaming.dat"@,
            ) || name == "pkg_version"@ || name == "beyond_pkg_version"@ || (starts_with(
                name,
                "Audio_"@,
            ) && ends_with(name, "pkg_version"@))
        }),
{
    reveal_strlit("pkg_version");
    reveal_strlit("beyond_pkg_version");
    let name = behind_last(t.target_file_path, '/');
    if ends_with(name, "beyond_pkg_version"@) {
        let n = name.len() as int;
        let tail = name.subrange(n - 18, n);
        assert(tail == "beyond_pkg_version"@);
        assert(name.subrange(n - 11, n) =~= tail.subrange(7, 18));
        assert(tail.subrange(7, 18) =~= "pkg_version"@);
    }
    if t.target_file_path == dir + seq!['/'] + "pkg_version"@ {
        lemma_behind_slash(dir, "pkg_version"@);
    }
    if t.target_file_path == dir + seq!['/'] + "beyond_pkg_version"@ {
        lemma_behind_slash(dir, "beyond_pkg_version"@);
    }
}

/// A name for a temporary file is as long as the path that it stands for, holds no
/// separator, null character or colon, and has every other character as it is.
pub proof fn law_temporary_names_stay_in_their_directory(s: Seq<char>, i: int)
    requires
        0 <= i < s.len(),
    ensures
        safe_path(s).len() == s.len(),
        safe_name(s).len() == s.len(),
        ({
            let c = s[i];
            let bad = c == '/' || c == '\\' || c == '\0';
            &&& safe_name(s)[i] == if bad {
                '_'
            } else {
                c
            }
            &&& safe_path(s)[i] == if bad || c == ':' {
                '_'
            } else {
                c
            }
        }),
{
    reveal_strlit("/\\\0");
    reveal_strlit("/\\\0:");
    let a = "/\\\0"@;
    let b = "/\\\0:"@;
    let c = s[i];
    assert(a[0] == '/' && a[1] == '\\' && a[2] == '\0');
    assert(b[0] == '/' && b[1] == '\\' && b[2] == '\0' && b[3] == ':');
    assert(a.contains('/') && a.contains('\\') && a.contains('\0'));
    assert(b.contains('/') && b.contains('\\') && b.contains('\0') && b.contains(':'));
    if a.contains(c) {
        let k = choose|k: int| 0 <= k < a.len() && a[k] == c;
        assert(k == 0 || k == 1 || k == 2);
    }
    if b.contains(c) {
        let k = choose|k: int| 0 <= k < b.len() && b[k] == c;
        assert(k == 0 || k == 1 || k == 2 || k == 3);
    }
}

/// One of the first `n` parts has a manifest with that file.
pub open spec fn part_has_file(
    context: Map<Seq<char>, (DownloadView, Seq<AssetView>)>,
    fields: Seq<Seq<char>>,
    n: int,
    x: AssetView,
) -> bool {
    exists|i: int|
        0 <= i < n && context.dom().contains(#[trigger] fields[i]) && context[fields[i]].1.contains(x)
}

/// Exactly the files of the given parts are taken, and no directory.
pub proof fn law_files_of_all_parts_are_taken(
    context: Map<Seq<char>, (DownloadView, Seq<AssetView>)>,
    fields: Seq<Seq<char>>,
    n: int,
    x: AssetView,
)
    requires
        0 <= n <= fields.len(),
    ensures
        files_of_parts(context, fields, n).contains(x) <==> !x.is_directory() && part_has_file(
            context,
            fields,
            n,
            x,
        ),
    decreases n,
{
    if n > 0 {
        law_files_of_all_parts_are_taken(context, fields, n - 1, x);
        let b = files_of_parts(context, fields, n - 1);
        let r = files_of_parts(context, fields, n);
        let f = fields[n - 1];
        if part_has_file(context, fields, n - 1, x) {
            let i = choose|i: int|
                0 <= i < n - 1 && context.dom().contains(#[trigger] fields[i])
                    && context[fields[i]].1.contains(x);
            assert(context.dom().contains(fields[i]));
        }
        if context.dom().contains(f) {
            let a = context[f].1;
            let own = files_of(a);
            lemma_own_files(a, a.len() as int, x);
            if b.contains(x) {
                let k = choose|k: int| 0 <= k < b.len() && b[k] == x;
                assert(r[k] == x);
            }
            if own.contains(x) {
                let k = choose|k: int| 0 <= k < own.len() && own[k] == x;
                assert(r[b.len() + k] == x);
                assert(part_has_file(context, fields, n, x)) by {
                    let k = choose|k: int| 0 <= k < a.len() && #[trigger] a[k] == x;
                    assert(a.contains(x));
                    assert(context.dom().contains(fields[n - 1]));
                }
            }
            if r.contains(x) {
                let k = choose|k: int| 0 <= k < r.len() && r[k] == x;
                if k < b.len() {
                    assert(b[k] == x);
                } else {
                    assert(own[k - b.len()] == x);
                }
            }
            if a.contains(x) && !x.is_directory() {
                let k = choose|k: int| 0 <= k < a.len() && a[k] == x;
                assert(own.contains(x));
            }
        }
    }
}

proof fn lemma_own_files(a: Seq<AssetView>, n: int, x: AssetView)
    requires
        0 <= n <= a.len(),
    ensures
        files_below(a, n).contains(x) <==> !x.is_directory() && exists|k: int|
            0 <= k < n && #[trigger] a[k] == x,
    decreases n,
{
    if n > 0 {
        lemma_own_files(a, n - 1, x);
        let b = files_below(a, n - 1);
        let r = files_below(a, n);
        if b.contains(x) {
            let k = choose|k: int| 0 <= k < b.len() && b[k] == x;
            assert(r[k] == x);
            let j = choose|j: int| 0 <= j < n - 1 && #[trigger] a[j] == x;
            assert(a[j] == x);
        }
        if a[n - 1] == x && !x.is_directory() {
            assert(r[b.len() as int] == x);
        }
        if r.contains(x) {
            let k = choose|k: int| 0 <= k < r.len() && r[k] == x;
            if k < b.len() {
                assert(b[k] == x);
            } else {
                assert(a[n - 1] == x);
            }
        }
    }
}

} // verus!
