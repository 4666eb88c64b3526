//! What can go wrong in an installation.

use vstd::prelude::*;
use crate::text::decimal;
use crate::text::push_decimal;
use crate::text::push_signed_decimal;
use crate::text::signed_decimal;

verus! {

/// What can go wrong in an installation.
#[derive(Debug)]
#[allow(inconsistent_fields)]
pub enum SophonError {
    Cancelled,
    NoGameManifest,
    NoInstalledVersion,
    NoPreinstallAvailable,
    NoVoiceManifest(String),
    InvalidAssetName(String),
    PathTraversal(String),
    OriginalFileMissing(String),
    PatchChunkNotFound(String),
    PluginValidationFailed(String),
    PreinstallStateInvalid(String),
    Decompression(String),
    Io(String),
    Http(String),
    JoinError(String),
    ApiError(i32, String),
    NoSpaceAvailable { path: String, needed: u64, available: u64 },
    Md5Mismatch { item: String, expected: String, actual: String },
    SizeMismatch { item: String, expected: u64, actual: u64 },
    DownloadFailed { chunk: String, attempts: u32, error: String },
    HDiffPatchFailed { file: String, error: String },
    AssemblyFailed { file: String, error: String },
}

/// The result of a step of an installation.
pub type SophonResult<T> = Result<T, SophonError>;

/// What an error says.
#[allow(inconsistent_fields)]
pub ghost enum ErrorView {
    Cancelled,
    NoGameManifest,
    NoInstalledVersion,
    NoPreinstallAvailable,
    NoVoiceManifest(Seq<char>),
    InvalidAssetName(Seq<char>),
    PathTraversal(Seq<char>),
    OriginalFileMissing(Seq<char>),
    PatchChunkNotFound(Seq<char>),
    PluginValidationFailed(Seq<char>),
    PreinstallStateInvalid(Seq<char>),
    Decompression(Seq<char>),
    Io(Seq<char>),
    Http(Seq<char>),
    JoinError(Seq<char>),
    ApiError(i32, Seq<char>),
    NoSpaceAvailable { path: Seq<char>, needed: u64, available: u64 },
    Md5Mismatch { item: Seq<char>, expected: Seq<char>, actual: Seq<char> },
    SizeMismatch { item: Seq<char>, expected: u64, actual: u64 },
    DownloadFailed { chunk: Seq<char>, attempts: u32, error: Seq<char> },
    HDiffPatchFailed { file: Seq<char>, error: Seq<char> },
    AssemblyFailed { file: Seq<char>, error: Seq<char> },
}

impl View for SophonError {
    type V = ErrorView;

    open spec fn view(&self) -> ErrorView {
        match *self {
            SophonError::Cancelled => ErrorView::Cancelled,
            SophonError::NoGameManifest => ErrorView::NoGameManifest,
            SophonError::NoInstalledVersion => ErrorView::NoInstalledVersion,
            SophonError::NoPreinstallAvailable => ErrorView::NoPreinstallAvailable,
            SophonError::NoVoiceManifest(s) => ErrorView::NoVoiceManifest(s@),
            SophonError::InvalidAssetName(s) => ErrorView::InvalidAssetName(s@),
            SophonError::PathTraversal(s) => ErrorView::PathTraversal(s@),
            SophonError::OriginalFileMissing(s) => ErrorView::OriginalFileMissing(s@),
            SophonError::PatchChunkNotFound(s) => ErrorView::PatchChunkNotFound(s@),
            SophonError::PluginValidationFailed(s) => ErrorView::PluginValidationFailed(s@),
            SophonError::PreinstallStateInvalid(s) => ErrorView::PreinstallStateInvalid(s@),
            SophonError::Decompression(s) => ErrorView::Decompression(s@),
            SophonError::Io(s) => ErrorView::Io(s@),
            SophonError::Http(s) => ErrorView::Http(s@),
            SophonError::JoinError(s) => ErrorView::JoinError(s@),
            SophonError::ApiError(code, s) => ErrorView::ApiError(code, s@),
            SophonError::NoSpaceAvailable { path, needed, available } => {
                ErrorView::NoSpaceAvailable { path: path@, needed, available }
            },
            SophonError::Md5Mismatch { item, expected, actual } => {
                ErrorView::Md5Mismatch { item: item@, expected: expected@, actual: actual@ }
            },
            SophonError::SizeMismatch { item, expected, actual } => {
                ErrorView::SizeMismatch { item: item@, expected, actual }
            },
            SophonError::DownloadFailed { chunk, attempts, error } => {
                ErrorView::DownloadFailed { chunk: chunk@, attempts, error: error@ }
            },
            SophonError::HDiffPatchFailed { file, error } => {
                ErrorView::HDiffPatchFailed { file: file@, error: error@ }
            },
            SophonError::AssemblyFailed { file, error } => {
                ErrorView::AssemblyFailed { file: file@, error: error@ }
            },
        }
    }
}

impl ErrorView {
    /// The message for a user.
    pub open spec fn text(self) -> Seq<char> {
        match self {
            ErrorView::Cancelled => "operation cancelled"@,
            ErrorView::NoGameManifest => "no game manifest found"@,
            ErrorView::NoInstalledVersion => "no installed version found"@,
            ErrorView::NoPreinstallAvailable => "no preinstall available"@,
            ErrorView::NoVoiceManifest(s) => "no voice manifest for "@ + s,
            ErrorView::InvalidAssetName(s) => "invalid asset name: "@ + s,
            ErrorView::PathTraversal(s) => "path leaves the game directory: "@ + s,
            ErrorView::OriginalFileMissing(s) => "original file missing: "@ + s,
            ErrorView::PatchChunkNotFound(s) => "patch chunk not found: "@ + s,
            ErrorView::PluginValidationFailed(s) => "plugin validation failed: "@ + s,
            ErrorView::PreinstallStateInvalid(s) => "preinstall state invalid: "@ + s,
            ErrorView::Decompression(s) => "decompression failed: "@ + s,
            ErrorView::Io(s) => "I/O error: "@ + s,
            ErrorView::Http(s) => "HTTP error: "@ + s,
            ErrorView::JoinError(s) => "task failed: "@ + s,
            ErrorView::ApiError(code, s) => "API error "@ + signed_decimal(code as int) + ": "@ + s,
            ErrorView::NoSpaceAvailable { path, needed, available } => "no space at "@ + path
                + ": needed "@ + decimal(needed as nat) + ", available "@ + decimal(
                available as nat,
            ),
            ErrorView::Md5Mismatch { item, expected, actual } => "MD5 mismatch for "@ + item
                + ": expected "@ + expected + ", got "@ + actual,
            ErrorView::SizeMismatch { item, expected, actual } => "size mismatch for "@ + item
                + ": expected "@ + decimal(expected as nat) + ", got "@ + decimal(actual as nat),
            ErrorView::DownloadFailed { chunk, attempts, error } => "download of "@ + chunk
                + " failed after "@ + decimal(attempts as nat) + " attempts: "@ + error,
            ErrorView::HDiffPatchFailed { file, error } => "HDiff patch of "@ + file
                + " failed: "@ + error,
            ErrorView::AssemblyFailed { file, error } => "assembly of "@ + file + " failed: "@
                + error,
        }
    }
}

/// The concatenation of two texts.
fn joined(head: &str, tail: &str) -> (r: String)
    ensures
        r@ == head@ + tail@,
{
    let mut out = head.to_owned();
    out.append(tail);
    out
}

impl SophonError {
    /// The message for a user.
    pub fn message(&self) -> (r: String)
        ensures
            r@ == self@.text(),
    {
        match self {
            SophonError::Cancelled => "operation cancelled".to_owned(),
            SophonError::NoGameManifest => "no game manifest found".to_owned(),
            SophonError::NoInstalledVersion => "no installed version found".to_owned(),
            SophonError::NoPreinstallAvailable => "no preinstall available".to_owned(),
            SophonError::NoVoiceManifest(s) => joined("no voice manifest for ", s.as_str()),
            SophonError::InvalidAssetName(s) => joined("invalid asset name: ", s.as_str()),
            SophonError::PathTraversal(s) => {
                joined("path leaves the game directory: ", s.as_str())
            },
            SophonError::OriginalFileMissing(s) => joined("original file missing: ", s.as_str()),
            SophonError::PatchChunkNotFound(s) => joined("patch chunk not found: ", s.as_str()),
            SophonError::PluginValidationFailed(s) => {
                joined("plugin validation failed: ", s.as_str())
            },
            SophonError::PreinstallStateInvalid(s) => {
                joined("preinstall state invalid: ", s.as_str())
            },
            SophonError::Decompression(s) => joined("decompression failed: ", s.as_str()),
            SophonError::Io(s) => joined("I/O error: ", s.as_str()),
            SophonError::Http(s) => joined("HTTP error: ", s.as_str()),
            SophonError::JoinError(s) => joined("task failed: ", s.as_str()),
            SophonError::ApiError(code, s) => {
                let mut out = "API error ".to_owned();
                push_signed_decimal(&mut out, *code as i64);
                out.append(": ");
                out.append(s.as_str());
                out
            },
            SophonError::NoSpaceAvailable { path, needed, available } => {
                let mut out = joined("no space at ", path.as_str());
                out.append(": needed ");
                push_decimal(&mut out, *needed);
                out.append(", available ");
                push_decimal(&mut out, *available);
                out
            },
            SophonError::Md5Mismatch { item, expected, actual } => {
                let mut out = joined("MD5 mismatch for ", item.as_str());
                out.append(": expected ");
                out.append(expected.as_str());
                out.append(", got ");
                out.append(actual.as_str());
                out
            },
            SophonError::SizeMismatch { item, expected, actual } => {
                let mut out = joined("size mismatch for ", item.as_str());
                out.append(": expected ");
                push_decimal(&mut out, *expected);
                out.append(", got ");
                push_decimal(&mut out, *actual);
                out
            },
            SophonError::DownloadFailed { chunk, attempts, error } => {
                let mut out = joined("download of ", chunk.as_str());
                out.append(" failed after ");
                push_decimal(&mut out, *attempts as u64);
                out.append(" attempts: ");
                out.append(error.as_str());
                out
            },
            SophonError::HDiffPatchFailed { file, error } => {
                let mut out = joined("HDiff patch of ", file.as_str());
                out.append(" failed: ");
                out.append(error.as_str());
                out
            },
            SophonError::AssemblyFailed { file, error } => {
                let mut out = joined("assembly of ", file.as_str());
                out.append(" failed: ");
                out.append(error.as_str());
                out
            },
        }
    }
}

} // verus!
