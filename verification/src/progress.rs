//! Progress, and errors as a front end sees them.

use vstd::prelude::*;
use crate::game_installer::error::ErrorView;
use crate::game_installer::error::SophonError;

verus! {

/// A step of an operation, as it is reported. Speeds and times to go are added
/// where the reports are shown.
#[derive(Debug)]
pub enum SophonProgress {
    FetchingManifest,
    CalculatingDownloads { checked_files: u64, total_files: u64 },
    Downloading { downloaded_bytes: u64, total_bytes: u64 },
    Paused { downloaded_bytes: u64, total_bytes: u64 },
    Assembling { assembled_files: u64, total_files: u64 },
    CheckingFiles { checked_files: u64, total_files: u64 },
    Verifying { scanned_files: u64, total_files: u64, error_count: u64 },
    Warning { message: String },
    Error { message: String },
    InstallingPlugins { current_plugin: String, total_plugins: usize },
    InstallingSdks { current_sdk: String, total_sdks: usize },
    DownloadingPlugin { name: String, downloaded_bytes: u64, total_bytes: u64 },
    ApplyingPreinstall { applied_files: u64, total_files: u64 },
    Finished,
}

/// An error as a front end sees it.
#[derive(Debug)]
pub enum CommandError {
    Cancelled,
    NoSpaceAvailable { path: String, needed: u64, available: u64 },
    Md5Mismatch { item: String },
    SizeMismatch { item: String, expected: u64, actual: u64 },
    OriginalFileMissing { path: String },
    DownloadFailed { chunk: String, attempts: u32 },
    HdiffPatchFailed { file: String },
    AssemblyFailed { file: String },
    NoGameManifest,
    NoVoiceManifest { locale: String },
    InvalidAssetName { name: String },
    PathTraversal { path: String },
    ApiError { retcode: i32, message: String },
    PluginValidationFailed { name: String },
    Generic { message: String },
}

/// What an error for a front end says.
pub ghost enum CommandErrorView {
    Cancelled,
    NoSpaceAvailable { path: Seq<char>, needed: u64, available: u64 },
    Md5Mismatch { item: Seq<char> },
    SizeMismatch { item: Seq<char>, expected: u64, actual: u64 },
    OriginalFileMissing { path: Seq<char> },
    DownloadFailed { chunk: Seq<char>, attempts: u32 },
    HdiffPatchFailed { file: Seq<char> },
    AssemblyFailed { file: Seq<char> },
    NoGameManifest,
    NoVoiceManifest { locale: Seq<char> },
    InvalidAssetName { name: Seq<char> },
    PathTraversal { path: Seq<char> },
    ApiError { retcode: i32, message: Seq<char> },
    PluginValidationFailed { name: Seq<char> },
    Generic { message: Seq<char> },
}

impl View for CommandError {
    type V = CommandErrorView;

    open spec fn view(&self) -> CommandErrorView {
        match *self {
            CommandError::Cancelled => CommandErrorView::Cancelled,
            CommandError::NoSpaceAvailable { path, needed, available } => {
                CommandErrorView::NoSpaceAvailable { path: path@, needed, available }
            },
            CommandError::Md5Mismatch { item } => CommandErrorView::Md5Mismatch { item: item@ },
            CommandError::SizeMismatch { item, expected, actual } => {
                CommandErrorView::SizeMismatch { item: item@, expected, actual }
            },
            CommandError::OriginalFileMissing { path } => {
                CommandErrorView::OriginalFileMissing { path: path@ }
            },
            CommandError::DownloadFailed { chunk, attempts } => {
                CommandErrorView::DownloadFailed { chunk: chunk@, attempts }
            },
            CommandError::HdiffPatchFailed { file } => {
                CommandErrorView::HdiffPatchFailed { file: file@ }
            },
            CommandError::AssemblyFailed { file } => {
                CommandErrorView::AssemblyFailed { file: file@ }
            },
            CommandError::NoGameManifest => CommandErrorView::NoGameManifest,
            CommandError::NoVoiceManifest { locale } => {
                CommandErrorView::NoVoiceManifest { locale: locale@ }
            },
            CommandError::InvalidAssetName { name } => {
                CommandErrorView::InvalidAssetName { name: name@ }
            },
            CommandError::PathTraversal { path } => {
                CommandErrorView::PathTraversal { path: path@ }
            },
            CommandError::ApiError { retcode, message } => {
                CommandErrorView::ApiError { retcode, message: message@ }
            },
            CommandError::PluginValidationFailed { name } => {
                CommandErrorView::PluginValidationFailed { name: name@ }
            },
            CommandError::Generic { message } => {
                CommandErrorView::Generic { message: message@ }
            },
        }
    }
}

/// What a front end sees of an error. Checksums and inner errors are left out; an
/// error that a front end does not know is shown by its message.
pub open spec fn shown(e: ErrorView) -> CommandErrorView {
    match e {
        ErrorView::Cancelled => CommandErrorView::Cancelled,
        ErrorView::NoSpaceAvailable { path, needed, available } => {
            CommandErrorView::NoSpaceAvailable { path, needed, available }
        },
        ErrorView::Md5Mismatch { item, .. } => CommandErrorView::Md5Mismatch { item },
        ErrorView::SizeMismatch { item, expected, actual } => {
            CommandErrorView::SizeMismatch { item, expected, actual }
        },
        ErrorView::OriginalFileMissing(path) => CommandErrorView::OriginalFileMissing { path },
        ErrorView::DownloadFailed { chunk, attempts, .. } => {
            CommandErrorView::DownloadFailed { chunk, attempts }
        },
        ErrorView::HDiffPatchFailed { file, .. } => CommandErrorView::HdiffPatchFailed { file },
        ErrorView::AssemblyFailed { file, .. } => CommandErrorView::AssemblyFailed { file },
        ErrorView::NoGameManifest => CommandErrorView::NoGameManifest,
        ErrorView::NoVoiceManifest(locale) => CommandErrorView::NoVoiceManifest { locale },
        ErrorView::InvalidAssetName(name) => CommandErrorView::InvalidAssetName { name },
        ErrorView::PathTraversal(path) => CommandErrorView::PathTraversal { path },
        ErrorView::ApiError(retcode, message) => CommandErrorView::ApiError { retcode, message },
        ErrorView::PluginValidationFailed(name) => {
            CommandErrorView::PluginValidationFailed { name }
        },
        _ => CommandErrorView::Generic { message: e.text() },
    }
}

impl CommandError {
    /// What a front end sees of an error.
    pub fn of(e: &SophonError) -> (r: Self)
        ensures
            r@ == shown(e@),
    {
        match e {
            SophonError::Cancelled => CommandError::Cancelled,
            SophonError::NoSpaceAvailable { path, needed, available } => {
                CommandError::NoSpaceAvailable {
                    path: path.clone(),
                    needed: *needed,
                    available: *available,
                }
            },
            SophonError::Md5Mismatch { item, .. } => {
                CommandError::Md5Mismatch { item: item.clone() }
            },
            SophonError::SizeMismatch { item, expected, actual } => {
                CommandError::SizeMismatch {
                    item: item.clone(),
                    expected: *expected,
                    actual: *actual,
                }
            },
            SophonError::OriginalFileMissing(path) => {
                CommandError::OriginalFileMissing { path: path.clone() }
            },
            SophonError::DownloadFailed { chunk, attempts, .. } => {
                CommandError::DownloadFailed { chunk: chunk.clone(), attempts: *attempts }
            },
            SophonError::HDiffPatchFailed { file, .. } => {
                CommandError::HdiffPatchFailed { file: file.clone() }
            },
            SophonError::AssemblyFailed { file, .. } => {
                CommandError::AssemblyFailed { file: file.clone() }
            },
            SophonError::NoGameManifest => CommandError::NoGameManifest,
            SophonError::NoVoiceManifest(locale) => {
                CommandError::NoVoiceManifest { locale: locale.clone() }
            },
            SophonError::InvalidAssetName(name) => {
                CommandError::InvalidAssetName { name: name.clone() }
            },
            SophonError::PathTraversal(path) => {
                CommandError::PathTraversal { path: path.clone() }
            },
            SophonError::ApiError(retcode, message) => {
                CommandError::ApiError { retcode: *retcode, message: message.clone() }
            },
            SophonError::PluginValidationFailed(name) => {
                CommandError::PluginValidationFailed { name: name.clone() }
            },
            other => CommandError::Generic { message: other.message() },
        }
    }
}

impl From<SophonError> for CommandError {
    fn from(e: SophonError) -> (r: Self)
        ensures
            r@ == shown(e@),
    {
        CommandError::of(&e)
    }
}

impl vstd::std_specs::convert::FromSpecImpl<SophonError> for CommandError {
    open spec fn obeys_from_spec() -> bool {
        false
    }

    open spec fn from_spec(e: SophonError) -> Self {
        CommandError::Cancelled
    }
}

impl<'a> From<&'a SophonError> for CommandError {
    fn from(e: &'a SophonError) -> (r: Self)
        ensures
            r@ == shown(e@),
    {
        CommandError::of(e)
    }
}

impl<'a> vstd::std_specs::convert::FromSpecImpl<&'a SophonError> for CommandError {
    open spec fn obeys_from_spec() -> bool {
        false
    }

    open spec fn from_spec(e: &'a SophonError) -> Self {
        CommandError::Cancelled
    }
}

/// A front end learns of a cancellation, and of nothing else as one.
pub proof fn law_only_cancellations_are_shown_as_such(e: ErrorView)
    ensures
        shown(e) is Cancelled <==> e is Cancelled,
{
}

/// A front end is told what an error is about: the file, chunk, name or path that
/// it names, with the sizes, attempts and codes that come with it, and of an error
/// that it does not know the whole message.
pub proof fn law_errors_are_shown_for_what_they_are(e: ErrorView)
    ensures
        shown(e) is NoGameManifest <==> e is NoGameManifest,
        shown(e) is NoSpaceAvailable <==> e is NoSpaceAvailable,
        shown(e) is SizeMismatch <==> e is SizeMismatch,
        shown(e) is ApiError <==> e is ApiError,
        shown(e) is OriginalFileMissing <==> e is OriginalFileMissing,
        shown(e) is NoVoiceManifest <==> e is NoVoiceManifest,
        shown(e) is InvalidAssetName <==> e is InvalidAssetName,
        shown(e) is PathTraversal <==> e is PathTraversal,
        shown(e) is PluginValidationFailed <==> e is PluginValidationFailed,
        shown(e) is Md5Mismatch <==> e is Md5Mismatch,
        shown(e) is DownloadFailed <==> e is DownloadFailed,
        shown(e) is HdiffPatchFailed <==> e is HDiffPatchFailed,
        shown(e) is AssemblyFailed <==> e is AssemblyFailed,
        shown(e) matches CommandErrorView::NoSpaceAvailable { path, needed, available } ==> e == (
        ErrorView::NoSpaceAvailable { path, needed, available }),
        shown(e) matches CommandErrorView::SizeMismatch { item, expected, actual } ==> e == (
        ErrorView::SizeMismatch { item, expected, actual }),
        shown(e) matches CommandErrorView::ApiError { retcode, message } ==> e
            == ErrorView::ApiError(retcode, message),
        shown(e) matches CommandErrorView::OriginalFileMissing { path } ==> e
            == ErrorView::OriginalFileMissing(path),
        shown(e) matches CommandErrorView::NoVoiceManifest { locale } ==> e
            == ErrorView::NoVoiceManifest(locale),
        shown(e) matches CommandErrorView::InvalidAssetName { name } ==> e
            == ErrorView::InvalidAssetName(name),
        shown(e) matches CommandErrorView::PathTraversal { path } ==> e == ErrorView::PathTraversal(
            path,
        ),
        shown(e) matches CommandErrorView::PluginValidationFailed { name } ==> e
            == ErrorView::PluginValidationFailed(name),
        shown(e) matches CommandErrorView::Md5Mismatch { item: a } ==> (e matches ErrorView::Md5Mismatch {
            item,
            ..
        } && item == a),
        shown(e) matches CommandErrorView::DownloadFailed { chunk: a, attempts: b } ==> (
        e matches ErrorView::DownloadFailed { chunk, attempts, .. } && chunk == a && attempts == b),
        shown(e) matches CommandErrorView::HdiffPatchFailed { file: a } ==> (
        e matches ErrorView::HDiffPatchFailed { file, .. } && file == a),
        shown(e) matches CommandErrorView::AssemblyFailed { file: a } ==> (
        e matches ErrorView::AssemblyFailed { file, .. } && file == a),
        shown(e) matches CommandErrorView::Generic { message } ==> message == e.text(),
{
}

} // verus!
