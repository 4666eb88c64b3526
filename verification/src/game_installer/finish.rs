//! The end of an installation.

use vstd::prelude::*;
use crate::text::views;
use super::error::SophonError;
use super::error::SophonResult;
use super::flow::error_of;
use super::flow::fault_of;
use super::flow::files_to_remove;
use super::flow::game_tasks;
use super::flow::marker_name;
use super::flow::sound_names;
use super::flow::tasks_for;
use super::flow::version_record_name;
use super::flow::DownloadSummary;
use super::flow::GameTask;

verus! {

/// What follows the downloads.
#[derive(Debug)]
pub enum AfterDownloads {
    /// Stop the assembly, let what runs come to its end, and remove the chunks; the
    /// installation is cancelled.
    Discard,
    /// The installation has failed; the chunks stay.
    Fail(SophonError),
    /// Wait for the assembly.
    AwaitAssembly,
}

/// What follows the downloads: a cancellation goes before an error.
pub fn after_downloads(summary: DownloadSummary) -> (r: AfterDownloads)
    ensures
        if summary.cancelled {
            r is Discard
        } else {
            match error_of(summary.first_error) {
                Some(e) => r matches AfterDownloads::Fail(f) && f@ == e,
                None => r is AwaitAssembly,
            }
        },
{
    if summary.cancelled {
        return AfterDownloads::Discard;
    }
    match summary.first_error {
        Some(e) => AfterDownloads::Fail(e),
        None => AfterDownloads::AwaitAssembly,
    }
}

/// What is done once every file is assembled: the files to remove, the file that
/// records the version and its text, and what is left for the game.
#[derive(Debug)]
pub struct FinalSteps {
    pub remove: Vec<String>,
    pub record_name: String,
    pub record: String,
    pub tasks: Vec<GameTask>,
}

/// The file that records the version.
pub open spec fn version_record(tag: Seq<char>, is_preinstall: bool) -> Seq<char> {
    if is_preinstall {
        marker_name(tag)
    } else {
        ".sophon_version"@
    }
}

/// What is done at the end of an installation whose assembly came to `assembly`.
/// The version is recorded only where that went well.
pub fn final_steps(
    assembly: SophonResult<()>,
    deleted_files: &Vec<String>,
    tag: &str,
    is_preinstall: bool,
    game_code: &str,
) -> (r: SophonResult<FinalSteps>)
    ensures
        match fault_of(assembly) {
            Some(e) => r matches Err(f) && f@ == e,
            None => r matches Ok(steps) && {
                &&& views(steps.remove@) == sound_names(
                    views(deleted_files@),
                    deleted_files@.len() as int,
                )
                &&& steps.record_name@ == version_record(tag@, is_preinstall)
                &&& steps.record@ == tag@
                &&& steps.tasks@ == tasks_for(game_code@, is_preinstall)
            },
        },
{
    match assembly {
        Err(e) => Err(e),
        Ok(_) => Ok(
            FinalSteps {
                remove: files_to_remove(deleted_files),
                record_name: version_record_name(tag, is_preinstall),
                record: tag.to_owned(),
                tasks: game_tasks(game_code, is_preinstall),
            },
        ),
    }
}

/// A preinstallation leaves the record of the installed version, and what the game
/// keeps of its installation, as they are.
pub proof fn law_preinstallations_leave_the_version(tag: Seq<char>, game_code: Seq<char>)
    ensures
        version_record(tag, true) != version_record(tag, false),
        tasks_for(game_code, true).len() == 0,
{
    reveal_strlit(".sophon_preinstall_");
    reveal_strlit(".sophon_version");
    assert(version_record(tag, true)[8] == 'p');
    assert(version_record(tag, false)[8] == 'v');
}

/// Every installed version is recorded in one file, whose record the next one
/// replaces; each preinstalled version has a file of its own, which ends in its
/// tag.
pub proof fn law_preinstalled_versions_stand_apart(tag: Seq<char>, other: Seq<char>)
    ensures
        version_record(tag, false) == version_record(other, false),
        version_record(tag, true) == version_record(other, true) ==> tag == other,
        version_record(tag, true).len() >= tag.len(),
        version_record(tag, true).skip(version_record(tag, true).len() - tag.len()) == tag,
{
    let prefix = ".sophon_preinstall_"@;
    assert((prefix + tag).skip(prefix.len() as int) =~= tag);
    assert((prefix + other).skip(prefix.len() as int) =~= other);
}

} // verus!
