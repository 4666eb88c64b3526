//! The steps of an installation, one decision at a time.

use vstd::prelude::*;
use crate::collections::new_name_map;
use crate::collections::numbers;
use crate::collections::put_number;
use crate::collections::NameMap;
use crate::text::views;
use super::error::ErrorView;
use super::error::SophonError;
use super::error::SophonResult;
use super::installer::ChunkNameLookup;
use super::names::asset_name_fault;
use super::names::validate_asset_name;

verus! {

/// How often progress is reported, in milliseconds.
pub const PROGRESS_UPDATE_INTERVAL_MS: u64 = 1000;

/// Over how many seconds the speed of downloads is smoothed.
pub const SPEED_SMOOTH_WINDOW_SECS: u64 = 5;

/// The least time between two reports of progress, in nanoseconds.
pub const REPORT_INTERVAL_NANOS: u64 = PROGRESS_UPDATE_INTERVAL_MS * 1_000_000;

/// The name of the file that holds the installed version.
pub const VERSION_FILE_NAME: &'static str = ".sophon_version";

/// What the downloads have come to: the bytes downloaded in this run and spared by
/// earlier ones, the chunks since the last save, and the time of the last report.
#[derive(PartialEq, Eq, Structural, Clone, Copy, Debug)]
pub struct DownloadAccount {
    pub downloaded_bytes: u64,
    pub resume_offset: u64,
    pub chunks_since_save: u64,
    pub last_report: u64,
}

/// What is due after a chunk.
#[derive(Clone, Copy, Debug)]
pub struct Due {
    /// Save the state of the downloads.
    pub save: bool,
    /// Report so many bytes, with so many to go.
    pub report: Option<(u64, u64)>,
}

impl DownloadAccount {
    /// The account after a chunk. Bytes that an earlier run was thought to have
    /// downloaded, and that were downloaded again, are no longer spared.
    pub open spec fn after_chunk(self, size: u64, downloaded: bool, noted: bool) -> DownloadAccount {
        DownloadAccount {
            downloaded_bytes: if downloaded {
                (self.downloaded_bytes + size) as u64
            } else {
                self.downloaded_bytes
            },
            resume_offset: if downloaded && noted {
                if self.resume_offset >= size {
                    (self.resume_offset - size) as u64
                } else {
                    0
                }
            } else {
                self.resume_offset
            },
            chunks_since_save: (self.chunks_since_save + 1) as u64,
            last_report: self.last_report,
        }
    }

    /// The bytes to report.
    pub open spec fn total(self) -> int {
        self.downloaded_bytes + self.resume_offset
    }

    /// A report is due at `now`.
    pub open spec fn report_due(self, now: u64) -> bool {
        now - self.last_report >= REPORT_INTERVAL_NANOS
    }

    /// Takes a chunk into account, and says what is due: the state is saved after
    /// every `interval` chunks, and progress is reported once a second.
    pub fn settle(
        &mut self,
        size: u64,
        downloaded: bool,
        noted: bool,
        now: u64,
        total_bytes: u64,
        interval: u64,
    ) -> (r: Due)
        requires
            interval > 0,
            old(self).downloaded_bytes + size + old(self).resume_offset <= u64::MAX,
            old(self).chunks_since_save < u64::MAX,
        ensures
            ({
                let a = old(self).after_chunk(size, downloaded, noted);
                &&& r.save == (a.chunks_since_save % interval == 0)
                &&& if a.report_due(now) {
                    &&& *final(self) == (DownloadAccount { last_report: now, ..a })
                    &&& r.report == Some(
                        (
                            a.total() as u64,
                            if total_bytes >= a.total() {
                                (total_bytes - a.total()) as u64
                            } else {
                                0
                            },
                        ),
                    )
                } else {
                    *final(self) == a && r.report is None
                }
            }),
    {
        if downloaded && noted {
            self.resume_offset = self.resume_offset.saturating_sub(size);
        }
        self.chunks_since_save = self.chunks_since_save + 1;
        let save = self.chunks_since_save % interval == 0;
        if downloaded {
            self.downloaded_bytes = self.downloaded_bytes + size;
        }
        if now.saturating_sub(self.last_report) >= REPORT_INTERVAL_NANOS {
            let done: u64 = self.downloaded_bytes + self.resume_offset;
            self.last_report = now;
            return Due { save, report: Some((done, total_bytes.saturating_sub(done))) };
        }
        Due { save, report: None }
    }
}

impl DownloadAccount {
    /// Takes a chunk into account that was unpacked as it came.
    pub fn settle_unpacked(&mut self, size: u64)
        ensures
            *final(self) == (DownloadAccount {
                downloaded_bytes: ((old(self).downloaded_bytes + size)
                    % 0x1_0000_0000_0000_0000) as u64,
                ..*old(self)
            }),
    {
        self.downloaded_bytes = self.downloaded_bytes.wrapping_add(size);
    }
}

/// A chunk that was not downloaded, or not noted before, does not lower the sum of
/// the reported bytes; one that was noted and downloaded again leaves it as it is.
pub proof fn law_progress_does_not_jump(a: DownloadAccount, size: u64, downloaded: bool, noted: bool)
    requires
        a.downloaded_bytes + size + a.resume_offset <= u64::MAX,
        noted ==> a.resume_offset >= size,
    ensures
        a.after_chunk(size, downloaded, noted).total() == if downloaded && !noted {
            a.total() + size
        } else {
            a.total()
        },
{
}

/// The first `n` chunks of which bytes are noted, by name.
pub open spec fn noted_below(chunk_names: Seq<Seq<char>>, bytes: Seq<u32>, n: int) -> Map<
    Seq<char>,
    u64,
>
    decreases n,
{
    if n <= 0 {
        Map::empty()
    } else if bytes[n - 1] > 0 {
        noted_below(chunk_names, bytes, n - 1).insert(chunk_names[n - 1], bytes[n - 1] as u64)
    } else {
        noted_below(chunk_names, bytes, n - 1)
    }
}

/// The state of the downloads that is saved: the chunks that are there.
pub fn saved_chunks(chunk_names: &ChunkNameLookup, bytes: &Vec<u32>) -> (r: NameMap)
    requires
        chunk_names.wf(),
        bytes@.len() <= chunk_names@.len(),
    ensures
        numbers(r) == noted_below(chunk_names@, bytes@, bytes@.len() as int),
{
    let mut map = new_name_map();
    let mut i: usize = 0;
    while i < bytes.len()
        invariant
            i <= bytes@.len(),
            chunk_names.wf(),
            bytes@.len() <= chunk_names@.len(),
            numbers(map) == noted_below(chunk_names@, bytes@, i as int),
        decreases bytes@.len() - i,
    {
        if bytes[i] > 0 {
            put_number(&mut map, chunk_names.get(i).to_owned(), bytes[i] as u64);
        }
        i += 1;
    }
    map
}

/// How the downloads went: whether they were cancelled, and the first error.
pub struct DownloadSummary {
    pub cancelled: bool,
    pub first_error: Option<SophonError>,
}

/// What an error says, if there is one.
pub open spec fn error_of(e: Option<SophonError>) -> Option<ErrorView> {
    match e {
        Some(x) => Some(x@),
        None => None,
    }
}

/// What the result of a step says.
pub open spec fn fault_of(r: SophonResult<()>) -> Option<ErrorView> {
    match r {
        Ok(_) => None,
        Err(e) => Some(e@),
    }
}

impl DownloadSummary {
    pub fn new() -> (r: Self)
        ensures
            !r.cancelled,
            r.first_error is None,
    {
        DownloadSummary { cancelled: false, first_error: None }
    }

    /// Takes in the result of a download: a cancellation is remembered as such,
    /// and of the errors the first.
    pub fn record(&mut self, result: SophonResult<()>)
        ensures
            final(self).cancelled == (old(self).cancelled || fault_of(result) == Some(
                ErrorView::Cancelled,
            )),
            error_of(final(self).first_error) == match error_of(old(self).first_error) {
                Some(e) => Some(e),
                None => if fault_of(result) == Some(ErrorView::Cancelled) {
                    None
                } else {
                    fault_of(result)
                },
            },
    {
        match result {
            Ok(_) => {},
            Err(SophonError::Cancelled) => {
                self.cancelled = true;
            },
            Err(e) => {
                if self.first_error.is_none() {
                    self.first_error = Some(e);
                }
            },
        }
    }

    /// What the downloads come to: a cancellation goes before an error.
    pub fn outcome(self) -> (r: SophonResult<()>)
        ensures
            fault_of(r) == if self.cancelled {
                Some(ErrorView::Cancelled)
            } else {
                error_of(self.first_error)
            },
    {
        if self.cancelled {
            return Err(SophonError::Cancelled);
        }
        match self.first_error {
            Some(e) => Err(e),
            None => Ok(()),
        }
    }
}

/// The first fault among the first `n` results.
pub open spec fn first_fault(faults: Seq<Option<ErrorView>>, n: int) -> Option<ErrorView>
    decreases n,
{
    if n <= 0 {
        None
    } else {
        match first_fault(faults, n - 1) {
            Some(e) => Some(e),
            None => faults[n - 1],
        }
    }
}

/// What some tasks come to that all run to their end: the first error.
pub fn drain_results(results: Vec<SophonResult<()>>) -> (r: SophonResult<()>)
    ensures
        fault_of(r) == first_fault(
            results@.map_values(|x: SophonResult<()>| fault_of(x)),
            results@.len() as int,
        ),
{
    let ghost faults = results@.map_values(|x: SophonResult<()>| fault_of(x));
    let ghost all = results@;
    let mut rest = results;
    let mut first: SophonResult<()> = Ok(());
    let n: usize = rest.len();
    let mut i: usize = 0;
    while i < n
        invariant
            i <= n,
            n == all.len(),
            rest@ == all.skip(i as int),
            faults == all.map_values(|x: SophonResult<()>| fault_of(x)),
            fault_of(first) == first_fault(faults, i as int),
        decreases n - i,
    {
        let result = rest.remove(0);
        assert(rest@ =~= all.skip(i as int + 1));
        assert(fault_of(all[i as int]) == faults[i as int]);
        if first.is_ok() {
            first = result;
        }
        i += 1;
    }
    first
}

/// The first `n` names that are sound.
pub open spec fn sound_names(list: Seq<Seq<char>>, n: int) -> Seq<Seq<char>>
    decreases n,
{
    if n <= 0 {
        Seq::empty()
    } else if asset_name_fault(list[n - 1]) is None {
        sound_names(list, n - 1).push(list[n - 1])
    } else {
        sound_names(list, n - 1)
    }
}

/// The files that are removed at the end; one whose name may lead out of the game
/// directory is left alone.
pub fn files_to_remove(deleted_files: &Vec<String>) -> (r: Vec<String>)
    ensures
        views(r@) == sound_names(views(deleted_files@), deleted_files@.len() as int),
{
    let ghost all = views(deleted_files@);
    let mut out: Vec<String> = Vec::new();
    let mut i: usize = 0;
    assert(views(out@) =~= sound_names(all, 0));
    while i < deleted_files.len()
        invariant
            i <= deleted_files@.len(),
            all == views(deleted_files@),
            views(out@) == sound_names(all, i as int),
        decreases deleted_files@.len() - i,
    {
        assert(all[i as int] == deleted_files@[i as int]@);
        let ghost before = views(out@);
        if validate_asset_name(deleted_files[i].as_str()).is_ok() {
            out.push(deleted_files[i].clone());
            assert(views(out@) =~= before.push(all[i as int]));
        }
        i += 1;
    }
    out
}

/// The name of the file that marks a preinstalled version.
pub open spec fn marker_name(tag: Seq<char>) -> Seq<char> {
    ".sophon_preinstall_"@ + tag
}

/// The name of the file that marks a preinstalled version.
pub fn marker_file_name(tag: &str) -> (r: String)
    ensures
        r@ == marker_name(tag@),
{
    let mut out = ".sophon_preinstall_".to_owned();
    out.append(tag);
    out
}

/// The file that records the version at the end of an installation: a marker for
/// a preinstalled version, and else the version file.
pub fn version_record_name(tag: &str, is_preinstall: bool) -> (r: String)
    ensures
        r@ == if is_preinstall {
            marker_name(tag@)
        } else {
            ".sophon_version"@
        },
{
    if is_preinstall {
        marker_file_name(tag)
    } else {
        ".sophon_version".to_owned()
    }
}

/// The version in the text of the version file.
pub fn installed_tag(content: Option<&str>) -> (r: Option<String>)
    ensures
        match content {
            Some(c) => r matches Some(t) && t@ == crate::strings::trimmed(c@),
            None => r is None,
        },
{
    match content {
        Some(c) => Some(crate::strings::trim(c)),
        None => None,
    }
}

/// Which files of an installation are left out by what the player has removed.
#[derive(PartialEq, Eq, Structural, Clone, Copy, Debug)]
pub enum GameFilter {
    Hkrpg,
    Hk4e,
    Nap,
    Everything,
}

/// By which records the files of a game are left out.
pub open spec fn filter_for(game_code: Seq<char>) -> GameFilter {
    if game_code == "hkrpg"@ {
        GameFilter::Hkrpg
    } else if game_code == "hk4e"@ {
        GameFilter::Hk4e
    } else if game_code == "nap"@ {
        GameFilter::Nap
    } else {
        GameFilter::Everything
    }
}

/// By which records the files of a game are left out.
pub fn game_filter(game_code: &str) -> (r: GameFilter)
    ensures
        r == filter_for(game_code@),
{
    if *game_code == *"hkrpg" {
        GameFilter::Hkrpg
    } else if *game_code == *"hk4e" {
        GameFilter::Hk4e
    } else if *game_code == *"nap" {
        GameFilter::Nap
    } else {
        GameFilter::Everything
    }
}

/// What is left to do for a game once its files are there.
#[derive(PartialEq, Eq, Structural, Clone, Copy, Debug)]
pub enum GameTask {
    HkrpgAudioRecord,
    HkrpgAppInfo,
    HkrpgBinaryVersions,
    Hk4eAudioRecord,
    Hk4ePkgVersion,
    NapAudioRecords,
}

/// What is left to do for a game once its files are there, in order. A
/// preinstallation leaves the game as it is.
pub open spec fn tasks_for(game_code: Seq<char>, is_preinstall: bool) -> Seq<GameTask> {
    if is_preinstall {
        Seq::empty()
    } else if game_code == "hkrpg"@ {
        seq![GameTask::HkrpgAudioRecord, GameTask::HkrpgAppInfo, GameTask::HkrpgBinaryVersions]
    } else if game_code == "hk4e"@ {
        seq![GameTask::Hk4eAudioRecord, GameTask::Hk4ePkgVersion]
    } else if game_code == "nap"@ {
        seq![GameTask::NapAudioRecords]
    } else {
        Seq::empty()
    }
}

/// What is left to do for a game once its files are there, in order.
pub fn game_tasks(game_code: &str, is_preinstall: bool) -> (r: Vec<GameTask>)
    ensures
        r@ == tasks_for(game_code@, is_preinstall),
{
    let mut out: Vec<GameTask> = Vec::new();
    if !is_preinstall {
        if *game_code == *"hkrpg" {
            out.push(GameTask::HkrpgAudioRecord);
            out.push(GameTask::HkrpgAppInfo);
            out.push(GameTask::HkrpgBinaryVersions);
        } else if *game_code == *"hk4e" {
            out.push(GameTask::Hk4eAudioRecord);
            out.push(GameTask::Hk4ePkgVersion);
        } else if *game_code == *"nap" {
            out.push(GameTask::NapAudioRecords);
        }
    }
    assert(out@ =~= tasks_for(game_code@, is_preinstall));
    out
}

/// What happens to the files that are ready to be assembled.
#[derive(PartialEq, Eq, Structural, Clone, Copy, Debug)]
pub enum AssemblyEvent {
    /// A file is ready.
    File { file_idx: usize, tmp_dir_idx: usize },
    /// No file is ready now.
    NoFile,
    /// No file will come any more.
    Closed,
    Cancelled,
    /// A file is assembled, or has failed.
    Finished { ok: bool },
    /// No file has been finished since.
    NoneFinished,
}

/// What to do next.
#[derive(PartialEq, Eq, Structural, Clone, Copy, Debug)]
pub enum AssemblyAction {
    /// See whether a file is ready, without waiting.
    PollFiles,
    /// See whether a file is finished, without waiting.
    PollFinished,
    /// Wait for a file or the cancellation.
    WaitForFile,
    /// Wait for a file, a finished file or the cancellation.
    WaitForAny,
    /// Assemble a file; the first is announced.
    Start { file_idx: usize, tmp_dir_idx: usize, announce: bool },
    /// Save the state of the downloads.
    Save,
    /// Let the files that are being assembled come to their end, and stop.
    Drain,
}

/// The state of the assembly: whether the first file was announced.
#[derive(PartialEq, Eq, Structural, Clone, Copy, Debug)]
pub struct AssemblyCoordinator {
    pub announced: bool,
}

impl AssemblyCoordinator {
    pub fn new() -> (r: Self)
        ensures
            !r.announced,
    {
        AssemblyCoordinator { announced: false }
    }

    /// What to do at the start of a round: look for files as long as fewer than
    /// `target` are being assembled.
    pub fn begin(&self, running: usize, target: usize) -> (r: AssemblyAction)
        ensures
            r == if running < target {
                AssemblyAction::PollFiles
            } else {
                idle_action(running)
            },
    {
        if running < target {
            AssemblyAction::PollFiles
        } else if running == 0 {
            AssemblyAction::WaitForFile
        } else {
            AssemblyAction::PollFinished
        }
    }

    /// What to do after an event. A file is started; the end of the files and a
    /// cancellation end the assembly; a finished file is noted, a failed one is
    /// not.
    pub fn after(&mut self, event: AssemblyEvent, running: usize) -> (r: Option<AssemblyAction>)
        ensures
            final(self).announced == (old(self).announced || event is File),
            r == match event {
                AssemblyEvent::File { file_idx, tmp_dir_idx } => Some(
                    AssemblyAction::Start { file_idx, tmp_dir_idx, announce: !old(self).announced },
                ),
                AssemblyEvent::NoFile => Some(idle_action(running)),
                AssemblyEvent::Closed => Some(AssemblyAction::Drain),
                AssemblyEvent::Cancelled => Some(AssemblyAction::Drain),
                AssemblyEvent::Finished { ok } => if ok {
                    Some(AssemblyAction::Save)
                } else {
                    None
                },
                AssemblyEvent::NoneFinished => Some(AssemblyAction::WaitForAny),
            },
    {
        match event {
            AssemblyEvent::File { file_idx, tmp_dir_idx } => {
                let announce = !self.announced;
                self.announced = true;
                Some(AssemblyAction::Start { file_idx, tmp_dir_idx, announce })
            },
            AssemblyEvent::NoFile => if running == 0 {
                Some(AssemblyAction::WaitForFile)
            } else {
                Some(AssemblyAction::PollFinished)
            },
            AssemblyEvent::Closed => Some(AssemblyAction::Drain),
            AssemblyEvent::Cancelled => Some(AssemblyAction::Drain),
            AssemblyEvent::Finished { ok } => if ok {
                Some(AssemblyAction::Save)
            } else {
                None
            },
            AssemblyEvent::NoneFinished => Some(AssemblyAction::WaitForAny),
        }
    }
}

/// What to do when no file is ready: wait for one, unless some are being
/// assembled.
pub open spec fn idle_action(running: usize) -> AssemblyAction {
    if running == 0 {
        AssemblyAction::WaitForFile
    } else {
        AssemblyAction::PollFinished
    }
}

/// A chunk is saved as downloaded exactly where bytes of it are noted, under its
/// name and with those bytes; of two with one name the later counts.
pub proof fn law_saved_chunks_are_those_noted(chunk_names: Seq<Seq<char>>, bytes: Seq<u32>, n: int, name: Seq<char>)
    requires
        0 <= n <= bytes.len() <= chunk_names.len(),
    ensures
        noted_below(chunk_names, bytes, n).dom().contains(name) <==> exists|i: int|
            0 <= i < n && bytes[i] > 0 && #[trigger] chunk_names[i] == name,
        forall|i: int|
            0 <= i < n && bytes[i] > 0 && #[trigger] chunk_names[i] == name && (forall|j: int|
                i < j < n && bytes[j] > 0 ==> #[trigger] chunk_names[j] != name) ==> noted_below(
                chunk_names,
                bytes,
                n,
            )[name] == bytes[i],
    decreases n,
{
    if n > 0 {
        law_saved_chunks_are_those_noted(chunk_names, bytes, n - 1, name);
        let b = noted_below(chunk_names, bytes, n - 1);
        if b.dom().contains(name) {
            let i = choose|i: int|
                0 <= i < n - 1 && bytes[i] > 0 && #[trigger] chunk_names[i] == name;
            assert(chunk_names[i] == name);
        }
        if bytes[n - 1] > 0 && chunk_names[n - 1] == name {
            assert(chunk_names[n - 1] == name);
        }
        assert forall|i: int|
            0 <= i < n && bytes[i] > 0 && #[trigger] chunk_names[i] == name && (forall|j: int|
                i < j < n && bytes[j] > 0 ==> #[trigger] chunk_names[j] != name) implies noted_below(
            chunk_names,
            bytes,
            n,
        )[name] == bytes[i] by {
            if i < n - 1 && bytes[n - 1] > 0 {
                assert(chunk_names[n - 1] != name);
            }
        }
    }
}

/// Some tasks come to the error of the first that has failed, and go well exactly
/// where none has.
pub proof fn law_the_first_error_is_told(faults: Seq<Option<ErrorView>>, n: int)
    requires
        0 <= n <= faults.len(),
    ensures
        first_fault(faults, n) is None <==> forall|i: int| 0 <= i < n ==> #[trigger] faults[i] is None,
        forall|i: int|
            0 <= i < n && (#[trigger] faults[i]) is Some && (forall|j: int|
                0 <= j < i ==> (#[trigger] faults[j]) is None) ==> first_fault(faults, n) == faults[i],
    decreases n,
{
    if n > 0 {
        law_the_first_error_is_told(faults, n - 1);
        assert forall|i: int|
            0 <= i < n && (#[trigger] faults[i]) is Some && (forall|j: int|
                0 <= j < i ==> (#[trigger] faults[j]) is None) implies first_fault(faults, n)
            == faults[i] by {
            if i == n - 1 {
                assert(first_fault(faults, n - 1) is None);
            }
        }
        if first_fault(faults, n - 1) is None && faults[n - 1] is None {
            assert forall|i: int| 0 <= i < n implies #[trigger] faults[i] is None by {}
        }
    }
}

/// Exactly the files with safe names are removed.
pub proof fn law_only_safe_names_are_removed(list: Seq<Seq<char>>, n: int, name: Seq<char>)
    requires
        0 <= n <= list.len(),
    ensures
        sound_names(list, n).contains(name) <==> asset_name_fault(name) is None && list.take(
            n,
        ).contains(name),
    decreases n,
{
    if n > 0 {
        law_only_safe_names_are_removed(list, n - 1, name);
        let b = sound_names(list, n - 1);
        let r = sound_names(list, n);
        let p = list.take(n - 1);
        let q = list.take(n);
        if b.contains(name) {
            let j = choose|j: int| 0 <= j < b.len() && b[j] == name;
            assert(r[j] == name);
        }
        if r.contains(name) {
            let j = choose|j: int| 0 <= j < r.len() && r[j] == name;
            if j < b.len() {
                assert(b[j] == name);
                let i = choose|i: int| 0 <= i < p.len() && p[i] == name;
                assert(q[i] == name);
            } else {
                assert(q[n - 1] == name);
            }
        }
        if asset_name_fault(name) is None && q.contains(name) {
            let i = choose|i: int| 0 <= i < q.len() && q[i] == name;
            if i < n - 1 {
                assert(p[i] == name);
            } else {
                assert(r[b.len() as int] == name);
            }
        }
    }
}

/// What was downloaded in this run grows by the size of each chunk that was
/// downloaded, and by nothing else; what earlier runs have spared never grows.
pub proof fn law_downloads_are_accounted_for(a: DownloadAccount, size: u64, downloaded: bool, noted: bool)
    requires
        a.downloaded_bytes + size + a.resume_offset <= u64::MAX,
        a.chunks_since_save < u64::MAX,
    ensures
        ({
            let b = a.after_chunk(size, downloaded, noted);
            &&& b.downloaded_bytes - a.downloaded_bytes == if downloaded {
                size as int
            } else {
                0
            }
            &&& b.resume_offset <= a.resume_offset
            &&& !(downloaded && noted) ==> b.resume_offset == a.resume_offset
            &&& b.chunks_since_save == a.chunks_since_save + 1
            &&& b.last_report == a.last_report
        }),
{
}

/// Each game keeps its own records, and they are written only by an installation
/// that is not a preinstallation; a game without records has none to write.
pub proof fn law_games_write_their_own_records(game_code: Seq<char>)
    ensures
        ({
            let t = tasks_for(game_code, false);
            &&& t.contains(GameTask::HkrpgAudioRecord) <==> game_code == "hkrpg"@
            &&& t.contains(GameTask::HkrpgAppInfo) <==> game_code == "hkrpg"@
            &&& t.contains(GameTask::HkrpgBinaryVersions) <==> game_code == "hkrpg"@
            &&& t.contains(GameTask::Hk4eAudioRecord) <==> game_code == "hk4e"@
            &&& t.contains(GameTask::Hk4ePkgVersion) <==> game_code == "hk4e"@
            &&& t.contains(GameTask::NapAudioRecords) <==> game_code == "nap"@
            &&& tasks_for(game_code, true).len() == 0
        }),
        filter_for(game_code) == GameFilter::Hkrpg <==> game_code == "hkrpg"@,
        filter_for(game_code) == GameFilter::Hk4e <==> game_code == "hk4e"@,
        filter_for(game_code) == GameFilter::Nap <==> game_code == "nap"@,
{
    reveal_strlit("hkrpg");
    reveal_strlit("hk4e");
    reveal_strlit("nap");
    let h = seq![
        GameTask::HkrpgAudioRecord,
        GameTask::HkrpgAppInfo,
        GameTask::HkrpgBinaryVersions,
    ];
    assert(h[0] == GameTask::HkrpgAudioRecord && h[1] == GameTask::HkrpgAppInfo && h[2]
        == GameTask::HkrpgBinaryVersions);
    let k = seq![GameTask::Hk4eAudioRecord, GameTask::Hk4ePkgVersion];
    assert(k[0] == GameTask::Hk4eAudioRecord && k[1] == GameTask::Hk4ePkgVersion);
    let n = seq![GameTask::NapAudioRecords];
    assert(n[0] == GameTask::NapAudioRecords);
    assert("hkrpg"@.len() == 5 && "hk4e"@.len() == 4 && "nap"@.len() == 3);
}

} // verus!
