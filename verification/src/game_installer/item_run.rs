//! The way of one chunk, or of one patch file, from the first look to its end.

use vstd::prelude::*;
use super::download_plan::DownloadItem;
use super::error::ErrorView;
use super::error::SophonError;
use super::names::chunk_name_ok;
use super::names::validate_chunk_name;
use super::retry::after_failed_fetch;
use super::retry::AttemptOutcome;
use super::retry::ChunkRetry;
use super::retry::NextStep;
use super::retry::OutcomeView;
use super::retry::StepView;
use super::retry::MAX_HASH_RETRIES;
use super::retry::MAX_RETRIES;

verus! {

/// Where a chunk stands on its way.
#[derive(PartialEq, Eq, Structural, Clone, Copy, Debug)]
pub enum ItemStage {
    /// Its file is looked at.
    Check,
    /// It is downloaded.
    Attempt,
    /// There is a pause before it is downloaded again.
    Pause,
    /// The mark of an earlier run is looked at.
    Mark,
    /// Room is made for the file that it is unpacked into.
    Prepare,
    /// It is asked for.
    Ask,
    /// Its bytes are received.
    Receive,
    /// It is unpacked into its place.
    Unpack,
    /// It is marked as unpacked.
    Note,
    Ended,
}

/// What has happened to a chunk.
#[derive(Debug)]
pub enum ItemEvent {
    /// Its file was looked at, and passed its check or not.
    Checked { sound: bool },
    /// It was downloaded, or that has failed.
    Tried(AttemptOutcome),
    /// The pause is over.
    Woken,
    /// Its mark was looked at: an earlier run has unpacked it or not.
    Marked { unpacked: bool },
    /// There is room for the file.
    Prepared,
    /// An answer has arrived, with that status, which is shown so.
    Arrived { status: u16, shown: String },
    /// Its bytes were received.
    Received,
    /// It was unpacked.
    Unpacked,
    /// It was marked as unpacked.
    Noted,
    /// What was to be done for unpacking it has failed.
    Broken(SophonError),
}

/// What has happened, in terms of what it says.
pub ghost enum ItemEventView {
    Checked { sound: bool },
    Tried(OutcomeView),
    Woken,
    Marked { unpacked: bool },
    Prepared,
    Arrived { status: u16, shown: Seq<char> },
    Received,
    Unpacked,
    Noted,
    Broken(ErrorView),
}

impl View for ItemEvent {
    type V = ItemEventView;

    open spec fn view(&self) -> ItemEventView {
        match *self {
            ItemEvent::Checked { sound } => ItemEventView::Checked { sound },
            ItemEvent::Tried(outcome) => ItemEventView::Tried(outcome@),
            ItemEvent::Woken => ItemEventView::Woken,
            ItemEvent::Marked { unpacked } => ItemEventView::Marked { unpacked },
            ItemEvent::Prepared => ItemEventView::Prepared,
            ItemEvent::Arrived { status, shown } => ItemEventView::Arrived {
                status,
                shown: shown@,
            },
            ItemEvent::Received => ItemEventView::Received,
            ItemEvent::Unpacked => ItemEventView::Unpacked,
            ItemEvent::Noted => ItemEventView::Noted,
            ItemEvent::Broken(e) => ItemEventView::Broken(e@),
        }
    }
}

/// What to do next for a chunk.
#[derive(Debug)]
pub enum ItemDo {
    /// Look at its file.
    CheckDisk,
    /// Download it.
    Download,
    /// Wait as after that attempt, without what was downloaded where `discard` says
    /// so.
    Wait { discard: bool, delay_attempt: u32 },
    /// Look at the mark of an earlier run.
    LookAtMark,
    /// Make room for the file that it is unpacked into.
    Prepare,
    /// Ask for it.
    Ask,
    /// Receive its bytes.
    Receive,
    /// Unpack it into its place.
    Unpack,
    /// Mark it as unpacked.
    Note,
    /// Count it: it was downloaded, or was there.
    Settle { downloaded: bool },
    /// Count it: it was unpacked.
    Count,
    /// It does not come.
    Fail(SophonError),
}

/// What to do next, in terms of what it says.
pub ghost enum ItemDoView {
    CheckDisk,
    Download,
    Wait { discard: bool, delay_attempt: u32 },
    LookAtMark,
    Prepare,
    Ask,
    Receive,
    Unpack,
    Note,
    Settle { downloaded: bool },
    Count,
    Fail(ErrorView),
}

impl View for ItemDo {
    type V = ItemDoView;

    open spec fn view(&self) -> ItemDoView {
        match *self {
            ItemDo::CheckDisk => ItemDoView::CheckDisk,
            ItemDo::Download => ItemDoView::Download,
            ItemDo::Wait { discard, delay_attempt } => ItemDoView::Wait { discard, delay_attempt },
            ItemDo::LookAtMark => ItemDoView::LookAtMark,
            ItemDo::Prepare => ItemDoView::Prepare,
            ItemDo::Ask => ItemDoView::Ask,
            ItemDo::Receive => ItemDoView::Receive,
            ItemDo::Unpack => ItemDoView::Unpack,
            ItemDo::Note => ItemDoView::Note,
            ItemDo::Settle { downloaded } => ItemDoView::Settle { downloaded },
            ItemDo::Count => ItemDoView::Count,
            ItemDo::Fail(e) => ItemDoView::Fail(e@),
        }
    }
}

/// The status of an answer that brings what was asked for.
pub open spec fn is_success(status: u16) -> bool {
    200 <= status < 300
}

/// The way of one chunk.
#[derive(PartialEq, Eq, Structural, Clone, Copy, Debug)]
pub struct ItemRun {
    pub stage: ItemStage,
    pub retry: ChunkRetry,
}

impl ItemRun {
    /// As long as the chunk is on its way, there is another attempt left.
    pub open spec fn wf(self) -> bool {
        self.stage == ItemStage::Ended || self.retry.wf()
    }

    /// The event is one that can happen here.
    pub open spec fn expects(self, event: ItemEvent) -> bool {
        match self.stage {
            ItemStage::Check => event is Checked,
            ItemStage::Attempt => event is Tried,
            ItemStage::Pause => event is Woken,
            ItemStage::Mark => event is Marked,
            ItemStage::Prepare => event is Prepared || event is Broken,
            ItemStage::Ask => event is Arrived || event is Broken,
            ItemStage::Receive => event is Received || event is Broken,
            ItemStage::Unpack => event is Unpacked || event is Broken,
            ItemStage::Note => event is Noted,
            ItemStage::Ended => false,
        }
    }

    /// How many steps there are to go, at the most.
    pub open spec fn steps_left(self) -> int {
        let left = MAX_RETRIES - self.retry.network_attempts + MAX_HASH_RETRIES
            - self.retry.hash_failures;
        match self.stage {
            ItemStage::Check => 2 * left + 1,
            ItemStage::Attempt => 2 * left,
            ItemStage::Pause => 2 * left + 1,
            ItemStage::Mark => 6,
            ItemStage::Prepare => 5,
            ItemStage::Ask => 4,
            ItemStage::Receive => 3,
            ItemStage::Unpack => 2,
            ItemStage::Note => 1,
            ItemStage::Ended => 0,
        }
    }

    /// The chunk at another place on its way.
    pub open spec fn at(self, stage: ItemStage) -> ItemRun {
        ItemRun { stage, ..self }
    }

    /// The next download, unless everything is cancelled.
    pub open spec fn download_next(self, cancelled: bool) -> (ItemRun, ItemDoView) {
        if cancelled {
            (self.at(ItemStage::Ended), ItemDoView::Fail(ErrorView::Cancelled))
        } else {
            (self.at(ItemStage::Attempt), ItemDoView::Download)
        }
    }

    /// What follows an event.
    pub open spec fn after(self, chunk: Seq<char>, event: ItemEventView, cancelled: bool) -> (
        ItemRun,
        ItemDoView,
    ) {
        match event {
            ItemEventView::Checked { sound } => if !cancelled && sound {
                (self.at(ItemStage::Ended), ItemDoView::Settle { downloaded: false })
            } else {
                self.download_next(cancelled)
            },
            ItemEventView::Tried(outcome) => {
                let (retry, step) = self.retry.after(chunk, outcome);
                match step {
                    StepView::Succeed => (
                        ItemRun { stage: ItemStage::Ended, retry },
                        ItemDoView::Settle { downloaded: true },
                    ),
                    StepView::GiveUp(e) => (
                        ItemRun { stage: ItemStage::Ended, retry },
                        ItemDoView::Fail(e),
                    ),
                    StepView::Retry { discard, delay_attempt } => (
                        ItemRun { stage: ItemStage::Pause, retry },
                        ItemDoView::Wait { discard, delay_attempt },
                    ),
                }
            },
            ItemEventView::Woken => self.download_next(cancelled),
            ItemEventView::Marked { unpacked } => if unpacked {
                (self.at(ItemStage::Ended), ItemDoView::Count)
            } else {
                (self.at(ItemStage::Prepare), ItemDoView::Prepare)
            },
            ItemEventView::Prepared => (self.at(ItemStage::Ask), ItemDoView::Ask),
            ItemEventView::Arrived { status, shown } => if is_success(status) {
                (self.at(ItemStage::Receive), ItemDoView::Receive)
            } else {
                (
                    self.at(ItemStage::Ended),
                    ItemDoView::Fail(
                        ErrorView::Io("HTTP "@ + shown + " for chunk "@ + chunk),
                    ),
                )
            },
            ItemEventView::Received => if cancelled {
                (self.at(ItemStage::Ended), ItemDoView::Fail(ErrorView::Cancelled))
            } else {
                (self.at(ItemStage::Unpack), ItemDoView::Unpack)
            },
            ItemEventView::Unpacked => (self.at(ItemStage::Note), ItemDoView::Note),
            ItemEventView::Noted => (self.at(ItemStage::Ended), ItemDoView::Count),
            ItemEventView::Broken(e) => (self.at(ItemStage::Ended), ItemDoView::Fail(e)),
        }
    }

    /// How the way of a chunk starts. A chunk whose name is no file name is
    /// refused.
    pub open spec fn start(item: DownloadItem, chunk: Seq<char>, cancelled: bool) -> (
        ItemRun,
        ItemDoView,
    ) {
        let run = ItemRun {
            stage: ItemStage::Ended,
            retry: ChunkRetry { network_attempts: 0, hash_failures: 0 },
        };
        if !chunk_name_ok(chunk) {
            (run, ItemDoView::Fail(ErrorView::PathTraversal(chunk)))
        } else if item.use_eager {
            (run.at(ItemStage::Mark), ItemDoView::LookAtMark)
        } else if item.is_pre_downloaded {
            (run.at(ItemStage::Check), ItemDoView::CheckDisk)
        } else {
            run.download_next(cancelled)
        }
    }

    fn fetch(&mut self, cancelled: bool) -> (r: ItemDo)
        ensures
            (*final(self), r@) == old(self).download_next(cancelled),
    {
        if cancelled {
            *self = ItemRun { stage: ItemStage::Ended, retry: self.retry };
            ItemDo::Fail(SophonError::Cancelled)
        } else {
            *self = ItemRun { stage: ItemStage::Attempt, retry: self.retry };
            ItemDo::Download
        }
    }

    /// Starts the way of a chunk.
    pub fn begin(item: &DownloadItem, chunk_name: &str, cancelled: bool) -> (r: (Self, ItemDo))
        ensures
            (r.0, r.1@) == Self::start(*item, chunk_name@, cancelled),
            r.0.wf(),
    {
        let retry = ChunkRetry::new();
        if !validate_chunk_name(chunk_name) {
            (
                ItemRun { stage: ItemStage::Ended, retry },
                ItemDo::Fail(SophonError::PathTraversal(chunk_name.to_owned())),
            )
        } else if item.use_eager {
            (ItemRun { stage: ItemStage::Mark, retry }, ItemDo::LookAtMark)
        } else if item.is_pre_downloaded {
            (ItemRun { stage: ItemStage::Check, retry }, ItemDo::CheckDisk)
        } else {
            let mut run = ItemRun { stage: ItemStage::Ended, retry };
            let next = run.fetch(cancelled);
            (run, next)
        }
    }

    /// Takes an event in, and says what to do next.
    pub fn step(&mut self, chunk_name: &str, event: ItemEvent, cancelled: bool) -> (r: ItemDo)
        requires
            old(self).wf(),
            old(self).expects(event),
        ensures
            (*final(self), r@) == old(self).after(chunk_name@, event@, cancelled),
            final(self).wf(),
            final(self).steps_left() < old(self).steps_left(),
    {
        match event {
            ItemEvent::Checked { sound } => if !cancelled && sound {
                *self = ItemRun { stage: ItemStage::Ended, retry: self.retry };
                ItemDo::Settle { downloaded: false }
            } else {
                self.fetch(cancelled)
            },
            ItemEvent::Tried(outcome) => {
                let mut retry = self.retry;
                let step = retry.after_attempt(chunk_name, outcome);
                match step {
                    NextStep::Succeed => {
                        *self = ItemRun { stage: ItemStage::Ended, retry };
                        ItemDo::Settle { downloaded: true }
                    },
                    NextStep::GiveUp(e) => {
                        *self = ItemRun { stage: ItemStage::Ended, retry };
                        ItemDo::Fail(e)
                    },
                    NextStep::Retry { discard, delay_attempt } => {
                        *self = ItemRun { stage: ItemStage::Pause, retry };
                        ItemDo::Wait { discard, delay_attempt }
                    },
                }
            },
            ItemEvent::Woken => self.fetch(cancelled),
            ItemEvent::Marked { unpacked } => if unpacked {
                *self = ItemRun { stage: ItemStage::Ended, retry: self.retry };
                ItemDo::Count
            } else {
                *self = ItemRun { stage: ItemStage::Prepare, retry: self.retry };
                ItemDo::Prepare
            },
            ItemEvent::Prepared => {
                *self = ItemRun { stage: ItemStage::Ask, retry: self.retry };
                ItemDo::Ask
            },
            ItemEvent::Arrived { status, shown } => if 200 <= status && status < 300 {
                *self = ItemRun { stage: ItemStage::Receive, retry: self.retry };
                ItemDo::Receive
            } else {
                *self = ItemRun { stage: ItemStage::Ended, retry: self.retry };
                let mut text: String = "HTTP ".to_owned();
                text.append(shown.as_str());
                text.append(" for chunk ");
                text.append(chunk_name);
                ItemDo::Fail(SophonError::Io(text))
            },
            ItemEvent::Received => if cancelled {
                *self = ItemRun { stage: ItemStage::Ended, retry: self.retry };
                ItemDo::Fail(SophonError::Cancelled)
            } else {
                *self = ItemRun { stage: ItemStage::Unpack, retry: self.retry };
                ItemDo::Unpack
            },
            ItemEvent::Unpacked => {
                *self = ItemRun { stage: ItemStage::Note, retry: self.retry };
                ItemDo::Note
            },
            ItemEvent::Noted => {
                *self = ItemRun { stage: ItemStage::Ended, retry: self.retry };
                ItemDo::Count
            },
            ItemEvent::Broken(e) => {
                *self = ItemRun { stage: ItemStage::Ended, retry: self.retry };
                ItemDo::Fail(e)
            },
        }
    }
}

/// A chunk is counted as there only when its file has passed its check, as
/// downloaded only when a download has come to its end, and as unpacked only when
/// it is marked so; its way is over then.
pub proof fn law_counted_chunks_are_there(
    run: ItemRun,
    chunk: Seq<char>,
    event: ItemEvent,
    cancelled: bool,
)
    requires
        run.wf(),
        run.expects(event),
    ensures
        ({
            let (next, action) = run.after(chunk, event@, cancelled);
            &&& action == (ItemDoView::Settle { downloaded: false }) ==> event@ == (
            ItemEventView::Checked { sound: true })
            &&& action == (ItemDoView::Settle { downloaded: true }) ==> event@
                == ItemEventView::Tried(OutcomeView::Done)
            &&& action is Count ==> event is Noted || event@ == (ItemEventView::Marked {
                unpacked: true,
            })
            &&& action is Settle || action is Count || action is Fail <==> next.stage
                == ItemStage::Ended
        }),
{
}

/// A chunk that an earlier run has unpacked is counted at once: its way ends at its
/// mark, without anything being asked for.
pub proof fn law_marked_chunks_are_not_fetched(
    item: DownloadItem,
    chunk: Seq<char>,
    cancelled: bool,
    later: bool,
)
    requires
        item.use_eager,
        chunk_name_ok(chunk),
    ensures
        ({
            let (run, first) = ItemRun::start(item, chunk, cancelled);
            let (end, next) = run.after(chunk, ItemEventView::Marked { unpacked: true }, later);
            &&& first is LookAtMark
            &&& run.stage == ItemStage::Mark
            &&& next is Count
            &&& end.stage == ItemStage::Ended
        }),
{
}

/// A chunk is marked as unpacked exactly when it was unpacked just now, and it is
/// unpacked exactly when its bytes were received, behind an answer of success, and
/// nothing was cancelled meanwhile.
pub proof fn law_marks_follow_unpacking(
    run: ItemRun,
    chunk: Seq<char>,
    event: ItemEvent,
    cancelled: bool,
)
    requires
        run.wf(),
        run.expects(event),
    ensures
        ({
            let (next, action) = run.after(chunk, event@, cancelled);
            &&& action is Note <==> run.stage == ItemStage::Unpack && event is Unpacked
            &&& action is Unpack <==> run.stage == ItemStage::Receive && event is Received
                && !cancelled
            &&& action is Receive <==> run.stage == ItemStage::Ask && event is Arrived
                && is_success(event->status)
        }),
{
}

/// Once everything is cancelled, no chunk is downloaded to its file, looked at or
/// unpacked any more.
pub proof fn law_cancelled_chunks_are_not_fetched(run: ItemRun, chunk: Seq<char>, event: ItemEvent)
    requires
        run.wf(),
        run.expects(event),
    ensures
        !(run.after(chunk, event@, true).1 is Download),
        !(run.after(chunk, event@, true).1 is CheckDisk),
        !(run.after(chunk, event@, true).1 is Unpack),
{
}

/// Where a patch file stands on its way.
#[derive(PartialEq, Eq, Structural, Clone, Copy, Debug)]
pub enum FetchStage {
    /// It is fetched for the first time, or again after so many failures.
    Attempt(u32),
    /// There is a pause after that attempt.
    Pause(u32),
    Ended,
}

/// What has happened to a patch file.
#[derive(Debug)]
pub enum FetchEvent {
    Fetched,
    Failed { error: SophonError, retryable: bool },
    Woken,
}

/// What to do next for a patch file.
#[derive(Debug)]
pub enum FetchDo {
    Fetch,
    /// Wait as after that attempt.
    Wait { delay_attempt: u32 },
    /// Note it as there.
    Done,
    Fail(SophonError),
}

/// What to do next, in terms of what it says.
pub ghost enum FetchDoView {
    Fetch,
    Wait { delay_attempt: u32 },
    Done,
    Fail(ErrorView),
}

impl View for FetchDo {
    type V = FetchDoView;

    open spec fn view(&self) -> FetchDoView {
        match *self {
            FetchDo::Fetch => FetchDoView::Fetch,
            FetchDo::Wait { delay_attempt } => FetchDoView::Wait { delay_attempt },
            FetchDo::Done => FetchDoView::Done,
            FetchDo::Fail(e) => FetchDoView::Fail(e@),
        }
    }
}

impl FetchStage {
    /// The number of the attempt is one that there can be.
    pub open spec fn wf(self) -> bool {
        match self {
            FetchStage::Attempt(a) => a < MAX_RETRIES,
            FetchStage::Pause(a) => a < MAX_RETRIES - 1,
            FetchStage::Ended => true,
        }
    }

    /// The event is one that can happen here.
    pub open spec fn expects(self, event: FetchEvent) -> bool {
        match self {
            FetchStage::Attempt(_) => event is Fetched || event is Failed,
            FetchStage::Pause(_) => event is Woken,
            FetchStage::Ended => false,
        }
    }

    /// How many steps there are to go, at the most.
    pub open spec fn steps_left(self) -> int {
        match self {
            FetchStage::Attempt(a) => 2 * (MAX_RETRIES - a),
            FetchStage::Pause(a) => 2 * (MAX_RETRIES - a) - 1,
            FetchStage::Ended => 0,
        }
    }
}

/// The next attempt, unless everything is cancelled.
pub open spec fn fetch_again(attempt: u32, cancelled: bool) -> (FetchStage, FetchDoView) {
    if cancelled {
        (FetchStage::Ended, FetchDoView::Fail(ErrorView::Cancelled))
    } else {
        (FetchStage::Attempt(attempt), FetchDoView::Fetch)
    }
}

/// What follows an event: an error that may pass is met by another attempt, up to
/// the last, whose error is told.
pub open spec fn after_fetch(
    stage: FetchStage,
    item: Seq<char>,
    event: FetchEvent,
    cancelled: bool,
) -> (FetchStage, FetchDoView) {
    match (stage, event) {
        (FetchStage::Attempt(_), FetchEvent::Fetched) => (FetchStage::Ended, FetchDoView::Done),
        (FetchStage::Attempt(a), FetchEvent::Failed { error, retryable }) => if !retryable {
            (FetchStage::Ended, FetchDoView::Fail(error@))
        } else if a < MAX_RETRIES - 1 {
            (FetchStage::Pause(a), FetchDoView::Wait { delay_attempt: a })
        } else {
            (
                FetchStage::Ended,
                FetchDoView::Fail(
                    ErrorView::DownloadFailed {
                        chunk: item,
                        attempts: MAX_RETRIES,
                        error: error@.text(),
                    },
                ),
            )
        },
        (FetchStage::Pause(a), FetchEvent::Woken) => fetch_again((a + 1) as u32, cancelled),
        _ => (FetchStage::Ended, FetchDoView::Done),
    }
}

fn next_attempt(attempt: u32, cancelled: bool) -> (r: (FetchStage, FetchDo))
    ensures
        (r.0, r.1@) == fetch_again(attempt, cancelled),
{
    if cancelled {
        (FetchStage::Ended, FetchDo::Fail(SophonError::Cancelled))
    } else {
        (FetchStage::Attempt(attempt), FetchDo::Fetch)
    }
}

/// The way of one patch file.
#[derive(PartialEq, Eq, Structural, Clone, Copy, Debug)]
pub struct FetchRun {
    pub stage: FetchStage,
}

impl FetchRun {
    /// Starts the way of a patch file.
    pub fn begin(cancelled: bool) -> (r: (Self, FetchDo))
        ensures
            (r.0.stage, r.1@) == fetch_again(0, cancelled),
            r.0.stage.wf(),
    {
        let (stage, next) = next_attempt(0, cancelled);
        (FetchRun { stage }, next)
    }

    /// Takes an event in, and says what to do next.
    pub fn step(&mut self, item: &str, event: FetchEvent, cancelled: bool) -> (r: FetchDo)
        requires
            old(self).stage.wf(),
            old(self).stage.expects(event),
        ensures
            (final(self).stage, r@) == after_fetch(old(self).stage, item@, event, cancelled),
            final(self).stage.wf(),
            final(self).stage.steps_left() < old(self).stage.steps_left(),
    {
        let (stage, next) = match self.stage {
            FetchStage::Attempt(a) => match event {
                FetchEvent::Fetched => (FetchStage::Ended, FetchDo::Done),
                FetchEvent::Failed { error, retryable } => {
                    match after_failed_fetch(item, a, MAX_RETRIES, retryable, error) {
                        NextStep::Succeed => (FetchStage::Ended, FetchDo::Done),
                        NextStep::GiveUp(e) => (FetchStage::Ended, FetchDo::Fail(e)),
                        NextStep::Retry { delay_attempt, .. } => (
                            FetchStage::Pause(a),
                            FetchDo::Wait { delay_attempt },
                        ),
                    }
                },
                FetchEvent::Woken => (FetchStage::Ended, FetchDo::Done),
            },
            FetchStage::Pause(a) => next_attempt(a + 1, cancelled),
            FetchStage::Ended => (FetchStage::Ended, FetchDo::Done),
        };
        self.stage = stage;
        next
    }
}

/// A patch file is noted as there only when it was fetched, and is given up at the
/// fifth failure at the latest.
pub proof fn law_noted_patch_files_are_there(
    stage: FetchStage,
    item: Seq<char>,
    event: FetchEvent,
    cancelled: bool,
)
    requires
        stage.wf(),
        stage.expects(event),
    ensures
        after_fetch(stage, item, event, cancelled).1 is Done <==> event is Fetched,
        stage == FetchStage::Attempt((MAX_RETRIES - 1) as u32) && event is Failed ==> after_fetch(
            stage,
            item,
            event,
            cancelled,
        ).1 is Fail,
{
}

/// A chunk starts as it is planned: one that is unpacked as it comes by its mark,
/// one that an earlier run has noted by a look at its file, and any other with its
/// download; one whose name is no file name does not start.
pub proof fn law_chunks_start_as_planned(item: DownloadItem, chunk: Seq<char>)
    ensures
        ({
            let (run, first) = ItemRun::start(item, chunk, false);
            &&& first is Fail <==> !chunk_name_ok(chunk)
            &&& first is LookAtMark <==> chunk_name_ok(chunk) && item.use_eager
            &&& first is CheckDisk <==> chunk_name_ok(chunk) && !item.use_eager
                && item.is_pre_downloaded
            &&& first is Download <==> chunk_name_ok(chunk) && !item.use_eager
                && !item.is_pre_downloaded
        }),
        ItemRun::start(item, chunk, true).1 !is Download,
{
}

/// As long as nothing is cancelled, a chunk goes on until it is there: it is
/// downloaded where its file fails its check and after every pause, asked for and
/// unpacked where it has no mark, and every error is told as it is.
pub proof fn law_chunks_go_on(run: ItemRun, chunk: Seq<char>, event: ItemEvent)
    requires
        run.wf(),
        run.expects(event),
    ensures
        ({
            let (next, action) = run.after(chunk, event@, false);
            &&& event@ == (ItemEventView::Checked { sound: false }) ==> action is Download
            &&& event@ == (ItemEventView::Checked { sound: true }) ==> action is Settle
            &&& event is Woken ==> action is Download && next.stage == ItemStage::Attempt
            &&& event@ == ItemEventView::Tried(OutcomeView::Done) ==> action == (
            ItemDoView::Settle { downloaded: true })
            &&& event@ == (ItemEventView::Marked { unpacked: false }) ==> action is Prepare
            &&& event is Prepared ==> action is Ask
            &&& event is Arrived && !is_success(event->status) ==> action is Fail
            &&& event is Received ==> action is Unpack
            &&& event is Unpacked ==> action is Note
            &&& event is Noted ==> action is Count
            &&& event matches ItemEvent::Broken(e) ==> action == ItemDoView::Fail(e@)
            &&& action is Wait ==> next.stage == ItemStage::Pause
        }),
{
}

/// A failed fetch of a patch file is tried again exactly where the error may pass
/// and there is an attempt left, and then for the next time; an error that cannot
/// pass is told at once.
pub proof fn law_patch_files_are_tried_again(a: u32, item: Seq<char>, event: FetchEvent)
    requires
        a < MAX_RETRIES,
        event is Failed,
    ensures
        ({
            let (next, action) = after_fetch(FetchStage::Attempt(a), item, event, false);
            let again = after_fetch(next, item, FetchEvent::Woken, false);
            &&& action is Wait <==> event->retryable && a + 1 < MAX_RETRIES
            &&& action is Wait ==> again == (FetchStage::Attempt((a + 1) as u32), FetchDoView::Fetch)
            &&& !event->retryable ==> action == FetchDoView::Fail(event->error@)
        }),
{
}

/// After an attempt a chunk goes the way that its failures say: it is there, it is
/// waited for as long and with as much kept as they say, or their error is told. No
/// other event changes the failures.
pub proof fn law_failures_decide_on_a_chunk(
    run: ItemRun,
    chunk: Seq<char>,
    event: ItemEvent,
    cancelled: bool,
)
    requires
        run.wf(),
        run.expects(event),
    ensures
        ({
            let (next, action) = run.after(chunk, event@, cancelled);
            match event@ {
                ItemEventView::Tried(outcome) => {
                    let (retry, step) = run.retry.after(chunk, outcome);
                    &&& next.retry == retry
                    &&& step is Succeed <==> action is Settle
                    &&& step matches StepView::GiveUp(e) ==> action == ItemDoView::Fail(e)
                    &&& step matches StepView::Retry { discard, delay_attempt } ==> action == (
                    ItemDoView::Wait { discard, delay_attempt })
                },
                _ => next.retry == run.retry && !(action is Wait),
            }
        }),
{
}

/// Once everything is cancelled, a chunk that would be downloaded or unpacked next
/// ends as cancelled, and so does a patch file that would be fetched again.
pub proof fn law_cancelled_chunks_end_as_such(run: ItemRun, chunk: Seq<char>, event: ItemEvent, a: u32)
    requires
        run.wf(),
        run.expects(event),
        a < MAX_RETRIES - 1,
    ensures
        ({
            let stop = ItemDoView::Fail(ErrorView::Cancelled);
            let action = run.after(chunk, event@, true).1;
            let was = run.after(chunk, event@, false).1;
            &&& was is Download || was is Unpack || event is Checked ==> action == stop
            &&& !(was is Download || was is Unpack || event is Checked) ==> action == was
        }),
        after_fetch(FetchStage::Pause(a), chunk, FetchEvent::Woken, true).1 == FetchDoView::Fail(
            ErrorView::Cancelled,
        ),
        fetch_again(0, true).1 == FetchDoView::Fail(ErrorView::Cancelled),
        fetch_again(0, false) == (FetchStage::Attempt(0), FetchDoView::Fetch),
{
}

/// The wait before a patch file is fetched again goes by the number of the attempt
/// that failed, and one that is given up after its last attempt is told as a failed
/// download, by its name and with the number of attempts.
pub proof fn law_given_up_patch_files_are_told(a: u32, item: Seq<char>, event: FetchEvent)
    requires
        a < MAX_RETRIES,
        event is Failed,
        event->retryable,
    ensures
        ({
            let (next, action) = after_fetch(FetchStage::Attempt(a), item, event, false);
            &&& a + 1 < MAX_RETRIES ==> action == (FetchDoView::Wait { delay_attempt: a })
            &&& a + 1 == MAX_RETRIES ==> (action matches FetchDoView::Fail(e)
                && e matches ErrorView::DownloadFailed { chunk, attempts, .. } && chunk == item
                && attempts == MAX_RETRIES)
        }),
{
}

} // verus!
