//! The way of one file through a preinstallation that is applied: attempts to
//! patch it, pauses, and downloads of the whole file where that fails.

use vstd::prelude::*;
use super::error::ErrorView;
use super::error::SophonError;
use super::preinstall_apply::ApplyAction;
use super::retry::after_apply;
use super::retry::after_failed_download_over;
use super::retry::ApplyStep;
use super::retry::MAX_APPLY_ATTEMPTS;
use super::retry::MAX_RETRIES;
use super::retry::NextStep;

verus! {

/// Where a file stands on its way.
#[derive(Debug, Clone, Copy, PartialEq, Eq, Structural)]
pub enum ApplyStage {
    /// What stands in its place is looked at.
    Look,
    /// It is patched, for the attempt of that number.
    Attempt(u32),
    /// There is a pause after the attempt of that number.
    Pause(u32),
    /// It is downloaded, for the attempt of that number.
    Fetch(u32),
    /// There is a pause after the download of that number.
    FetchPause(u32),
    /// It is dealt with.
    Ended,
}

/// What has happened.
#[derive(Debug)]
pub enum ApplyEvent {
    /// What stands in the place of the file asks for this.
    Looked(ApplyAction),
    /// The file was patched, or could not be.
    Tried { applied: bool },
    /// A pause is over.
    Woken,
    /// The file was downloaded.
    Fetched,
    /// The file could not be downloaded.
    FetchFailed { error: SophonError, retryable: bool },
}

/// What to do next.
#[derive(Debug)]
pub enum ApplyDo {
    /// Patch the file.
    Patch,
    /// Download the file.
    Fetch,
    /// Wait as after that attempt.
    Wait { delay_attempt: u32 },
    /// Count the file, which was left as it is.
    Pass,
    /// Count the file, which was made.
    Settle,
    /// End the whole preinstallation.
    Fail(SophonError),
}

/// What to do next, in terms of what it says.
pub ghost enum DoView {
    Patch,
    Fetch,
    Wait { delay_attempt: u32 },
    Pass,
    Settle,
    Fail(ErrorView),
}

impl View for ApplyDo {
    type V = DoView;

    open spec fn view(&self) -> DoView {
        match *self {
            ApplyDo::Patch => DoView::Patch,
            ApplyDo::Fetch => DoView::Fetch,
            ApplyDo::Wait { delay_attempt } => DoView::Wait { delay_attempt },
            ApplyDo::Pass => DoView::Pass,
            ApplyDo::Settle => DoView::Settle,
            ApplyDo::Fail(e) => DoView::Fail(e@),
        }
    }
}

impl ApplyStage {
    /// The number of the attempt is one that there can be.
    pub open spec fn wf(self) -> bool {
        match self {
            ApplyStage::Attempt(a) => a < MAX_APPLY_ATTEMPTS,
            ApplyStage::Pause(a) => a < MAX_APPLY_ATTEMPTS - 1,
            ApplyStage::Fetch(a) => a < MAX_RETRIES,
            ApplyStage::FetchPause(a) => a < MAX_RETRIES - 1,
            _ => true,
        }
    }

    /// The event is one that can happen here.
    pub open spec fn expects(self, event: ApplyEvent) -> bool {
        match self {
            ApplyStage::Look => event is Looked,
            ApplyStage::Attempt(_) => event is Tried,
            ApplyStage::Pause(_) => event is Woken,
            ApplyStage::Fetch(_) => event is Fetched || event is FetchFailed,
            ApplyStage::FetchPause(_) => event is Woken,
            ApplyStage::Ended => false,
        }
    }

    /// How many steps there are to go, at the most.
    pub open spec fn steps_left(self) -> int {
        let tries = 2 * MAX_RETRIES;
        match self {
            ApplyStage::Look => 2 * MAX_APPLY_ATTEMPTS + tries,
            ApplyStage::Attempt(a) => tries + 2 * (MAX_APPLY_ATTEMPTS - a) - 1,
            ApplyStage::Pause(a) => tries + 2 * (MAX_APPLY_ATTEMPTS - a) - 2,
            ApplyStage::Fetch(a) => 2 * (MAX_RETRIES - a) - 1,
            ApplyStage::FetchPause(a) => 2 * (MAX_RETRIES - a) - 2,
            ApplyStage::Ended => 0,
        }
    }
}

/// The next download, unless everything is cancelled.
pub open spec fn fetch_next(attempt: u32, cancelled: bool) -> (ApplyStage, DoView) {
    if cancelled {
        (ApplyStage::Ended, DoView::Fail(ErrorView::Cancelled))
    } else {
        (ApplyStage::Fetch(attempt), DoView::Fetch)
    }
}

/// What follows an attempt to patch a file: a file that a player has removed is
/// left as it is when it cannot be patched, and another one is downloaded after
/// the last attempt.
pub open spec fn after_attempt(a: u32, applied: bool, filtered: bool, cancelled: bool) -> (
    ApplyStage,
    DoView,
) {
    if applied {
        (ApplyStage::Ended, DoView::Settle)
    } else if filtered {
        (ApplyStage::Ended, DoView::Pass)
    } else if a >= MAX_APPLY_ATTEMPTS - 1 {
        fetch_next(0, cancelled)
    } else if cancelled {
        (ApplyStage::Ended, DoView::Fail(ErrorView::Cancelled))
    } else {
        (ApplyStage::Pause(a), DoView::Wait { delay_attempt: a })
    }
}

/// What follows an event.
pub open spec fn after_event(
    stage: ApplyStage,
    event: ApplyEvent,
    filtered: bool,
    cancelled: bool,
) -> (ApplyStage, DoView) {
    match (stage, event) {
        (ApplyStage::Look, ApplyEvent::Looked(action)) => match action {
            ApplyAction::AlreadyDone => (ApplyStage::Ended, DoView::Pass),
            ApplyAction::CopyOver => (ApplyStage::Attempt(0), DoView::Patch),
            ApplyAction::Patch => (ApplyStage::Attempt(0), DoView::Patch),
            ApplyAction::DownloadOver => fetch_next(0, cancelled),
            ApplyAction::Nothing => (ApplyStage::Ended, DoView::Settle),
        },
        (ApplyStage::Attempt(a), ApplyEvent::Tried { applied }) => after_attempt(
            a,
            applied,
            filtered,
            cancelled,
        ),
        (ApplyStage::Pause(a), ApplyEvent::Woken) => if cancelled {
            (ApplyStage::Ended, DoView::Fail(ErrorView::Cancelled))
        } else {
            (ApplyStage::Attempt((a + 1) as u32), DoView::Patch)
        },
        (ApplyStage::Fetch(_), ApplyEvent::Fetched) => (ApplyStage::Ended, DoView::Settle),
        (ApplyStage::Fetch(a), ApplyEvent::FetchFailed { error, retryable }) => if retryable && a
            < MAX_RETRIES - 1 {
            (ApplyStage::FetchPause(a), DoView::Wait { delay_attempt: a })
        } else {
            (ApplyStage::Ended, DoView::Fail(error@))
        },
        (ApplyStage::FetchPause(a), ApplyEvent::Woken) => fetch_next((a + 1) as u32, cancelled),
        _ => (ApplyStage::Ended, DoView::Pass),
    }
}

fn next_fetch(attempt: u32, cancelled: bool) -> (r: (ApplyStage, ApplyDo))
    ensures
        (r.0, r.1@) == fetch_next(attempt, cancelled),
{
    if cancelled {
        (ApplyStage::Ended, ApplyDo::Fail(SophonError::Cancelled))
    } else {
        (ApplyStage::Fetch(attempt), ApplyDo::Fetch)
    }
}

/// The way of one file.
#[derive(Debug)]
pub struct ApplyRun {
    pub stage: ApplyStage,
    pub filtered: bool,
}

impl ApplyRun {
    /// A file at the start of its way.
    pub fn new(filtered: bool) -> (r: Self)
        ensures
            r.stage == ApplyStage::Look,
            r.filtered == filtered,
            r.stage.wf(),
    {
        ApplyRun { stage: ApplyStage::Look, filtered }
    }

    /// Takes an event in, and says what to do next.
    pub fn step(&mut self, event: ApplyEvent, cancelled: bool) -> (r: ApplyDo)
        requires
            old(self).stage.wf(),
            old(self).stage.expects(event),
        ensures
            final(self).filtered == old(self).filtered,
            (final(self).stage, r@) == after_event(
                old(self).stage,
                event,
                old(self).filtered,
                cancelled,
            ),
            final(self).stage.wf(),
            final(self).stage.steps_left() < old(self).stage.steps_left(),
    {
        let (stage, next) = match self.stage {
            ApplyStage::Look => match event {
                ApplyEvent::Looked(action) => match action {
                    ApplyAction::AlreadyDone => (ApplyStage::Ended, ApplyDo::Pass),
                    ApplyAction::CopyOver => (ApplyStage::Attempt(0), ApplyDo::Patch),
                    ApplyAction::Patch => (ApplyStage::Attempt(0), ApplyDo::Patch),
                    ApplyAction::DownloadOver => next_fetch(0, cancelled),
                    ApplyAction::Nothing => (ApplyStage::Ended, ApplyDo::Settle),
                },
                _ => (ApplyStage::Ended, ApplyDo::Pass),
            },
            ApplyStage::Attempt(a) => match event {
                ApplyEvent::Tried { applied } => match after_apply(
                    a,
                    applied,
                    self.filtered,
                    cancelled,
                ) {
                    ApplyStep::Applied => (ApplyStage::Ended, ApplyDo::Settle),
                    ApplyStep::SkipFiltered => (ApplyStage::Ended, ApplyDo::Pass),
                    ApplyStep::FallBack => next_fetch(0, cancelled),
                    ApplyStep::Cancelled => (
                        ApplyStage::Ended,
                        ApplyDo::Fail(SophonError::Cancelled),
                    ),
                    ApplyStep::Retry { delay_attempt } => (
                        ApplyStage::Pause(a),
                        ApplyDo::Wait { delay_attempt },
                    ),
                },
                _ => (ApplyStage::Ended, ApplyDo::Pass),
            },
            ApplyStage::Pause(a) => if cancelled {
                (ApplyStage::Ended, ApplyDo::Fail(SophonError::Cancelled))
            } else {
                (ApplyStage::Attempt(a + 1), ApplyDo::Patch)
            },
            ApplyStage::Fetch(a) => match event {
                ApplyEvent::FetchFailed { error, retryable } => match after_failed_download_over(
                    a,
                    retryable,
                    error,
                ) {
                    NextStep::Retry { discard: _, delay_attempt } => (
                        ApplyStage::FetchPause(a),
                        ApplyDo::Wait { delay_attempt },
                    ),
                    NextStep::GiveUp(e) => (ApplyStage::Ended, ApplyDo::Fail(e)),
                    _ => (ApplyStage::Ended, ApplyDo::Settle),
                },
                _ => (ApplyStage::Ended, ApplyDo::Settle),
            },
            ApplyStage::FetchPause(a) => next_fetch(a + 1, cancelled),
            ApplyStage::Ended => (ApplyStage::Ended, ApplyDo::Pass),
        };
        self.stage = stage;
        next
    }
}

/// Every file comes to the end of its way, after a bounded number of attempts.
pub proof fn law_every_file_comes_to_an_end(
    stage: ApplyStage,
    event: ApplyEvent,
    filtered: bool,
    cancelled: bool,
)
    requires
        stage.wf(),
        stage.expects(event),
    ensures
        after_event(stage, event, filtered, cancelled).0.wf(),
        0 <= after_event(stage, event, filtered, cancelled).0.steps_left() < stage.steps_left(),
{
}

/// A file that a player has removed is never downloaded because its patch failed.
pub proof fn law_removed_files_are_not_downloaded_again(a: u32, applied: bool, cancelled: bool)
    ensures
        after_attempt(a, applied, true, cancelled).0 == ApplyStage::Ended,
        !(after_attempt(a, applied, true, cancelled).1 is Fail),
{
}

/// A file is made as it was decided, and is counted only when it is there: one
/// that is as it has to be is passed over, one that is copied or patched is tried,
/// and one that is downloaded is fetched; one that was made or fetched is counted.
pub proof fn law_files_go_the_way_that_was_decided(filtered: bool, action: ApplyAction)
    ensures
        ({
            let (next, step) = after_event(
                ApplyStage::Look,
                ApplyEvent::Looked(action),
                filtered,
                false,
            );
            &&& step is Pass <==> action == ApplyAction::AlreadyDone
            &&& step is Patch <==> action == ApplyAction::CopyOver || action == ApplyAction::Patch
            &&& step is Fetch <==> action == ApplyAction::DownloadOver
        }),
{
}

/// A file that cannot be patched is tried again until the attempts are used up,
/// and then downloaded whole, unless a player has removed it; it is never counted
/// as made where neither went well.
pub proof fn law_unpatched_files_are_downloaded_whole(a: u32, filtered: bool, cancelled: bool)
    requires
        a < MAX_APPLY_ATTEMPTS,
    ensures
        after_attempt(a, true, filtered, cancelled).1 is Settle,
        ({
            let (next, step) = after_attempt(a, false, filtered, cancelled);
            &&& !(step is Settle)
            &&& step is Pass <==> filtered
            &&& !filtered && !cancelled ==> if a + 1 < MAX_APPLY_ATTEMPTS {
                &&& step is Wait
                &&& after_event(next, ApplyEvent::Woken, filtered, false) == (
                    ApplyStage::Attempt((a + 1) as u32),
                    DoView::Patch,
                )
            } else {
                next == ApplyStage::Fetch(0) && step is Fetch
            }
            &&& !filtered && cancelled ==> step == DoView::Fail(ErrorView::Cancelled)
        }),
{
}

/// A download that has failed is tried again exactly where the error may pass and
/// there is an attempt left; the last error is the one that ends everything.
pub proof fn law_failed_downloads_are_tried_again(a: u32, event: ApplyEvent, filtered: bool)
    requires
        a < MAX_RETRIES,
        event is FetchFailed,
    ensures
        ({
            let (next, step) = after_event(ApplyStage::Fetch(a), event, filtered, false);
            &&& step is Wait <==> event->retryable && a + 1 < MAX_RETRIES
            &&& step is Wait ==> after_event(next, ApplyEvent::Woken, filtered, false) == (
                ApplyStage::Fetch((a + 1) as u32),
                DoView::Fetch,
            )
            &&& !(step is Wait) ==> step == DoView::Fail(event->error@)
        }),
        after_event(ApplyStage::Fetch(a), ApplyEvent::Fetched, filtered, false).1 is Settle,
{
}

/// A file starts with its first attempt; one for which nothing is left to do is
/// counted. Whatever is cancelled is not downloaded, and after a pause it is not
/// tried again.
pub proof fn law_cancelled_files_are_not_fetched(a: u32, filtered: bool, action: ApplyAction)
    requires
        a < MAX_APPLY_ATTEMPTS - 1,
        a < MAX_RETRIES - 1,
    ensures
        ({
            let stop = (ApplyStage::Ended, DoView::Fail(ErrorView::Cancelled));
            let looked = |cancelled: bool|
                after_event(ApplyStage::Look, ApplyEvent::Looked(action), filtered, cancelled);
            &&& looked(false).1 is Patch ==> looked(false).0 == ApplyStage::Attempt(0)
            &&& looked(false).1 is Fetch ==> looked(false).0 == ApplyStage::Fetch(0)
            &&& looked(false).1 is Settle <==> action == ApplyAction::Nothing
            &&& action == ApplyAction::DownloadOver ==> looked(true) == stop
            &&& action != ApplyAction::DownloadOver ==> looked(true) == looked(false)
            &&& after_event(ApplyStage::Pause(a), ApplyEvent::Woken, filtered, true) == stop
            &&& after_event(ApplyStage::FetchPause(a), ApplyEvent::Woken, filtered, true) == stop
        }),
{
}

/// The wait before another attempt goes by the number of the attempt that failed.
pub proof fn law_waits_go_by_the_attempt(a: u32, event: ApplyEvent, filtered: bool, cancelled: bool)
    ensures
        after_attempt(a, false, filtered, cancelled).1 matches DoView::Wait { delay_attempt }
            ==> delay_attempt == a,
        after_event(ApplyStage::Fetch(a), event, filtered, cancelled).1 matches DoView::Wait {
            delay_attempt,
        } ==> delay_attempt == a,
{
}

} // verus!
