//! When to try again, and how long to wait before.

use std::time::Duration;
use vstd::arithmetic::power2::lemma2_to64;
use vstd::arithmetic::power2::pow2;
use vstd::prelude::*;
use crate::text::decimal;
use crate::text::push_decimal;
use super::error::ErrorView;
use super::error::SophonError;

verus! {

/// How often a chunk is downloaded before it is given up.
pub const MAX_RETRIES: u32 = 5;

/// How often a chunk may come with a wrong checksum before it is given up.
pub const MAX_HASH_RETRIES: u32 = 5;

/// How often a patch is applied before the file is downloaded instead.
pub const MAX_APPLY_ATTEMPTS: u32 = 5;

/// The number of nanoseconds in a duration.
pub uninterp spec fn nanos_in(d: Duration) -> u128;

/// `Duration::from_millis` makes a duration of so many milliseconds.
#[verifier::external_body]
fn millis(ms: u64) -> (r: Duration)
    ensures
        nanos_in(r) == ms * 1_000_000,
{
    Duration::from_millis(ms)
}

/// `std::time::SystemTime`, a point in time.
#[verifier::external_type_specification]
#[verifier::external_body]
pub struct ExSystemTime(std::time::SystemTime);

/// `SystemTime::now`. Nothing is known of it.
#[verifier::external_body]
fn now() -> std::time::SystemTime {
    std::time::SystemTime::now()
}

/// `SystemTime::duration_since` of 1970, unless the clock stands before it.
/// Nothing is known of the clock.
#[verifier::external_body]
fn since_1970(t: std::time::SystemTime) -> Option<Duration> {
    t.duration_since(std::time::UNIX_EPOCH).ok()
}

/// `Duration::as_nanos`, the number of nanoseconds in a duration.
#[verifier::external_body]
fn nanos_of(d: Duration) -> (r: u128)
    ensures
        r == nanos_in(d),
{
    d.as_nanos()
}

/// The smaller of two numbers.
pub open spec fn smaller(a: int, b: int) -> int {
    if a <= b {
        a
    } else {
        b
    }
}

/// The wait before another attempt, without the random part, in milliseconds:
/// one second, twice as long after each attempt, and at most half a minute.
pub open spec fn base_delay(attempt: u32) -> int {
    smaller(1000 * pow2(smaller(attempt as int, 5) as nat) as int, 30_000)
}

/// The random part of a wait, in milliseconds, out of the time of day.
pub open spec fn jitter_of(seed: u64) -> int {
    ((seed as int * 1103515245) % 0x1_0000_0000_0000_0000 + 12345) % 0x1_0000_0000_0000_0000
        % 1000
}

/// The wait before another attempt, in milliseconds, given the time of day.
pub fn delay_millis(attempt: u32, seed: u64) -> (r: u64)
    ensures
        r == base_delay(attempt) + jitter_of(seed),
        base_delay(attempt) <= r < base_delay(attempt) + 1000,
        1000 <= r < 31_000,
{
    proof {
        lemma2_to64();
    }
    let exp: u64 = match attempt {
        0 => 1000,
        1 => 2000,
        2 => 4000,
        3 => 8000,
        4 => 16_000,
        _ => 30_000,
    };
    let jitter: u64 = seed.wrapping_mul(1103515245).wrapping_add(12345) % 1000;
    exp + jitter
}

/// The wait before another attempt: it doubles with each attempt, up to half a
/// minute, and has a random part of less than a second, so that many chunks that
/// fail at once do not come back at once.
pub fn retry_delay(attempt: u32) -> (r: Duration)
    ensures
        base_delay(attempt) * 1_000_000 <= nanos_in(r) < (base_delay(attempt) + 1000) * 1_000_000,
{
    let seed: u64 = match since_1970(now()) {
        Some(d) => nanos_of(d) as u64,
        None => 0,
    };
    millis(delay_millis(attempt, seed))
}

/// A later attempt waits no shorter, but for the random part.
pub proof fn law_delays_grow(a: u32, b: u32)
    requires
        a <= b,
    ensures
        1000 <= base_delay(a) <= base_delay(b) <= 30_000,
{
    lemma2_to64();
    let x = smaller(a as int, 5) as nat;
    let y = smaller(b as int, 5) as nat;
    assert(pow2(x) <= pow2(y));
}

/// How an attempt to download a chunk went.
#[derive(Debug)]
pub enum AttemptOutcome {
    Done,
    HashMismatch,
    Failed { retryable: bool, error: SophonError },
}

/// What to do after an attempt.
#[derive(Debug)]
pub enum NextStep {
    Succeed,
    GiveUp(SophonError),
    /// Wait as after `delay_attempt` attempts and try again, without what was
    /// downloaded where `discard` says so.
    Retry { discard: bool, delay_attempt: u32 },
}

/// How an attempt went, in terms of what it says.
pub ghost enum OutcomeView {
    Done,
    HashMismatch,
    Failed { retryable: bool, error: ErrorView },
}

/// What to do after an attempt, in terms of what it says.
pub ghost enum StepView {
    Succeed,
    GiveUp(ErrorView),
    Retry { discard: bool, delay_attempt: u32 },
}

impl View for AttemptOutcome {
    type V = OutcomeView;

    open spec fn view(&self) -> OutcomeView {
        match *self {
            AttemptOutcome::Done => OutcomeView::Done,
            AttemptOutcome::HashMismatch => OutcomeView::HashMismatch,
            AttemptOutcome::Failed { retryable, error } => OutcomeView::Failed {
                retryable,
                error: error@,
            },
        }
    }
}

impl View for NextStep {
    type V = StepView;

    open spec fn view(&self) -> StepView {
        match *self {
            NextStep::Succeed => StepView::Succeed,
            NextStep::GiveUp(e) => StepView::GiveUp(e@),
            NextStep::Retry { discard, delay_attempt } => StepView::Retry { discard, delay_attempt },
        }
    }
}

/// How an attempt went that ended with an error: a wrong checksum is told apart.
pub open spec fn outcome_of(error: ErrorView, retryable: bool) -> OutcomeView {
    if error is Md5Mismatch {
        OutcomeView::HashMismatch
    } else {
        OutcomeView::Failed { retryable, error }
    }
}

/// How an attempt went that ended with an error.
pub fn failed_attempt(error: SophonError, retryable: bool) -> (r: AttemptOutcome)
    ensures
        r@ == outcome_of(error@, retryable),
{
    match error {
        SophonError::Md5Mismatch { .. } => AttemptOutcome::HashMismatch,
        error => AttemptOutcome::Failed { retryable, error },
    }
}

/// What is told of a failed transfer that is tried again.
pub fn attempt_warning(chunk: &str, attempt: u32, error: &str) -> (r: String)
    ensures
        r@ == "Chunk "@ + chunk@ + " failed (attempt "@ + decimal(attempt as nat) + "/"@ + decimal(
            MAX_RETRIES as nat,
        ) + "): "@ + error@,
{
    let mut text: String = "Chunk ".to_owned();
    text.append(chunk);
    text.append(" failed (attempt ");
    push_decimal(&mut text, attempt as u64);
    text.append("/");
    push_decimal(&mut text, MAX_RETRIES as u64);
    text.append("): ");
    text.append(error);
    text
}

/// The failures in the download of a chunk.
#[derive(PartialEq, Eq, Structural, Clone, Copy, Debug)]
pub struct ChunkRetry {
    pub network_attempts: u32,
    pub hash_failures: u32,
}

impl ChunkRetry {
    /// There is another attempt left.
    pub open spec fn wf(&self) -> bool {
        self.network_attempts < MAX_RETRIES && self.hash_failures < MAX_HASH_RETRIES
    }

    /// The failures after an attempt, and what to do next. A wrong checksum and a
    /// failed transfer are counted apart; an error that cannot be mended ends the
    /// download at once.
    pub open spec fn after(self, chunk: Seq<char>, outcome: OutcomeView) -> (ChunkRetry, StepView) {
        match outcome {
            OutcomeView::Done => (self, StepView::Succeed),
            OutcomeView::HashMismatch => {
                let n = (self.hash_failures + 1) as u32;
                (
                    ChunkRetry { hash_failures: n, ..self },
                    if n >= MAX_HASH_RETRIES {
                        StepView::GiveUp(
                            ErrorView::DownloadFailed {
                                chunk,
                                attempts: n,
                                error: "hash verification failed after 5 retries"@,
                            },
                        )
                    } else {
                        StepView::Retry { discard: true, delay_attempt: n }
                    },
                )
            },
            OutcomeView::Failed { retryable, error } => if !retryable {
                (self, StepView::GiveUp(error))
            } else {
                let n = (self.network_attempts + 1) as u32;
                (
                    ChunkRetry { network_attempts: n, ..self },
                    if n < MAX_RETRIES {
                        StepView::Retry { discard: false, delay_attempt: n }
                    } else {
                        StepView::GiveUp(
                            ErrorView::DownloadFailed {
                                chunk,
                                attempts: MAX_RETRIES,
                                error: error.text(),
                            },
                        )
                    },
                )
            },
        }
    }

    pub fn new() -> (r: Self)
        ensures
            r.wf(),
            r.network_attempts == 0,
            r.hash_failures == 0,
    {
        ChunkRetry { network_attempts: 0, hash_failures: 0 }
    }

    /// Takes in how an attempt went, and says what to do next.
    pub fn after_attempt(&mut self, chunk: &str, outcome: AttemptOutcome) -> (r: NextStep)
        requires
            old(self).wf(),
        ensures
            (*final(self), r@) == old(self).after(chunk@, outcome@),
            r is Retry ==> final(self).wf() && final(self).network_attempts
                + final(self).hash_failures == old(self).network_attempts
                + old(self).hash_failures + 1,
    {
        match outcome {
            AttemptOutcome::Done => NextStep::Succeed,
            AttemptOutcome::HashMismatch => {
                self.hash_failures = self.hash_failures + 1;
                if self.hash_failures >= MAX_HASH_RETRIES {
                    NextStep::GiveUp(
                        SophonError::DownloadFailed {
                            chunk: chunk.to_owned(),
                            attempts: self.hash_failures,
                            error: "hash verification failed after 5 retries".to_owned(),
                        },
                    )
                } else {
                    NextStep::Retry { discard: true, delay_attempt: self.hash_failures }
                }
            },
            AttemptOutcome::Failed { retryable, error } => {
                if !retryable {
                    return NextStep::GiveUp(error);
                }
                self.network_attempts = self.network_attempts + 1;
                if self.network_attempts < MAX_RETRIES {
                    NextStep::Retry { discard: false, delay_attempt: self.network_attempts }
                } else {
                    NextStep::GiveUp(
                        SophonError::DownloadFailed {
                            chunk: chunk.to_owned(),
                            attempts: MAX_RETRIES,
                            error: error.message(),
                        },
                    )
                }
            },
        }
    }
}

/// The failures after the first `n` attempts, as long as the chunk is tried again
/// after every one of them.
pub open spec fn after_failures(chunk: Seq<char>, outcomes: Seq<OutcomeView>, n: int) -> Option<
    ChunkRetry,
>
    decreases n,
{
    if n <= 0 {
        Some(ChunkRetry { network_attempts: 0, hash_failures: 0 })
    } else {
        match after_failures(chunk, outcomes, n - 1) {
            None => None,
            Some(s) => {
                let next = s.after(chunk, outcomes[n - 1]);
                if next.1 is Retry {
                    Some(next.0)
                } else {
                    None
                }
            },
        }
    }
}

/// An attempt has failed in a way that may pass.
pub open spec fn may_pass(outcome: OutcomeView) -> bool {
    match outcome {
        OutcomeView::Done => false,
        OutcomeView::HashMismatch => true,
        OutcomeView::Failed { retryable, .. } => retryable,
    }
}

/// However the attempts go, a chunk is given up after nine failures at the
/// latest, and never before the fifth where each may pass.
pub proof fn law_chunk_attempts_are_bounded(chunk: Seq<char>, outcomes: Seq<OutcomeView>, n: int)
    requires
        0 <= n <= outcomes.len(),
    ensures
        n >= 9 ==> after_failures(chunk, outcomes, n) is None,
        n < 5 && (forall|i: int| 0 <= i < n ==> may_pass(#[trigger] outcomes[i]))
            ==> after_failures(chunk, outcomes, n) is Some,
        after_failures(chunk, outcomes, n) matches Some(s) ==> s.wf() && s.network_attempts
            + s.hash_failures == n,
    decreases n,
{
    if n > 0 {
        law_chunk_attempts_are_bounded(chunk, outcomes, n - 1);
    }
}

/// What to do after attempt number `attempt` of `max_retries` to fetch `item`
/// ended in `error`.
pub fn after_failed_fetch(
    item: &str,
    attempt: u32,
    max_retries: u32,
    retryable: bool,
    error: SophonError,
) -> (r: NextStep)
    requires
        attempt < max_retries,
    ensures
        if !retryable {
            r matches NextStep::GiveUp(e) && e@ == error@
        } else if attempt < max_retries - 1 {
            r == (NextStep::Retry { discard: false, delay_attempt: attempt })
        } else {
            r matches NextStep::GiveUp(e) && e@ == (ErrorView::DownloadFailed {
                chunk: item@,
                attempts: max_retries,
                error: error@.text(),
            })
        },
{
    if !retryable {
        NextStep::GiveUp(error)
    } else if attempt < max_retries - 1 {
        NextStep::Retry { discard: false, delay_attempt: attempt }
    } else {
        NextStep::GiveUp(
            SophonError::DownloadFailed {
                chunk: item.to_owned(),
                attempts: max_retries,
                error: error.message(),
            },
        )
    }
}

/// What to do after attempt number `attempt` to download a file over the old one
/// ended in `error`: the last error is the one that is handed on.
pub fn after_failed_download_over(attempt: u32, retryable: bool, error: SophonError) -> (r:
    NextStep)
    requires
        attempt < MAX_RETRIES,
    ensures
        if retryable && attempt < MAX_RETRIES - 1 {
            r == (NextStep::Retry { discard: false, delay_attempt: attempt })
        } else {
            r matches NextStep::GiveUp(e) && e@ == error@
        },
{
    if retryable && attempt < MAX_RETRIES - 1 {
        NextStep::Retry { discard: false, delay_attempt: attempt }
    } else {
        NextStep::GiveUp(error)
    }
}

/// What to do after an attempt to apply a patch.
#[derive(PartialEq, Eq, Structural, Clone, Copy, Debug)]
pub enum ApplyStep {
    /// The file is patched.
    Applied,
    /// The file belongs to a removed feature and may stay as it is.
    SkipFiltered,
    /// Download the file instead.
    FallBack,
    Cancelled,
    /// Wait as after `delay_attempt` attempts and try again.
    Retry { delay_attempt: u32 },
}

/// What to do after attempt number `attempt` to apply a patch.
pub fn after_apply(attempt: u32, applied: bool, filtered: bool, cancelled: bool) -> (r: ApplyStep)
    ensures
        r == if applied {
            ApplyStep::Applied
        } else if filtered {
            ApplyStep::SkipFiltered
        } else if attempt >= MAX_APPLY_ATTEMPTS - 1 {
            ApplyStep::FallBack
        } else if cancelled {
            ApplyStep::Cancelled
        } else {
            ApplyStep::Retry { delay_attempt: attempt }
        },
{
    if applied {
        ApplyStep::Applied
    } else if filtered {
        ApplyStep::SkipFiltered
    } else if attempt >= MAX_APPLY_ATTEMPTS - 1 {
        ApplyStep::FallBack
    } else if cancelled {
        ApplyStep::Cancelled
    } else {
        ApplyStep::Retry { delay_attempt: attempt }
    }
}

/// The wait starts with a second and doubles with every attempt, up to half a
/// minute.
pub proof fn law_delays_double(a: u32)
    requires
        a < u32::MAX,
    ensures
        base_delay(0) == 1000,
        base_delay((a + 1) as u32) == if 2 * base_delay(a) <= 30_000 {
            2 * base_delay(a)
        } else {
            30_000
        },
{
    lemma2_to64();
}

/// A chunk comes only with a download that went well; what came with a wrong
/// checksum is not kept, what a broken transfer has left is; and an error that
/// cannot pass is told as it is, at once.
pub proof fn law_attempts_are_judged(s: ChunkRetry, chunk: Seq<char>, outcome: OutcomeView)
    requires
        s.wf(),
    ensures
        ({
            let (next, step) = s.after(chunk, outcome);
            &&& step is Succeed <==> outcome is Done
            &&& step matches StepView::Retry { discard, delay_attempt } ==> {
                &&& may_pass(outcome)
                &&& discard <==> outcome is HashMismatch
                &&& delay_attempt >= 1
                &&& next.wf()
            }
            &&& outcome matches OutcomeView::Failed { retryable, error } ==> !retryable ==> step
                == StepView::GiveUp(error)
            &&& outcome is HashMismatch ==> next.network_attempts == s.network_attempts
                && next.hash_failures == s.hash_failures + 1
            &&& outcome matches OutcomeView::Failed { retryable, .. } ==> retryable
                ==> next.network_attempts == s.network_attempts + 1 && next.hash_failures
                == s.hash_failures
        }),
{
}

/// A wrong checksum is told apart from every other error.
pub proof fn law_wrong_checksums_are_told_apart(error: ErrorView, retryable: bool)
    ensures
        outcome_of(error, retryable) is HashMismatch <==> error is Md5Mismatch,
        !(error is Md5Mismatch) ==> outcome_of(error, retryable) == (OutcomeView::Failed {
            retryable,
            error,
        }),
{
}

/// The wait before another attempt goes by the failures of the same sort so far,
/// and a chunk that is given up after its last attempt is told as a failed download,
/// by its name and with the number of these failures.
pub proof fn law_failures_are_counted_by_sort(s: ChunkRetry, chunk: Seq<char>, outcome: OutcomeView)
    requires
        s.wf(),
        may_pass(outcome),
    ensures
        ({
            let (next, step) = s.after(chunk, outcome);
            let failures = if outcome is HashMismatch {
                next.hash_failures
            } else {
                next.network_attempts
            };
            let last = if outcome is HashMismatch {
                MAX_HASH_RETRIES
            } else {
                MAX_RETRIES
            };
            &&& failures < last ==> step == (StepView::Retry {
                discard: outcome is HashMismatch,
                delay_attempt: failures,
            })
            &&& failures == last ==> (step matches StepView::GiveUp(e)
                && e matches ErrorView::DownloadFailed { chunk: c, attempts, .. } && c == chunk
                && attempts == failures)
        }),
{
}

/// The random part of a wait is less than a second.
pub proof fn law_waits_are_spread_over_a_second(seed: u64)
    ensures
        0 <= jitter_of(seed) < 1000,
{
}

} // verus!
