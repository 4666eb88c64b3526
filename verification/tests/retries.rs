use irmin::game_installer::apply_run::{ApplyDo, ApplyEvent, ApplyRun, ApplyStage};
use irmin::game_installer::error::SophonError;
use irmin::game_installer::flow::{PROGRESS_UPDATE_INTERVAL_MS, SPEED_SMOOTH_WINDOW_SECS};
use irmin::game_installer::preinstall_apply::ApplyAction;
use irmin::game_installer::retry::{
    after_apply, after_failed_download_over, after_failed_fetch, attempt_warning, delay_millis,
    failed_attempt, retry_delay,
    ApplyStep, AttemptOutcome, ChunkRetry, NextStep, MAX_APPLY_ATTEMPTS, MAX_HASH_RETRIES,
    MAX_RETRIES,
};
use std::time::Duration;

#[test]
fn retry_delay_exponential() {
    // Base delays with jitter (0-999ms added)
    assert!(retry_delay(0) >= Duration::from_millis(1000));
    assert!(retry_delay(0) < Duration::from_millis(2000));
    assert!(retry_delay(1) >= Duration::from_millis(2000));
    assert!(retry_delay(1) < Duration::from_millis(3000));
    assert!(retry_delay(2) >= Duration::from_millis(4000));
    assert!(retry_delay(2) < Duration::from_millis(5000));
    assert!(retry_delay(3) >= Duration::from_millis(8000));
    assert!(retry_delay(3) < Duration::from_millis(9000));
    assert!(retry_delay(4) >= Duration::from_millis(16000));
    assert!(retry_delay(4) < Duration::from_millis(17000));
}

#[test]
fn retry_delay_capped_at_30s() {
    // Capped at 30000 + jitter (up to ~30999ms)
    assert!(retry_delay(5) >= Duration::from_millis(30000));
    assert!(retry_delay(5) < Duration::from_millis(31000));
    assert!(retry_delay(10) >= Duration::from_millis(30000));
    assert!(retry_delay(10) < Duration::from_millis(31000));
    assert!(retry_delay(100) >= Duration::from_millis(30000));
    assert!(retry_delay(100) < Duration::from_millis(31000));
}

#[test]
fn ewma_update_speed_window_alpha() {
    let alpha =
        1.0 / (SPEED_SMOOTH_WINDOW_SECS as f64 * 1000.0 / PROGRESS_UPDATE_INTERVAL_MS as f64);
    assert!((alpha - 0.2).abs() < 0.001);
}

#[test]
fn retry_delay_first_attempt_is_1000ms() {
    // Base 1000 ms + jitter (0-999 ms).
    let delay = retry_delay(0_u32).as_millis();
    assert!(
        (1000..2000).contains(&delay),
        "expected 1000-1999, got {}",
        delay
    );
}

#[test]
fn retry_delay_doubles_up_to_fifth_attempt() {
    // attempt 0 -> 1 s + jitter
    let d0 = retry_delay(0_u32).as_millis();
    assert!(
        (1000..2000).contains(&d0),
        "attempt 0: expected 1000-1999, got {}",
        d0
    );
    // attempt 1 -> 2 s + jitter
    let d1 = retry_delay(1_u32).as_millis();
    assert!(
        (2000..3000).contains(&d1),
        "attempt 1: expected 2000-2999, got {}",
        d1
    );
    // attempt 2 -> 4 s + jitter
    let d2 = retry_delay(2_u32).as_millis();
    assert!(
        (4000..5000).contains(&d2),
        "attempt 2: expected 4000-4999, got {}",
        d2
    );
    // attempt 3 -> 8 s + jitter
    let d3 = retry_delay(3_u32).as_millis();
    assert!(
        (8000..9000).contains(&d3),
        "attempt 3: expected 8000-8999, got {}",
        d3
    );
    // attempt 4 -> 16 s + jitter
    let d4 = retry_delay(4_u32).as_millis();
    assert!(
        (16000..17000).contains(&d4),
        "attempt 4: expected 16000-16999, got {}",
        d4
    );
    // attempt 5 -> 32 s, capped to 30 s + jitter
    let d5 = retry_delay(5_u32).as_millis();
    assert!(
        (30000..31000).contains(&d5),
        "attempt 5: expected 30000-30999, got {}",
        d5
    );
}

#[test]
fn retry_delay_caps_at_30_seconds_for_larger_attempts() {
    // Capped at 30000 + jitter (up to ~30999 ms)
    let d5 = retry_delay(5_u32).as_millis();
    assert!(
        (30000..31000).contains(&d5),
        "attempt 5: expected 30000-30999, got {}",
        d5
    );
    let d6 = retry_delay(6_u32).as_millis();
    assert!(
        (30000..31000).contains(&d6),
        "attempt 6: expected 30000-30999, got {}",
        d6
    );
    let d50 = retry_delay(50_u32).as_millis();
    assert!(
        (30000..31000).contains(&d50),
        "attempt 50: expected 30000-30999, got {}",
        d50
    );
}

#[test]
fn retry_delay_max_attempt_caps_before_multiply() {
    let d10 = retry_delay(10).as_millis();
    assert!(
        (30000..31000).contains(&d10),
        "attempt 10: expected 30000-30999, got {}",
        d10
    );
    let d100 = retry_delay(100).as_millis();
    assert!(
        (30000..31000).contains(&d100),
        "attempt 100: expected 30000-30999, got {}",
        d100
    );
}

/// The jitter is `(seed * 1103515245 + 12345) % 1000`, in 64 bits.
#[test]
fn delays_have_the_expected_values() {
    assert_eq!(delay_millis(0, 0), 1345);
    assert_eq!(delay_millis(2, 1), 4590);
    assert_eq!(delay_millis(9, 0), 30345);
}

#[test]
fn chunks_are_tried_a_bounded_number_of_times() {
    let mut retry = ChunkRetry::new();
    let mut tries = 0;
    loop {
        tries += 1;
        let outcome = AttemptOutcome::Failed {
            retryable: true,
            error: SophonError::Http("503".into()),
        };
        match retry.after_attempt("chunk", outcome) {
            NextStep::Retry { discard, .. } => assert!(!discard),
            NextStep::GiveUp(SophonError::DownloadFailed { chunk, attempts, .. }) => {
                assert_eq!(chunk, "chunk");
                assert_eq!(attempts, MAX_RETRIES);
                break;
            }
            _ => panic!("unexpected step"),
        }
    }
    assert_eq!(tries, MAX_RETRIES);

    let mut retry = ChunkRetry::new();
    let mut tries = 0;
    loop {
        tries += 1;
        match retry.after_attempt("chunk", AttemptOutcome::HashMismatch) {
            NextStep::Retry { discard, .. } => assert!(discard),
            NextStep::GiveUp(_) => break,
            NextStep::Succeed => panic!("a mismatch is no success"),
        }
    }
    assert_eq!(tries, MAX_HASH_RETRIES);

    let mut retry = ChunkRetry::new();
    assert!(matches!(
        retry.after_attempt("chunk", AttemptOutcome::Done),
        NextStep::Succeed
    ));
    let outcome = AttemptOutcome::Failed {
        retryable: false,
        error: SophonError::NoGameManifest,
    };
    assert!(matches!(
        retry.after_attempt("chunk", outcome),
        NextStep::GiveUp(SophonError::NoGameManifest)
    ));
}

#[test]
fn failed_fetches_are_retried() {
    let step = after_failed_fetch("p", 0, 5, true, SophonError::Http("503".into()));
    assert!(matches!(
        step,
        NextStep::Retry {
            discard: false,
            delay_attempt: 0
        }
    ));
    let step = after_failed_fetch("p", 4, 5, true, SophonError::Http("503".into()));
    match step {
        NextStep::GiveUp(SophonError::DownloadFailed {
            chunk,
            attempts,
            error,
        }) => {
            assert_eq!(chunk, "p");
            assert_eq!(attempts, 5);
            assert!(error.contains("503"));
        }
        _ => panic!("unexpected step"),
    }
}

#[test]
fn failed_patches_fall_back_to_a_download() {
    assert_eq!(after_apply(0, true, false, false), ApplyStep::Applied);
    assert_eq!(after_apply(0, false, true, false), ApplyStep::SkipFiltered);
    assert_eq!(
        after_apply(1, false, false, false),
        ApplyStep::Retry { delay_attempt: 1 }
    );
    assert_eq!(after_apply(1, false, false, true), ApplyStep::Cancelled);
    assert_eq!(
        after_apply(MAX_APPLY_ATTEMPTS - 1, false, false, false),
        ApplyStep::FallBack
    );
    let step = after_failed_download_over(4, true, SophonError::Http("503".into()));
    assert!(matches!(step, NextStep::GiveUp(SophonError::Http(_))));
}

/// A patch that never applies is tried five times and then downloaded, and a
/// download that never comes ends the whole run.
#[test]
fn a_file_comes_to_the_end_of_its_way() {
    let mut run = ApplyRun::new(false);
    let mut next = run.step(ApplyEvent::Looked(ApplyAction::Patch), false);
    let mut patches = 0;
    let mut fetches = 0;
    let mut pauses = 0;
    loop {
        next = match next {
            ApplyDo::Patch => {
                patches += 1;
                run.step(ApplyEvent::Tried { applied: false }, false)
            }
            ApplyDo::Fetch => {
                fetches += 1;
                let error = SophonError::Http("503".into());
                run.step(
                    ApplyEvent::FetchFailed {
                        error,
                        retryable: true,
                    },
                    false,
                )
            }
            ApplyDo::Wait { .. } => {
                pauses += 1;
                run.step(ApplyEvent::Woken, false)
            }
            ApplyDo::Fail(e) => {
                assert!(matches!(e, SophonError::Http(_)));
                break;
            }
            other => panic!("unexpected {other:?}"),
        };
    }
    assert_eq!(patches, 5);
    assert_eq!(fetches, 5);
    assert_eq!(pauses, 8);
    assert_eq!(run.stage, ApplyStage::Ended);

    let mut removed = ApplyRun::new(true);
    removed.step(ApplyEvent::Looked(ApplyAction::CopyOver), false);
    assert!(matches!(
        removed.step(ApplyEvent::Tried { applied: false }, false),
        ApplyDo::Pass
    ));
    let mut cancelled = ApplyRun::new(false);
    assert!(matches!(
        cancelled.step(ApplyEvent::Looked(ApplyAction::DownloadOver), true),
        ApplyDo::Fail(SophonError::Cancelled)
    ));
    let mut done = ApplyRun::new(false);
    assert!(matches!(
        done.step(ApplyEvent::Looked(ApplyAction::AlreadyDone), false),
        ApplyDo::Pass
    ));
}

#[test]
fn failed_attempts_are_told_apart() {
    let mismatch = SophonError::Md5Mismatch {
        item: "c".to_string(),
        expected: "a".to_string(),
        actual: "b".to_string(),
    };
    assert!(matches!(
        failed_attempt(mismatch, true),
        AttemptOutcome::HashMismatch
    ));
    assert!(matches!(
        failed_attempt(SophonError::Cancelled, false),
        AttemptOutcome::Failed {
            retryable: false,
            error: SophonError::Cancelled
        }
    ));
    assert_eq!(
        attempt_warning("c1", 2, "timed out"),
        "Chunk c1 failed (attempt 2/5): timed out"
    );
}
