//! How far files are copied and extended.

use vstd::prelude::*;

verus! {

/// The largest number of bytes to ask for in one copy.
pub open spec fn copy_limit() -> int {
    isize::MAX as int
}

/// How many bytes to ask for next, of `len` bytes of which `copied` are copied.
pub fn next_copy(len: u64, copied: u64) -> (r: Option<usize>)
    ensures
        if copied >= len {
            r is None
        } else {
            r matches Some(n) && n == if len - copied <= copy_limit() {
                len - copied
            } else {
                copy_limit()
            }
        },
{
    if copied >= len {
        return None;
    }
    let left: u64 = len - copied;
    let limit: u64 = isize::MAX as u64;
    if left <= limit {
        Some(left as usize)
    } else {
        Some(limit as usize)
    }
}

/// What follows a copy.
#[derive(Debug, Clone, Copy, PartialEq, Eq, Structural)]
pub enum CopyStep {
    /// The copy failed.
    Failed,
    /// There was nothing left to copy.
    Ended,
    /// So many bytes are copied.
    Copied(u64),
}

/// What follows a copy that `n` came back from: a number of bytes, or a negative
/// number for a failure.
pub fn after_copy(copied: u64, n: isize) -> (r: CopyStep)
    requires
        copied + n <= u64::MAX,
    ensures
        r == if n < 0 {
            CopyStep::Failed
        } else if n == 0 {
            CopyStep::Ended
        } else {
            CopyStep::Copied((copied + n) as u64)
        },
{
    if n < 0 {
        CopyStep::Failed
    } else if n == 0 {
        CopyStep::Ended
    } else {
        CopyStep::Copied(copied + n as u64)
    }
}

/// The size that an output file is brought to, if it is: files are extended, and
/// never cut, so that what an earlier run has written stays.
pub fn extended_len(current: u64, size: u64) -> (r: Option<u64>)
    ensures
        r == if current < size {
            Some(size)
        } else {
            None
        },
{
    if current < size {
        Some(size)
    } else {
        None
    }
}

} // verus!
