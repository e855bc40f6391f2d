//! The decisions that pace a long-running task: when to stop for a
//! cancellation, when to wait while paused, and when to report progress.
use vstd::prelude::*;

verus! {

/// What a worker does at a checkpoint.
#[derive(Debug, Clone, Copy, PartialEq, Eq, Structural)]
pub enum Gate {
    /// Stop: the task was cancelled.
    Abort,
    /// Sleep a little and look again: the task is paused.
    Wait,
    /// Carry on.
    Go,
}

/// The checkpoint a worker passes between two entries and before each read
/// of a streamed entry: a cancelled task stops, also while it waits in a
/// pause (a cancel wins and aborts); a paused task waits until it is
/// resumed; otherwise it carries on.
pub open spec fn gate_of(cancelled: bool, paused: bool) -> Gate {
    if cancelled {
        Gate::Abort
    } else if paused {
        Gate::Wait
    } else {
        Gate::Go
    }
}

pub fn check_gate(cancelled: bool, paused: bool) -> (r: Gate)
    ensures
        r == gate_of(cancelled, paused),
{
    if cancelled {
        Gate::Abort
    } else if paused {
        Gate::Wait
    } else {
        Gate::Go
    }
}

/// Bytes read since the last report after which a report is due.
pub const REPORT_BYTES: u64 = 2_097_152;

/// Whether a streamed read of `n` bytes is reported: it read something, and
/// 100 ms have passed since the last report, or the total is reached, or
/// 2 MiB were read since the last report.
pub open spec fn read_reported(n: nat, current: nat, last_bytes: nat, total: nat, elapsed_ms: nat) -> bool {
    n > 0 && (elapsed_ms >= 100 || current + n >= total || current + n - last_bytes >= REPORT_BYTES)
}

/// Counts a read of `n` bytes into `current` and says whether to report
/// progress now; a report moves `last_bytes` up to `current`.
pub fn record_read(current: &mut u64, last_bytes: &mut u64, total: u64, n: u64, elapsed_ms: u64) -> (report: bool)
    requires
        *old(current) + n <= u64::MAX,
        *old(last_bytes) <= *old(current),
    ensures
        *final(current) == *old(current) + n,
        report == read_reported(n as nat, *old(current) as nat, *old(last_bytes) as nat, total as nat, elapsed_ms as nat),
        *final(last_bytes) == if report { *final(current) } else { *old(last_bytes) },
        *final(last_bytes) <= *final(current),
        n > 0 && !report ==> *final(current) - *final(last_bytes) < REPORT_BYTES && *final(current) < total,
{
    if n == 0 {
        return false;
    }
    *current = *current + n;
    if elapsed_ms >= 100 || *current >= total || *current - *last_bytes >= REPORT_BYTES {
        *last_bytes = *current;
        true
    } else {
        false
    }
}

/// Whether progress is reported after an entry or a chunk: 100 ms have
/// passed since the last report, or the total is reached.
pub open spec fn progress_due_of(elapsed_ms: nat, current: nat, total: nat) -> bool {
    elapsed_ms >= 100 || current >= total
}

pub fn progress_due(elapsed_ms: u64, current: u64, total: u64) -> (r: bool)
    ensures
        r == progress_due_of(elapsed_ms as nat, current as nat, total as nat),
{
    elapsed_ms >= 100 || current >= total
}

} // verus!
