//! How a finished task is reported, and whether a new task may start.
use vstd::prelude::*;
use crate::archives::CANCELLED;
use crate::models::TaskError;
use crate::text::str_eq;

verus! {

/// Whether an error message is the cancellation sentinel.
pub fn is_cancelled(msg: &str) -> (r: bool)
    ensures
        r == (msg@ == CANCELLED@),
{
    str_eq(msg, CANCELLED)
}

/// The `task:error` payload for a failed task: a cancellation is shown as
/// "Operation cancelled", any other message as it is.
pub fn task_error(msg: String) -> (r: TaskError)
    ensures
        r.cancelled == (msg@ == CANCELLED@),
        r.message@ == if msg@ == CANCELLED@ { "Operation cancelled"@ } else { msg@ },
{
    let cancelled = is_cancelled(msg.as_str());
    TaskError {
        message: if cancelled {
            String::from_str("Operation cancelled")
        } else {
            msg
        },
        cancelled,
    }
}

/// Whether a task may start: not while another one runs, and a compression
/// needs at least one input. Also gives the value the busy flag keeps: it
/// stays set while another task runs, is cleared when the request is
/// refused for want of inputs, and is set for the new task.
pub fn admit_task(was_busy: bool, has_inputs: bool) -> (r: (Result<(), String>, bool))
    ensures
        was_busy ==> (r.0 matches Err(e) && e@ == "Another task is already running"@) && r.1,
        !was_busy && !has_inputs ==> (r.0 matches Err(e) && e@ == "No files selected"@) && !r.1,
        !was_busy && has_inputs ==> r.0 is Ok && r.1,
{
    if was_busy {
        (Err(String::from_str("Another task is already running")), true)
    } else if !has_inputs {
        (Err(String::from_str("No files selected")), false)
    } else {
        (Ok(()), true)
    }
}

} // verus!
