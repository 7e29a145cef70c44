//! Errors of the timer.

use vstd::prelude::*;

verus! {

/// What went wrong in the timer's configuration or in a batch call.
#[derive(Debug, Clone, PartialEq, Eq)]
pub enum TimerError {
    /// A configuration value is out of range.
    InvalidConfiguration { field: String, reason: String },
    /// A layer's slot count is zero or not a power of two.
    InvalidSlotCount { slot_count: usize, reason: &'static str },
    /// A batch insertion got a different number of handles and tasks.
    BatchLengthMismatch { handles_len: usize, tasks_len: usize },
}

} // verus!
