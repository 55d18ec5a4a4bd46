//! The worker whose requirements the test book's example chapter
//! annotates (`r[impl obs.log.batch-64-100ms]`).
use vstd::prelude::*;

verus! {

// r[impl obs.log.batch-64-100ms]
/// Queue one log line for the next batch. The example implementation keeps
/// no state: it takes nothing, changes nothing and returns without
/// unwinding.
pub fn push_log_line()
    no_unwind
{
}

} // verus!
