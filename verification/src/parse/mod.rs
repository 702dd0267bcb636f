//! Reading profiler output one stack trace at a time.
pub mod dtrace;

use vstd::prelude::*;
use crate::text::strs_view;

verus! {

/// One stack trace with the number of times it was seen.
pub struct Trace {
    /// The frames of the stack, outermost first.
    pub stack: Vec<String>,
    /// How often the stack was seen.
    pub count: u64,
}

/// A trace as plain values: its frames and its count.
pub open spec fn trace_view(t: Option<Trace>) -> Option<(Seq<Seq<char>>, u64)> {
    match t {
        Some(t) => Some((strs_view(t.stack@), t.count)),
        None => None,
    }
}

} // verus!
