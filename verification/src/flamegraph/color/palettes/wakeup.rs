//! The wakeup palette.
use vstd::prelude::*;
use crate::flamegraph::color::BasicPalette;

verus! {

/// Every frame of a wakeup graph is aqua.
pub fn resolve(_name: &str) -> (r: BasicPalette)
    ensures
        r == BasicPalette::Aqua,
{
    BasicPalette::Aqua
}

} // verus!
