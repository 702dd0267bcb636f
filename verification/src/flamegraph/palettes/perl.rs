//! The Perl palette.
use vstd::prelude::*;
use crate::flamegraph::color::BasicPalette;
use crate::flamegraph::color::palettes::perl::perl_palette;
use crate::text::{chars_of, contains_chars, ends_with_chars};

verus! {

/// Kernel (orange), Perl (green), C++ (yellow), else system (red).
pub fn resolve(name: &str) -> (r: BasicPalette)
    ensures
        r == perl_palette(name@),
{
    let chars = chars_of(name);
    let s = chars.as_slice();
    if ends_with_chars(s, chars_of("_[k]").as_slice()) {
        BasicPalette::Orange
    } else if contains_chars(s, chars_of("Perl").as_slice()) || contains_chars(s, chars_of(".pl").as_slice()) {
        BasicPalette::Green
    } else if contains_chars(s, chars_of("::").as_slice()) {
        BasicPalette::Yellow
    } else {
        BasicPalette::Red
    }
}

} // verus!
