//! The Perl palette.
use vstd::prelude::*;
use crate::flamegraph::color::BasicPalette;
use crate::text::{chars_of, contains, contains_chars, ends_with, ends_with_chars};

verus! {

/// Kernel (orange), Perl (green), C++ (yellow), else system (red).
pub open spec fn perl_palette(name: Seq<char>) -> BasicPalette {
    if ends_with(name, "_[k]"@) {
        BasicPalette::Orange
    } else if contains(name, "Perl"@) || contains(name, ".pl"@) {
        BasicPalette::Green
    } else if contains(name, "::"@) {
        BasicPalette::Yellow
    } else {
        BasicPalette::Red
    }
}

pub fn resolve(name: &str) -> (r: BasicPalette)
    ensures
        r == perl_palette(name@),
{
    let chars = chars_of(name);
    let s = chars.as_slice();
    if ends_with_chars(s, chars_of("_[k]").as_slice()) {
        BasicPalette::Orange
    } else if contains_chars(s, chars_of("Perl").as_slice()) || contains_chars(s, chars_of(".pl").as_slice()) {
        BasicPalette::Green
    } else if contains_chars(s, chars_of("::").as_slice()) {
        BasicPalette::Yellow
    } else {
        BasicPalette::Red
    }
}

} // verus!
