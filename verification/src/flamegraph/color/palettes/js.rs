//! The JavaScript palette.
use vstd::prelude::*;
use crate::flamegraph::color::BasicPalette;
use crate::text::{
    chars_of, contains, contains_chars, ends_with, ends_with_chars, find, find_chars, trim,
    trim_bounds,
};

verus! {

/// Blank names (green), kernel (orange), JIT (green with a path, else aqua), C++ (yellow),
/// names with `:` (aqua), `.js` files in a path (green), else red.
pub open spec fn js_palette(name: Seq<char>) -> BasicPalette {
    if name.len() > 0 && trim(name).len() == 0 {
        BasicPalette::Green
    } else if ends_with(name, "_[k]"@) {
        BasicPalette::Orange
    } else if ends_with(name, "_[j]"@) {
        if contains(name, seq!['/']) { BasicPalette::Green } else { BasicPalette::Aqua }
    } else if contains(name, "::"@) {
        BasicPalette::Yellow
    } else if contains(name, seq![':']) {
        BasicPalette::Aqua
    } else {
        match find(name, seq!['/']) {
            Some(ai) => if contains(name.skip(ai), ".js"@) { BasicPalette::Green } else { BasicPalette::Red },
            None => BasicPalette::Red,
        }
    }
}

pub fn resolve(name: &str) -> (r: BasicPalette)
    ensures
        r == js_palette(name@),
{
    let chars = chars_of(name);
    let s = chars.as_slice();
    let (a, b) = trim_bounds(s, 0, s.len());
    assert(s@.subrange(0, s@.len() as int) =~= s@);
    let slash: [char; 1] = ['/'];
    let colon: [char; 1] = [':'];
    assert(slash@ =~= seq!['/']);
    assert(colon@ =~= seq![':']);
    if s.len() > 0 && a == b {
        BasicPalette::Green
    } else if ends_with_chars(s, chars_of("_[k]").as_slice()) {
        BasicPalette::Orange
    } else if ends_with_chars(s, chars_of("_[j]").as_slice()) {
        if contains_chars(s, slash.as_slice()) { BasicPalette::Green } else { BasicPalette::Aqua }
    } else if contains_chars(s, chars_of("::").as_slice()) {
        BasicPalette::Yellow
    } else if contains_chars(s, colon.as_slice()) {
        BasicPalette::Aqua
    } else {
        proof { crate::text::lemma_find_from_bounds(s@, seq!['/'], 0); }
        match find_chars(s, slash.as_slice()) {
            Some(ai) => {
                let rest = &s[ai..s.len()];
                assert(rest@ =~= s@.skip(ai as int));
                if contains_chars(rest, chars_of(".js").as_slice()) { BasicPalette::Green } else { BasicPalette::Red }
            },
            None => BasicPalette::Red,
        }
    }
}

} // verus!
