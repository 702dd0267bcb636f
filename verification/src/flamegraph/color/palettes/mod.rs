//! Resolution of semantic palettes to plain palettes from function names.
use vstd::prelude::*;
use crate::flamegraph::color::BasicPalette;
use crate::text::{contains, ends_with, rfind, starts_with, ends_with_chars, rfind_chars};

pub mod java;
pub mod js;
pub mod perl;
pub mod wakeup;

verus! {

/// The palette that a `_[k]`, `_[i]` or `_[j]` annotation at the end of a name selects.
pub open spec fn annotation_palette(name: Seq<char>) -> Option<BasicPalette> {
    if ends_with(name, seq![']']) {
        match rfind(name, seq!['_', '[']) {
            Some(ai) => if name.len() - ai == 4 {
                let c = name[ai + 2];
                if c == 'k' {
                    Some(BasicPalette::Orange)
                } else if c == 'i' {
                    Some(BasicPalette::Aqua)
                } else if c == 'j' {
                    Some(BasicPalette::Green)
                } else {
                    None
                }
            } else {
                None
            },
            None => None,
        }
    } else {
        None
    }
}

/// Reads the kernel/inline/JIT annotation at the end of a name.
pub fn annotation_palette_of(name: &[char]) -> (r: Option<BasicPalette>)
    ensures
        r == annotation_palette(name@),
{
    let close: [char; 1] = [']'];
    let open: [char; 2] = ['_', '['];
    assert(close@ =~= seq![']']);
    assert(open@ =~= seq!['_', '[']);
    if !ends_with_chars(name, close.as_slice()) {
        return None;
    }
    proof { crate::text::lemma_rfind_bounds(name@, seq!['_', '[']); }
    match rfind_chars(name, open.as_slice()) {
        Some(ai) => {
            if name.len() - ai == 4 {
                let c = name[ai + 2];
                if c == 'k' {
                    Some(BasicPalette::Orange)
                } else if c == 'i' {
                    Some(BasicPalette::Aqua)
                } else if c == 'j' {
                    Some(BasicPalette::Green)
                } else {
                    None
                }
            } else {
                None
            }
        },
        None => None,
    }
}

/// The name with one leading `L` (a JVM class descriptor marker) removed.
pub open spec fn java_prefix(name: Seq<char>) -> Seq<char> {
    if starts_with(name, seq!['L']) { name.skip(1) } else { name }
}

} // verus!
