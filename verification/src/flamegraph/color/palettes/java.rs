//! The Java palette.
use vstd::prelude::*;
use crate::flamegraph::color::BasicPalette;
use crate::flamegraph::color::palettes::{annotation_palette, annotation_palette_of, java_prefix};
use crate::text::{chars_of, contains, contains_chars, starts_with, starts_with_chars};

verus! {

/// Names in one of the usual Java package hierarchies.
pub open spec fn is_java_package(p: Seq<char>) -> bool {
    starts_with(p, "java/"@) || starts_with(p, "javax/"@) || starts_with(p, "jdk/"@)
        || starts_with(p, "net/"@) || starts_with(p, "org/"@) || starts_with(p, "com/"@)
        || starts_with(p, "io/"@) || starts_with(p, "sun/"@)
}

/// The Java palette: annotations first, then Java packages (green), C++ (yellow), else system (red).
pub open spec fn java_palette(name: Seq<char>) -> BasicPalette {
    match annotation_palette(name) {
        Some(p) => p,
        None => if is_java_package(java_prefix(name)) {
            BasicPalette::Green
        } else if contains(name, "::"@) {
            BasicPalette::Yellow
        } else {
            BasicPalette::Red
        },
    }
}

fn starts_with_lit(s: &[char], lit: &str) -> (b: bool)
    ensures
        b == starts_with(s@, lit@),
{
    let p = chars_of(lit);
    starts_with_chars(s, p.as_slice())
}

/// Handles both annotations (`_[j]`, `_[i]`, ...; which are accurate) and input that lacks
/// annotations, as best as possible: without annotations, Java package prefixes are matched.
pub fn resolve(name: &str) -> (r: BasicPalette)
    ensures
        r == java_palette(name@),
{
    let chars = chars_of(name);
    if let Some(p) = annotation_palette_of(chars.as_slice()) {
        return p;
    }
    let has_l = chars.len() > 0 && chars[0] == 'L';
    assert(has_l == starts_with(name@, seq!['L'])) by {
        let l = seq!['L'];
        assert(l.len() == 1 && l[0] == 'L');
        if chars@.len() > 0 {
            assert(chars@.subrange(0, 1) =~= seq![chars@[0]]);
            if chars@[0] != 'L' {
                assert(chars@.subrange(0, 1)[0] != l[0]);
            }
        }
    }
    let prefix: &[char] = if has_l {
        &chars.as_slice()[1..chars.len()]
    } else {
        chars.as_slice()
    };
    assert(prefix@ =~= java_prefix(name@));
    if starts_with_lit(prefix, "java/") || starts_with_lit(prefix, "javax/")
        || starts_with_lit(prefix, "jdk/") || starts_with_lit(prefix, "net/")
        || starts_with_lit(prefix, "org/") || starts_with_lit(prefix, "com/")
        || starts_with_lit(prefix, "io/") || starts_with_lit(prefix, "sun/") {
        BasicPalette::Green
    } else if contains_chars(chars.as_slice(), chars_of("::").as_slice()) {
        BasicPalette::Yellow
    } else {
        BasicPalette::Red
    }
}

} // verus!
