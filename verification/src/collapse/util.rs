//! Repairing Rust symbols that profilers only half demangled.
use vstd::prelude::*;
use vstd::string::StringSliceAdditionalSpecFns;
use crate::text::{
    chars_of, ends_with, find_chars_from, find_from, is_hex_digit, lemma_find_from_bounds,
    lemma_find_from_suffix, push_range, starts_with, string_from_chars,
};

verus! {

/// Length of the `h`-prefixed hexadecimal hash at the end of a mangled Rust symbol.
pub const RUST_HASH_LENGTH: usize = 17;

/// A Rust hash is an `h` followed by hexadecimal digits.
pub open spec fn is_rust_hash(s: Seq<char>) -> bool {
    &&& s.len() >= 1
    &&& s[0] == 'h'
    &&& forall|i: int| 1 <= i < s.len() ==> is_hex_digit(s[i])
}

/// The character that a `$code$` escape of a legacy mangled symbol stands for.
pub open spec fn escape_char(code: Seq<char>) -> Option<char> {
    if code.len() == 1 {
        if code[0] == 'C' { Some(',') } else { None }
    } else if code.len() == 2 {
        let (a, b) = (code[0], code[1]);
        if a == 'S' && b == 'P' { Some('@') }
        else if a == 'B' && b == 'P' { Some('*') }
        else if a == 'R' && b == 'F' { Some('&') }
        else if a == 'L' && b == 'T' { Some('<') }
        else if a == 'G' && b == 'T' { Some('>') }
        else if a == 'L' && b == 'P' { Some('(') }
        else if a == 'R' && b == 'P' { Some(')') }
        else { None }
    } else if code.len() == 3 && code[0] == 'u' {
        let (a, b) = (code[1], code[2]);
        if a == '7' && b == 'e' { Some('~') }
        else if a == '2' && b == '0' { Some(' ') }
        else if a == '2' && b == '7' { Some('\'') }
        else if a == '3' && b == 'd' { Some('=') }
        else if a == '5' && b == 'b' { Some('[') }
        else if a == '5' && b == 'd' { Some(']') }
        else if a == '7' && b == 'b' { Some('{') }
        else if a == '7' && b == 'd' { Some('}') }
        else if a == '3' && b == 'b' { Some(';') }
        else if a == '2' && b == 'b' { Some('+') }
        else if a == '2' && b == '1' { Some('!') }
        else if a == '2' && b == '2' { Some('"') }
        else { None }
    } else {
        None
    }
}

/// Demangling of the part of a symbol that follows the path prefix handling:
/// `..` becomes `::`, `$code$` escapes become their character, and an escape
/// that is not recognised ends the demangling with the rest copied verbatim.
pub open spec fn demangle_tail(rest: Seq<char>) -> Seq<char>
    decreases rest.len(),
{
    if rest.len() == 0 {
        Seq::empty()
    } else if rest[0] == '.' {
        if rest.len() > 1 && rest[1] == '.' {
            seq![':', ':'] + demangle_tail(rest.skip(2))
        } else {
            seq!['.'] + demangle_tail(rest.skip(1))
        }
    } else if rest[0] == '$' {
        proof { lemma_find_from_bounds(rest, seq!['$'], 1); }
        match find_from(rest, seq!['$'], 1) {
            Some(j) => match escape_char(rest.subrange(1, j)) {
                Some(c) => seq![c] + demangle_tail(rest.skip(j + 1)),
                None => rest,
            },
            None => rest,
        }
    } else {
        seq![rest[0]] + demangle_tail(rest.skip(1))
    }
}

/// Whether the byte `RUST_HASH_LENGTH` from the end of the UTF-8 encoding of `s` starts a
/// character, or `s` is shorter than that, so that the trailing hash can be cut off by bytes.
pub open spec fn hash_split_ok(s: Seq<char>) -> bool {
    let b = vstd::utf8::encode_utf8(s);
    b.len() < RUST_HASH_LENGTH || vstd::utf8::is_char_boundary(b, b.len() - RUST_HASH_LENGTH)
}

/// Tests `hash_split_ok` on a symbol.
pub fn hash_splits(symbol: &str) -> (b: bool)
    ensures
        b == hash_split_ok(symbol@),
{
    let n = symbol.as_bytes().len();
    n < RUST_HASH_LENGTH || symbol.is_char_boundary(n - RUST_HASH_LENGTH)
}

/// Whether the symbol ends in a Rust hash.
pub open spec fn has_rust_hash(s: Seq<char>) -> bool {
    s.len() >= RUST_HASH_LENGTH && is_rust_hash(s.skip(s.len() - RUST_HASH_LENGTH))
}

/// What `fix_partially_demangled_rust_symbol` makes of a symbol.
pub open spec fn fixed_symbol(s: Seq<char>) -> Seq<char> {
    if !has_rust_hash(s) {
        s
    } else {
        let r0 = s.take(s.len() - RUST_HASH_LENGTH);
        let r1 = if ends_with(r0, seq![':', ':']) { r0.take(r0.len() - 2) } else { r0 };
        let r2 = if starts_with(r1, seq!['_', '$']) { r1.skip(1) } else { r1 };
        demangle_tail(r2)
    }
}

fn is_hex_digit_char(c: char) -> (b: bool)
    ensures
        b == is_hex_digit(c),
{
    ('0' <= c && c <= '9') || ('a' <= c && c <= 'f') || ('A' <= c && c <= 'F')
}

/// Whether the characters from `start` to the end of `s` form a Rust hash.
fn is_rust_hash_from(s: &[char], start: usize) -> (b: bool)
    requires
        start <= s.len(),
    ensures
        b == is_rust_hash(s@.skip(start as int)),
{
    if start >= s.len() || s[start] != 'h' {
        return false;
    }
    let mut i = start + 1;
    while i < s.len()
        invariant
            start < i <= s.len(),
            forall|k: int| start + 1 <= k < i ==> is_hex_digit(s@[k]),
        decreases s.len() - i,
    {
        if !is_hex_digit_char(s[i]) {
            assert(!is_hex_digit(s@.skip(start as int)[i - start]));
            return false;
        }
        i += 1;
    }
    assert forall|k: int| 1 <= k < s@.skip(start as int).len() implies is_hex_digit(
        s@.skip(start as int)[k],
    ) by {
        assert(s@.skip(start as int)[k] == s@[start + k]);
    }
    true
}

/// The character a `$code$` escape stands for, where the code is `s[lo..hi]`.
fn escape_char_at(s: &[char], lo: usize, hi: usize) -> (r: Option<char>)
    requires
        lo <= hi <= s.len(),
    ensures
        r == escape_char(s@.subrange(lo as int, hi as int)),
{
    let ghost code = s@.subrange(lo as int, hi as int);
    let n = hi - lo;
    if n == 1 {
        assert(code[0] == s@[lo as int]);
        if s[lo] == 'C' { Some(',') } else { None }
    } else if n == 2 {
        assert(code[0] == s@[lo as int] && code[1] == s@[lo + 1]);
        let (a, b) = (s[lo], s[lo + 1]);
        if a == 'S' && b == 'P' { Some('@') }
        else if a == 'B' && b == 'P' { Some('*') }
        else if a == 'R' && b == 'F' { Some('&') }
        else if a == 'L' && b == 'T' { Some('<') }
        else if a == 'G' && b == 'T' { Some('>') }
        else if a == 'L' && b == 'P' { Some('(') }
        else if a == 'R' && b == 'P' { Some(')') }
        else { None }
    } else if n == 3 && s[lo] == 'u' {
        assert(code[0] == s@[lo as int] && code[1] == s@[lo + 1] && code[2] == s@[lo + 2]);
        let (a, b) = (s[lo + 1], s[lo + 2]);
        if a == '7' && b == 'e' { Some('~') }
        else if a == '2' && b == '0' { Some(' ') }
        else if a == '2' && b == '7' { Some('\'') }
        else if a == '3' && b == 'd' { Some('=') }
        else if a == '5' && b == 'b' { Some('[') }
        else if a == '5' && b == 'd' { Some(']') }
        else if a == '7' && b == 'b' { Some('{') }
        else if a == '7' && b == 'd' { Some('}') }
        else if a == '3' && b == 'b' { Some(';') }
        else if a == '2' && b == 'b' { Some('+') }
        else if a == '2' && b == '1' { Some('!') }
        else if a == '2' && b == '2' { Some('"') }
        else { None }
    } else {
        if n == 3 {
            assert(code[0] == s@[lo as int]);
        }
        None
    }
}

/// Demangles partially demangled Rust symbols that were demangled incorrectly by profilers like
/// `sample` and `DTrace`.
///
/// For example
/// `_$LT$grep_searcher..searcher..glue..ReadByLine$LT$$u27$s$C$$u20$M$C$$u20$R$C$$u20$S$GT$$GT$::run::h30ecedc997ad7e32`
/// becomes `<grep_searcher::searcher::glue::ReadByLine<'s, M, R, S>>::run`.
///
/// Non-Rust symbols, or Rust symbols that are already demangled, are returned unchanged.
pub fn fix_partially_demangled_rust_symbol(symbol: &str) -> (r: String)
    ensures
        r@ == fixed_symbol(symbol@),
{
    let chars = chars_of(symbol);
    let n = chars.len();
    if n < RUST_HASH_LENGTH || !is_rust_hash_from(chars.as_slice(), n - RUST_HASH_LENGTH) {
        return symbol.to_owned();
    }
    let ghost s = chars@;
    let mut end = n - RUST_HASH_LENGTH;
    let ghost r0 = s.take(end as int);
    if end >= 2 && chars[end - 2] == ':' && chars[end - 1] == ':' {
        assert(r0.subrange(r0.len() - 2, r0.len() as int) =~= seq![':', ':']);
        end -= 2;
    } else {
        assert(end >= 2 ==> r0.subrange(r0.len() - 2, r0.len() as int)[0] == chars@[end - 2]);
        assert(end >= 2 ==> r0.subrange(r0.len() - 2, r0.len() as int)[1] == chars@[end - 1]);
    }
    let ghost r1 = s.take(end as int);
    assert(r1 == (if ends_with(r0, seq![':', ':']) { r0.take(r0.len() - 2) } else { r0 }));
    let body: &[char] = &chars.as_slice()[0..end];
    assert(body@ == r1);
    let mut i: usize = 0;
    if end >= 2 && body[0] == '_' && body[1] == '$' {
        assert(r1.subrange(0, 2) =~= seq!['_', '$']);
        i = 1;
    } else {
        assert(end >= 2 ==> r1.subrange(0, 2)[0] == body@[0] && r1.subrange(0, 2)[1] == body@[1]);
    }
    let ghost r2 = body@.subrange(i as int, end as int);
    assert(r2 == (if starts_with(r1, seq!['_', '$']) { r1.skip(1) } else { r1 }));
    let mut out: Vec<char> = Vec::new();
    while i < end
        invariant
            i <= end == body@.len(),
            out@ + demangle_tail(body@.subrange(i as int, end as int)) == demangle_tail(r2),
        decreases end - i,
    {
        let ghost rest = body@.subrange(i as int, end as int);
        if body[i] == '.' {
            if i + 1 < end && body[i + 1] == '.' {
                out.push(':');
                out.push(':');
                assert(rest.skip(2) =~= body@.subrange(i + 2, end as int));
                assert(out@ + demangle_tail(body@.subrange(i + 2, end as int)) =~= (out@.drop_last().drop_last() + (seq![':', ':'] + demangle_tail(rest.skip(2)))));
                i += 2;
            } else {
                out.push('.');
                assert(rest.skip(1) =~= body@.subrange(i + 1, end as int));
                assert(out@ + demangle_tail(body@.subrange(i + 1, end as int)) =~= (out@.drop_last() + (seq!['.'] + demangle_tail(rest.skip(1)))));
                i += 1;
            }
        } else if body[i] == '$' {
            proof {
                lemma_find_from_suffix(body@, seq!['$'], i as int, 1);
                lemma_find_from_bounds(body@, seq!['$'], i + 1);
            }
            let dollar: [char; 1] = ['$'];
            assert(dollar@ =~= seq!['$']);
            match find_chars_from(body, dollar.as_slice(), i + 1) {
                Some(j) => {
                    assert(rest.subrange(1, j - i) =~= body@.subrange(i + 1, j as int));
                    match escape_char_at(body, i + 1, j) {
                        Some(c) => {
                            out.push(c);
                            assert(rest.skip(j - i + 1) =~= body@.subrange(j + 1, end as int));
                            assert(out@ + demangle_tail(body@.subrange(j + 1, end as int)) =~= (out@.drop_last() + (seq![c] + demangle_tail(rest.skip(j - i + 1)))));
                            i = j + 1;
                        },
                        None => {
                            push_range(&mut out, body, i, end);
                            assert(body@.subrange(end as int, end as int) =~= Seq::<char>::empty());
                            i = end;
                        },
                    }
                },
                None => {
                    push_range(&mut out, body, i, end);
                    assert(body@.subrange(end as int, end as int) =~= Seq::<char>::empty());
                    i = end;
                },
            }
        } else {
            out.push(body[i]);
            assert(rest.skip(1) =~= body@.subrange(i + 1, end as int));
            assert(out@ + demangle_tail(body@.subrange(i + 1, end as int)) =~= (out@.drop_last() + (seq![body@[i as int]] + demangle_tail(rest.skip(1)))));
            i += 1;
        }
    }
    assert(body@.subrange(end as int, end as int) =~= Seq::<char>::empty());
    string_from_chars(out.as_slice())
}

} // verus!
