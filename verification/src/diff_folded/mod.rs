//! Differential folded stacks: two profiles of folded lines `stack count` become lines
//! `stack count1 count2`, one per stack seen in either profile, from which a differential
//! flame graph is drawn.
use vstd::prelude::*;
use crate::collapse::common::{added_count, Occurrences};
use crate::collapse::perf::{input_lines, read_lines};
use crate::keyed::{keyed_map, sorted_keys};
use crate::text::{
    chars_of, decimal_text, find, find_chars_from, find_from, is_hex_digit, lemma_find_from_bounds,
    lemma_find_from_suffix, lemma_rfind_bounds, parse_usize_str, parse_usize_text, push_decimal,
    push_range, push_str, rfind, rfind_chars, string_from_chars, strs_view, trailing_ws_in,
    trim_end, all_ascii_digits, all_ascii_digits_in, find_chars,
};

verus! {

/// Settings of the output.
#[derive(Clone, Copy, PartialEq, Eq, Structural, Debug)]
pub struct Options {
    /// Scale the counts of the first profile so that its total matches the second's.
    pub normalize: bool,
    /// Replace hexadecimal numbers such as `0x45ef2173` by `0x...`.
    pub strip_hex: bool,
}

impl Default for Options {
    fn default() -> (o: Options)
        ensures
            !o.normalize && !o.strip_hex,
    {
        Options { normalize: false, strip_hex: false }
    }
}

/// The number of hexadecimal digits from position `i` on.
pub open spec fn hex_run(s: Seq<char>, i: int) -> nat
    decreases s.len() - i,
{
    if i < 0 || i >= s.len() || !is_hex_digit(s[i]) {
        0
    } else {
        1 + hex_run(s, i + 1)
    }
}

pub proof fn lemma_hex_run(s: Seq<char>, i: int)
    requires
        0 <= i <= s.len(),
    ensures
        i + hex_run(s, i) <= s.len(),
    decreases s.len() - i,
{
    if i < s.len() && is_hex_digit(s[i]) {
        lemma_hex_run(s, i + 1);
    }
}

/// `s` with each `0x` and the hexadecimal digits after it replaced by `0x...`; a `0x` with
/// no hexadecimal digit after it is left as it is.
pub open spec fn hex_stripped(s: Seq<char>) -> Seq<char>
    decreases s.len(),
{
    match find(s, seq!['0', 'x']) {
        None => s,
        Some(i) => {
            let n = hex_run(s, i + 2);
            proof {
                lemma_find_from_bounds(s, seq!['0', 'x'], 0);
                lemma_hex_run(s, i + 2);
            }
            if n > 0 {
                s.take(i) + seq!['0', 'x', '.', '.', '.'] + hex_stripped(s.skip(i + 2 + n))
            } else {
                s.take(i + 2) + hex_stripped(s.skip(i + 2))
            }
        },
    }
}

fn hex_run_in(s: &[char], i: usize) -> (n: usize)
    requires
        i <= s.len(),
    ensures
        n == hex_run(s@, i as int),
{
    let mut k = i;
    while k < s.len() && (('0' <= s[k] && s[k] <= '9') || ('a' <= s[k] && s[k] <= 'f') || ('A' <= s[k] && s[k] <= 'F'))
        invariant
            i <= k <= s.len(),
            hex_run(s@, i as int) == (k - i) + hex_run(s@, k as int),
        decreases s.len() - k,
    {
        k += 1;
    }
    k - i
}

/// `hex_run` does not depend on what comes before position `lo`.
proof fn lemma_hex_run_shift(s: Seq<char>, lo: int, i: int)
    requires
        0 <= lo <= i <= s.len(),
    ensures
        hex_run(s.skip(lo), i - lo) == hex_run(s, i),
    decreases s.len() - i,
{
    if i < s.len() {
        assert(s.skip(lo)[i - lo] == s[i]);
        lemma_hex_run_shift(s, lo, i + 1);
    }
}

/// Replaces each `0x` and the hexadecimal digits after it by `0x...`; a `0x` with no
/// hexadecimal digit after it is left as it is.
pub fn strip_hex_address(stack: &str) -> (r: String)
    ensures
        r@ == hex_stripped(stack@),
{
    let c = chars_of(stack);
    let n = c.len();
    let pat: [char; 2] = ['0', 'x'];
    assert(pat@ =~= seq!['0', 'x']);
    let mut out: Vec<char> = Vec::new();
    let mut start: usize = 0;
    assert(c@.skip(0) =~= c@);
    loop
        invariant
            start <= n == c@.len(),
            c@ == stack@,
            pat@ == seq!['0', 'x'],
            hex_stripped(stack@) == out@ + hex_stripped(c@.skip(start as int)),
        decreases n - start,
    {
        let ghost rest = c@.skip(start as int);
        proof {
            lemma_find_from_suffix(c@, seq!['0', 'x'], start as int, 0);
            assert(c@.subrange(start as int, n as int) =~= rest);
            lemma_find_from_bounds(c@, seq!['0', 'x'], start as int);
        }
        match find_chars_from(c.as_slice(), pat.as_slice(), start) {
            None => {
                push_range(&mut out, c.as_slice(), start, n);
                assert(out@ =~= out@.subrange(0, out@.len() - (n - start)) + rest);
                return string_from_chars(out.as_slice());
            },
            Some(at) => {
                let digits = hex_run_in(c.as_slice(), at + 2);
                let ghost i = at - start;
                assert(rest.skip(i + 2) =~= c@.skip(at + 2));
                proof {
                    lemma_hex_run_shift(c@, start as int, at + 2);
                    lemma_hex_run(c@, at + 2);
                }
                let ghost before = out@;
                if digits == 0 {
                    push_range(&mut out, c.as_slice(), start, at + 2);
                    assert(rest.take(i + 2) =~= c@.subrange(start as int, at + 2));
                    assert(out@ =~= before + rest.take(i + 2));
                    start = at + 2;
                    continue;
                }
                push_range(&mut out, c.as_slice(), start, at);
                out.push('0');
                out.push('x');
                out.push('.');
                out.push('.');
                out.push('.');
                assert(rest.take(i) =~= c@.subrange(start as int, at as int));
                assert(rest.skip(i + 2 + digits) =~= c@.skip(at + 2 + digits));
                assert(out@ =~= before + rest.take(i) + seq!['0', 'x', '.', '.', '.']);
                start = at + 2 + digits;
            },
        }
    }
}

/// The whole part of a count: a count with a `.` must have ASCII digits on both sides of it,
/// and its fractional part is dropped.
pub open spec fn whole_part(t: Seq<char>) -> Option<Seq<char>> {
    match find(t, seq!['.']) {
        None => Some(t),
        Some(d) => if all_ascii_digits(t.take(d)) && all_ascii_digits(t.skip(d + 1)) {
            Some(t.take(d))
        } else {
            None
        },
    }
}

/// A folded line split at its last space into the stack (without trailing whitespace) and
/// the count (the rest, without trailing whitespace, its fractional part dropped, read as a
/// `usize`).
pub open spec fn split_count(line: Seq<char>) -> Option<(Seq<char>, usize)> {
    match rfind(line, " "@) {
        None => None,
        Some(ci) => match whole_part(trim_end(line.skip(ci + 1))) {
            None => None,
            Some(w) => match parse_usize_text(w) {
                None => None,
                Some(c) => Some((trim_end(line.take(ci)), c)),
            },
        },
    }
}

/// The whole part of a count, as `whole_part` gives it.
fn whole_part_of(t: &str) -> (r: Option<String>)
    ensures
        match whole_part(t@) {
            None => r is None,
            Some(w) => r matches Some(rw) && rw@ == w,
        },
{
    let c = chars_of(t);
    let dot: [char; 1] = ['.'];
    assert(dot@ =~= seq!['.']);
    proof { lemma_find_from_bounds(c@, seq!['.'], 0); }
    match find_chars(c.as_slice(), dot.as_slice()) {
        None => Some(string_from_chars(c.as_slice())),
        Some(d) => {
            let n = c.len();
            assert(c@.subrange(0, d as int) =~= c@.take(d as int));
            assert(c@.subrange(d + 1, n as int) =~= c@.skip(d + 1));
            if all_ascii_digits_in(c.as_slice(), 0, d) && all_ascii_digits_in(c.as_slice(), d + 1, n) {
                let w = string_from_chars(&c[0..d]);
                assert(w@ =~= c@.take(d as int));
                Some(w)
            } else {
                None
            }
        },
    }
}

/// What a folded line gives: its stack, with hexadecimal numbers replaced where asked, and
/// its count.
pub open spec fn diff_parse(line: Seq<char>, strip_hex: bool) -> Option<(Seq<char>, usize)> {
    match split_count(line) {
        None => None,
        Some((s, c)) => Some((if strip_hex { hex_stripped(s) } else { s }, c)),
    }
}

/// Splits a folded line into its stack and count; a fractional count is cut to its whole
/// part. `None` where it has no space or the count does not read as a `usize`.
pub fn parse_line(line: &str, strip_hex: bool) -> (r: Option<(String, usize)>)
    ensures
        match diff_parse(line@, strip_hex) {
            None => r is None,
            Some((s, c)) => r matches Some((rs, rc)) && rs@ == s && rc == c,
        },
{
    let ch = chars_of(line);
    let n = ch.len();
    let space: [char; 1] = [' '];
    assert(space@ =~= " "@) by { reveal_strlit(" "); }
    proof { lemma_rfind_bounds(ch@, space@); }
    let ci = match rfind_chars(ch.as_slice(), space.as_slice()) {
        None => { return None; },
        Some(ci) => ci,
    };
    let k = trailing_ws_in(ch.as_slice(), ci + 1, n);
    let count_text = string_from_chars(&ch[ci + 1..n - k]);
    assert(count_text@ =~= trim_end(line@.skip(ci + 1))) by {
        assert(ch@.subrange(ci + 1, n as int) =~= line@.skip(ci + 1));
    }
    let whole = match whole_part_of(count_text.as_str()) {
        None => { return None; },
        Some(w) => w,
    };
    let count = match parse_usize_str(whole.as_str()) {
        None => { return None; },
        Some(c) => c,
    };
    let j = trailing_ws_in(ch.as_slice(), 0, ci);
    let stack = string_from_chars(&ch[0..ci - j]);
    assert(stack@ =~= trim_end(line@.take(ci as int))) by {
        assert(ch@.subrange(0, ci as int) =~= line@.take(ci as int));
    }
    if strip_hex {
        Some((strip_hex_address(stack.as_str()), count))
    } else {
        Some((stack, count))
    }
}

/// The count of a stack in a map, 0 where it has none.
pub open spec fn count_of(m: Map<Seq<char>, usize>, k: Seq<char>) -> nat {
    if m.contains_key(k) { m[k] as nat } else { 0 }
}

/// The counts of one profile after its first `k` lines and their total; `None` where a count
/// would overflow.
pub open spec fn diff_fold(lines: Seq<Seq<char>>, strip_hex: bool, k: int) -> Option<(Map<Seq<char>, usize>, nat)>
    decreases k,
{
    if k <= 0 {
        Some((Map::empty(), 0))
    } else {
        match diff_fold(lines, strip_hex, k - 1) {
            None => None,
            Some((m, total)) => match diff_parse(lines[k - 1], strip_hex) {
                None => Some((m, total)),
                Some((s, c)) => {
                    let a = added_count(m, s, c);
                    if a > usize::MAX || total + c > usize::MAX {
                        None
                    } else {
                        Some((m.insert(s, a as usize), (total + c) as nat))
                    }
                },
            },
        }
    }
}

/// The counts of a whole profile and their total.
pub open spec fn profile_counts(text: Seq<char>, strip_hex: bool) -> Option<(Map<Seq<char>, usize>, nat)> {
    diff_fold(read_lines(text), strip_hex, read_lines(text).len() as int)
}

/// A first count scaled by `t2 / t1`, where scaling is asked for.
pub open spec fn scaled(a: nat, scale: Option<(nat, nat)>) -> nat {
    match scale {
        None => a,
        Some((t1, t2)) => (a * t2) / t1,
    }
}

/// One output line: the stack, its two counts, and a newline.
pub open spec fn diff_line(k: Seq<char>, a: nat, b: nat) -> Seq<char> {
    k + seq![' '] + decimal_text(a) + seq![' '] + decimal_text(b) + seq!['\n']
}

/// The output lines for the stacks of `e`, in order.
pub open spec fn diff_output(e: Seq<(Seq<char>, usize)>, m1: Map<Seq<char>, usize>, m2: Map<Seq<char>, usize>, scale: Option<(nat, nat)>) -> Seq<char>
    decreases e.len(),
{
    if e.len() == 0 {
        Seq::empty()
    } else {
        let k = e.last().0;
        diff_output(e.drop_last(), m1, m2, scale) + diff_line(k, scaled(count_of(m1, k), scale), count_of(m2, k))
    }
}

/// Whether scaling the first count of a stack fails: division by a zero total or an
/// overflowing product.
pub open spec fn key_scale_fails(m1: Map<Seq<char>, usize>, k: Seq<char>, scale: Option<(nat, nat)>) -> bool {
    match scale {
        None => false,
        Some((t1, t2)) => t1 == 0 || count_of(m1, k) * t2 > usize::MAX,
    }
}

/// Whether scaling fails for some stack of either profile.
pub open spec fn scale_fails(m1: Map<Seq<char>, usize>, m2: Map<Seq<char>, usize>, scale: Option<(nat, nat)>) -> bool {
    exists|k: Seq<char>| (#[trigger] m1.contains_key(k) || m2.contains_key(k)) && key_scale_fails(m1, k, scale)
}

/// Reads the folded lines of a profile into counts, also noting each stack in `seen`.
fn read_profile(text: &str, strip_hex: bool, seen: &mut Occurrences) -> (r: Option<(Occurrences, usize)>)
    ensures
        match profile_counts(text@, strip_hex) {
            None => r is None,
            Some((m, t)) => r matches Some((o, rt)) && o@ == m && rt == t
                && final(seen)@.dom() == old(seen)@.dom().union(m.dom())
                && forall|k: Seq<char>| #[trigger] final(seen)@.contains_key(k) ==> final(seen)@[k] == 0 || old(seen)@.contains_key(k),
        },
{
    let lines = input_lines(text);
    let ghost lv = read_lines(text@);
    let mut counts = Occurrences::new();
    let mut total: usize = 0;
    let mut i: usize = 0;
    assert(seen@.dom().union(counts@.dom()) =~= seen@.dom());
    while i < lines.len()
        invariant
            strs_view(lines@) == lv,
            lv == read_lines(text@),
            i <= lines@.len(),
            diff_fold(lv, strip_hex, i as int) == Some((counts@, total as nat)),
            seen@.dom() == old(seen)@.dom().union(counts@.dom()),
            forall|k: Seq<char>| #[trigger] seen@.contains_key(k) ==> seen@[k] == 0 || old(seen)@.contains_key(k),
        decreases lines.len() - i,
    {
        assert(lv[i as int] == lines@[i as int]@);
        let line = lines[i].as_str();
        match parse_line(line, strip_hex) {
            None => {},
            Some((stack, count)) => {
                let cur = match counts.get(stack.as_str()) {
                    Some(v) => v,
                    None => 0,
                };
                if cur > usize::MAX - count || total > usize::MAX - count {
                    proof { lemma_diff_fold_none_stays(lv, strip_hex, i + 1, lv.len() as int); }
                    return None;
                }
                let seen_key = string_from_chars(chars_of(stack.as_str()).as_slice());
                seen.insert(seen_key, 0);
                counts.insert_or_add(stack, count);
                total = total + count;
                assert(seen@.dom() =~= old(seen)@.dom().union(counts@.dom()));
            },
        }
        i += 1;
    }
    Some((counts, total))
}

proof fn lemma_diff_fold_none_stays(lines: Seq<Seq<char>>, strip_hex: bool, i: int, k: int)
    requires
        0 <= i <= k,
        diff_fold(lines, strip_hex, i) is None,
    ensures
        diff_fold(lines, strip_hex, k) is None,
    decreases k - i,
{
    if i < k {
        lemma_diff_fold_none_stays(lines, strip_hex, i, k - 1);
    }
}

/// Makes the lines `stack count1 count2` of two profiles of folded lines, one per stack seen
/// in either, in increasing order of stack; a stack missing from a profile counts 0 there.
/// With `normalize`, where the totals differ, each first count is scaled by the second total
/// over the first. `None` where a count or total would overflow, or scaling divides by zero or
/// overflows.
pub fn from_texts(opt: &Options, text1: &str, text2: &str) -> (r: Option<String>)
    ensures
        match (profile_counts(text1@, opt.strip_hex), profile_counts(text2@, opt.strip_hex)) {
            (Some((m1, t1)), Some((m2, t2))) => {
                let scale = if opt.normalize && t1 != t2 { Some((t1, t2)) } else { None };
                if scale_fails(m1, m2, scale) {
                    r is None
                } else {
                    r matches Some(out) && exists|e: Seq<(Seq<char>, usize)>| {
                        &&& sorted_keys(e)
                        &&& keyed_map(e).dom() == m1.dom().union(m2.dom())
                        &&& out@ == diff_output(e, m1, m2, scale)
                    }
                }
            },
            _ => r is None,
        },
{
    let mut seen = Occurrences::new();
    let (mut first, total1) = match read_profile(text1, opt.strip_hex, &mut seen) {
        None => { return None; },
        Some(p) => p,
    };
    let (mut second, total2) = match read_profile(text2, opt.strip_hex, &mut seen) {
        None => { return None; },
        Some(p) => p,
    };
    let ghost m1 = first@;
    let ghost m2 = second@;
    let ghost scale: Option<(nat, nat)> = if opt.normalize && total1 != total2 { Some((total1 as nat, total2 as nat)) } else { None };
    let entries = seen.drain_sorted();
    let ghost e = crate::collapse::common::pairs_view(entries@);
    assert(keyed_map(e).dom() =~= m1.dom().union(m2.dom()));
    let mut out: Vec<char> = Vec::new();
    let mut i: usize = 0;
    while i < entries.len()
        invariant
            i <= entries@.len(),
            e == crate::collapse::common::pairs_view(entries@),
            sorted_keys(e),
            keyed_map(e).dom() == m1.dom().union(m2.dom()),
            first@ == m1,
            second@ == m2,
            profile_counts(text1@, opt.strip_hex) == Some((m1, total1 as nat)),
            profile_counts(text2@, opt.strip_hex) == Some((m2, total2 as nat)),
            scale == (if opt.normalize && total1 != total2 { Some((total1 as nat, total2 as nat)) } else { None::<(nat, nat)> }),
            out@ == diff_output(e.take(i as int), m1, m2, scale),
            forall|j: int| 0 <= j < i ==> !key_scale_fails(m1, #[trigger] e[j].0, scale),
        decreases entries.len() - i,
    {
        let key = entries[i].0.as_str();
        assert(e[i as int].0 == key@);
        proof {
            crate::keyed::lemma_sorted_distinct(e);
            crate::keyed::lemma_keyed_map_at(e, i as int);
        }
        let a = match first.get(key) {
            Some(v) => v,
            None => 0,
        };
        let b = match second.get(key) {
            Some(v) => v,
            None => 0,
        };
        let a2 = if opt.normalize && total1 != total2 {
            if total1 == 0 || (total2 > 0 && a > usize::MAX / total2) {
                proof {
                    if total1 != 0 {
                        assert(a * total2 > usize::MAX) by (nonlinear_arith)
                            requires total2 > 0, a > usize::MAX / total2;
                    }
                    assert(m1.contains_key(key@) || m2.contains_key(key@));
                    assert(key_scale_fails(m1, key@, scale));
                    assert(scale_fails(m1, m2, scale));
                }
                return None;
            }
            assert(a * total2 <= usize::MAX) by (nonlinear_arith)
                requires total2 == 0 || a <= usize::MAX / total2;
            a * total2 / total1
        } else {
            a
        };
        assert(a2 == scaled(count_of(m1, key@), scale));
        assert(!key_scale_fails(m1, key@, scale)) by {
            if scale is Some {
                assert(a * total2 <= usize::MAX);
            }
        }
        let ghost before = out@;
        push_str(&mut out, key);
        out.push(' ');
        push_decimal(&mut out, a2 as u64);
        out.push(' ');
        push_decimal(&mut out, b as u64);
        out.push('\n');
        proof {
            assert(e.take(i + 1).drop_last() =~= e.take(i as int));
            assert(out@ =~= before + diff_line(key@, a2 as nat, b as nat));
        }
        i += 1;
    }
    assert(e.take(entries@.len() as int) =~= e);
    proof {
        if scale_fails(m1, m2, scale) {
            let k = choose|k: Seq<char>| (#[trigger] m1.contains_key(k) || m2.contains_key(k)) && key_scale_fails(m1, k, scale);
            assert(keyed_map(e).dom().contains(k));
            let j = choose|j: int| 0 <= j < e.len() && #[trigger] e[j].0 == k;
            assert(!key_scale_fails(m1, e[j].0, scale));
        }
    }
    Some(string_from_chars(out.as_slice()))
}

} // verus!
