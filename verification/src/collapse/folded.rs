//! Reading folded stack lines, as the collapsers write them, back into entries.
use vstd::prelude::*;
use crate::collapse::perf::{input_lines, read_lines};
use crate::text::{
    chars_lt, lemma_chars_lt_irreflexive, lemma_chars_lt_transitive, str_eq, str_lt,
    chars_of, lemma_rfind_bounds, parse_u64_str, parse_u64_text, rfind, rfind_chars, string_from_chars,
    strs_view, trailing_ws_in, trim_end,
};

verus! {


/// The text before the last space of `t` and the number after it, where that is a number.
pub open spec fn last_count(t: Seq<char>) -> Option<(Seq<char>, u64)> {
    match rfind(t, seq![' ']) {
        Some(i) => match parse_u64_text(t.skip(i + 1)) {
            Some(n) => Some((t.take(i), n)),
            None => None,
        },
        None => None,
    }
}

/// A 64-bit number read as a signed 64-bit number.
pub open spec fn signed64(n: u64) -> int {
    if n <= i64::MAX { n as int } else { n - 0x1_0000_0000_0000_0000int }
}

/// The entry `(stack, count, delta)` that a folded line gives, if any: the count is the last
/// number of the line; where another number comes before it, the stack is what precedes that
/// one, and the delta is the last number minus it, both read as signed 64-bit numbers.
pub open spec fn folded_line_entry(line: Seq<char>) -> Option<(Seq<char>, u64, Option<int>)> {
    match last_count(trim_end(line)) {
        None => None,
        Some((s, last)) => match last_count(trim_end(s)) {
            Some((s2, p)) => Some((s2, last, Some(signed64(last) - signed64(p)))),
            None => Some((s, last, None)),
        },
    }
}

/// The entries of the first `k` lines, lines that give none left out.
pub open spec fn folded_line_entries(lines: Seq<Seq<char>>, k: int) -> Seq<(Seq<char>, u64, Option<int>)>
    decreases k,
{
    if k <= 0 {
        Seq::empty()
    } else {
        let prev = folded_line_entries(lines, k - 1);
        match folded_line_entry(lines[k - 1]) {
            Some(e) => prev.push(e),
            None => prev,
        }
    }
}

/// Whether the delta of an entry is a signed 64-bit number that fits in `isize`.
pub open spec fn delta_fits(e: (Seq<char>, u64, Option<int>)) -> bool {
    match e.2 {
        Some(d) => i64::MIN <= d <= i64::MAX && isize::MIN <= d <= isize::MAX,
        None => true,
    }
}

pub open spec fn raw_entries_view(v: Seq<(String, u64, Option<isize>)>) -> Seq<(Seq<char>, u64, Option<int>)> {
    v.map_values(|x: (String, u64, Option<isize>)| (x.0@, x.1, match x.2 { Some(d) => Some(d as int), None => None }))
}

fn last_count_in(t: &[char]) -> (r: Option<(usize, u64)>)
    ensures
        match last_count(t@) {
            None => r is None,
            Some((s, n)) => r matches Some((i, m)) && i <= t@.len() && t@.take(i as int) == s && m == n,
        },
{
    let space: Vec<char> = vec![' '];
    assert(space@ =~= seq![' ']);
    match rfind_chars(t, space.as_slice()) {
        None => None,
        Some(i) => {
            proof {
                lemma_rfind_bounds(t@, space@);
                assert(t@.len() == t.len());
            }
            let start: usize = i + 1;
            let rest = string_from_chars(&t[start..t.len()]);
            assert(rest@ =~= t@.skip(i + 1));
            match parse_u64_str(rest.as_str()) {
                Some(n) => Some((i, n)),
                None => None,
            }
        },
    }
}

proof fn lemma_entries_prefix(lines: Seq<Seq<char>>, k: int, m: int)
    requires
        0 <= k <= m,
    ensures
        folded_line_entries(lines, k).len() <= folded_line_entries(lines, m).len(),
        forall|j: int| 0 <= j < folded_line_entries(lines, k).len()
            ==> folded_line_entries(lines, m)[j] == #[trigger] folded_line_entries(lines, k)[j],
    decreases m - k,
{
    if k < m {
        lemma_entries_prefix(lines, k, m - 1);
    }
}

fn signed_of(n: u64) -> (r: i128)
    ensures
        r == signed64(n),
{
    if n <= 0x7fff_ffff_ffff_ffffu64 { n as i128 } else { n as i128 - 0x1_0000_0000_0000_0000i128 }
}

/// The order of `(stack, count, delta)` entries: by stack, then by count, then by delta, no
/// delta first (the order of such tuples in Rust).
pub open spec fn entry_lt(a: (Seq<char>, u64, Option<int>), b: (Seq<char>, u64, Option<int>)) -> bool {
    ||| chars_lt(a.0, b.0)
    ||| (a.0 == b.0 && a.1 < b.1)
    ||| (a.0 == b.0 && a.1 == b.1 && match (a.2, b.2) {
        (None, Some(_)) => true,
        (Some(x), Some(y)) => x < y,
        _ => false,
    })
}

/// No entry comes before an entry ahead of it.
pub open spec fn entries_sorted(e: Seq<(Seq<char>, u64, Option<int>)>) -> bool {
    forall|i: int, j: int| 0 <= i < j < e.len() ==> !entry_lt(#[trigger] e[j], #[trigger] e[i])
}

proof fn lemma_entry_lt_transitive(a: (Seq<char>, u64, Option<int>), b: (Seq<char>, u64, Option<int>), c: (Seq<char>, u64, Option<int>))
    requires
        entry_lt(a, b),
        entry_lt(b, c),
    ensures
        entry_lt(a, c),
{
    if chars_lt(a.0, b.0) && chars_lt(b.0, c.0) {
        lemma_chars_lt_transitive(a.0, b.0, c.0, 0);
    }
}

proof fn lemma_entry_lt_irreflexive(a: (Seq<char>, u64, Option<int>))
    ensures
        !entry_lt(a, a),
{
    lemma_chars_lt_irreflexive(a.0, 0);
}

fn entry_less(a: &(String, u64, Option<isize>), b: &(String, u64, Option<isize>)) -> (r: bool)
    ensures
        r == entry_lt(raw_entry_view(*a), raw_entry_view(*b)),
{
    if str_lt(a.0.as_str(), b.0.as_str()) {
        return true;
    }
    if !str_eq(a.0.as_str(), b.0.as_str()) {
        return false;
    }
    if a.1 != b.1 {
        return a.1 < b.1;
    }
    match (a.2, b.2) {
        (None, Some(_)) => true,
        (Some(x), Some(y)) => x < y,
        _ => false,
    }
}

pub open spec fn raw_entry_view(x: (String, u64, Option<isize>)) -> (Seq<char>, u64, Option<int>) {
    (x.0@, x.1, match x.2 { Some(d) => Some(d as int), None => None })
}

/// The entries in increasing order, each kept as many times as it was given.
fn sort_entries(v: Vec<(String, u64, Option<isize>)>) -> (r: Vec<(String, u64, Option<isize>)>)
    ensures
        raw_entries_view(r@).to_multiset() == raw_entries_view(v@).to_multiset(),
        entries_sorted(raw_entries_view(r@)),
{
    broadcast use vstd::seq_lib::group_to_multiset_ensures;
    let mut out: Vec<(String, u64, Option<isize>)> = Vec::new();
    let mut v = v;
    let ghost orig = raw_entries_view(v@);
    assert(raw_entries_view(out@) =~= Seq::<(Seq<char>, u64, Option<int>)>::empty());
    proof {
        broadcast use vstd::multiset::group_multiset_axioms;
        assert(raw_entries_view(out@).to_multiset().add(orig.to_multiset()) =~= orig.to_multiset());
    }
    while v.len() > 0
        invariant
            raw_entries_view(out@).to_multiset().add(raw_entries_view(v@).to_multiset()) == orig.to_multiset(),
            entries_sorted(raw_entries_view(out@)),
        decreases v.len(),
    {
        let ghost vb = raw_entries_view(v@);
        let ghost ob = raw_entries_view(out@);
        let x = v.pop().unwrap();
        assert(vb =~= raw_entries_view(v@).push(raw_entry_view(x)));
        let ghost xv = raw_entry_view(x);
        let mut p: usize = 0;
        while p < out.len() && !entry_less(&x, &out[p])
            invariant
                p <= out@.len(),
                ob == raw_entries_view(out@),
                xv == raw_entry_view(x),
                forall|q: int| 0 <= q < p ==> !entry_lt(xv, #[trigger] ob[q]),
            decreases out.len() - p,
        {
            assert(ob[p as int] == raw_entry_view(out@[p as int]));
            p += 1;
        }
        proof {
            if p < out@.len() {
                assert(ob[p as int] == raw_entry_view(out@[p as int]));
                assert(entry_lt(xv, ob[p as int]));
            }
        }
        out.insert(p, x);
        let ghost ov = raw_entries_view(out@);
        assert(ov =~= ob.insert(p as int, xv));
        proof {
            vstd::seq_lib::to_multiset_insert(ob, p as int, xv);
            assert forall|i: int, j: int| 0 <= i < j < ov.len() implies !entry_lt(#[trigger] ov[j], #[trigger] ov[i]) by {
                if j == p {
                    assert(ov[i] == ob[i]);
                } else if i == p {
                    assert(ov[j] == ob[j - 1]);
                    if entry_lt(ob[j - 1], xv) {
                        lemma_entry_lt_transitive(ob[j - 1], xv, ob[p as int]);
                        if j - 1 > p {
                            assert(!entry_lt(ob[j - 1], ob[p as int]));
                        } else {
                            lemma_entry_lt_irreflexive(ob[p as int]);
                        }
                    }
                } else {
                    let i0 = if i < p { i } else { i - 1 };
                    let j0 = if j < p { j } else { j - 1 };
                    assert(ov[i] == ob[i0] && ov[j] == ob[j0]);
                }
            }
            vstd::seq_lib::to_multiset_build(raw_entries_view(v@), xv);
            assert(vb.to_multiset() == raw_entries_view(v@).to_multiset().insert(xv));
            broadcast use vstd::multiset::group_multiset_axioms;
            assert(ov.to_multiset().add(raw_entries_view(v@).to_multiset()) =~= ob.to_multiset().add(vb.to_multiset()));
        }
    }
    proof {
        broadcast use vstd::multiset::group_multiset_axioms;
        assert(raw_entries_view(v@) =~= Seq::<(Seq<char>, u64, Option<int>)>::empty());
        assert(raw_entries_view(out@).to_multiset().add(raw_entries_view(v@).to_multiset()) =~= raw_entries_view(out@).to_multiset());
    }
    out
}

/// Reads folded lines, `stack count` or `stack count count`, back into `(stack, count,
/// delta)` entries, sorted by stack (then count, then delta); lines without a trailing count
/// are skipped.
/// `None` where a delta does not fit a signed 64-bit number (or `isize`).
pub fn folded_entries(text: &str) -> (r: Option<Vec<(String, u64, Option<isize>)>>)
    ensures
        r is None <==> exists|j: int|
            0 <= j < folded_line_entries(read_lines(text@), read_lines(text@).len() as int).len()
            && !delta_fits(#[trigger] folded_line_entries(read_lines(text@), read_lines(text@).len() as int)[j]),
        r matches Some(v) ==> raw_entries_view(v@).to_multiset() == folded_line_entries(read_lines(text@), read_lines(text@).len() as int).to_multiset(),
        r matches Some(v) ==> entries_sorted(raw_entries_view(v@)),
{
    let lines = input_lines(text);
    let ghost lv = read_lines(text@);
    let mut out: Vec<(String, u64, Option<isize>)> = Vec::new();
    let mut k: usize = 0;
    while k < lines.len()
        invariant
            strs_view(lines@) == lv,
            lv == read_lines(text@),
            k <= lines@.len(),
            raw_entries_view(out@) == folded_line_entries(lv, k as int),
            forall|j: int| 0 <= j < out@.len() ==> delta_fits(#[trigger] folded_line_entries(lv, k as int)[j]),
        decreases lines.len() - k,
    {
        assert(lv[k as int] == lines@[k as int]@);
        let c = chars_of(lines[k].as_str());
        assert(c@.subrange(0, c@.len() as int) =~= lv[k as int]);
        let hi = c.len() - trailing_ws_in(c.as_slice(), 0, c.len());
        let t = &c[0..hi];
        assert(t@ =~= trim_end(lv[k as int]));
        let ghost before = out@;
        match last_count_in(t) {
            None => {},
            Some((i, last)) => {
                let s = &t[0..i];
                assert(s@ =~= t@.take(i as int));
                assert(s@.subrange(0, s@.len() as int) =~= s@);
                let hi2 = s.len() - trailing_ws_in(s, 0, s.len());
                let s2 = &s[0..hi2];
                assert(s2@ =~= trim_end(s@));
                match last_count_in(s2) {
                    Some((j, p)) => {
                        let d: i128 = signed_of(last) - signed_of(p);
                        assert(folded_line_entry(lv[k as int]) == Some((s2@.take(j as int), last, Some(d as int))));
                        if d < -0x8000_0000_0000_0000i128 || d > 0x7fff_ffff_ffff_ffffi128
                            || d < isize::MIN as i128 || d > isize::MAX as i128 {
                            proof {
                                let full = folded_line_entries(lv, lv.len() as int);
                                assert(folded_line_entries(lv, k + 1) == raw_entries_view(before).push(
                                    folded_line_entry(lv[k as int]).unwrap(),
                                ));
                                lemma_entries_prefix(lv, k + 1, lv.len() as int);
                                assert(folded_line_entries(lv, k + 1)[before.len() as int]
                                    == folded_line_entry(lv[k as int]).unwrap());
                                assert(raw_entries_view(before).len() == before.len());
                                assert(before.len() < full.len());
                                assert(!delta_fits(full[before.len() as int]));
                            }
                            return None;
                        }
                        let stack = string_from_chars(&s2[0..j]);
                        assert(stack@ =~= s2@.take(j as int));
                        out.push((stack, last, Some(d as isize)));
                    },
                    None => {
                        assert(folded_line_entry(lv[k as int]) == Some((s@, last, None::<int>)));
                        let stack = string_from_chars(s);
                        out.push((stack, last, None));
                    },
                }
                assert(raw_entries_view(out@) =~= raw_entries_view(before).push(raw_entries_view(out@).last()));
            },
        }
        k += 1;
    }
    proof {
        assert(raw_entries_view(out@).len() == out@.len());
    }
    Some(sort_entries(out))
}



} // verus!
