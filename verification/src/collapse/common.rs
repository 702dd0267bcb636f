//! Counting how often each folded stack occurs.
use vstd::prelude::*;
use fnv::FnvHashMap;
use crate::keyed::{
    distinct_keys, has_key, keyed_map, lemma_keyed_map_at, lemma_keyed_map_push, lemma_sorted_distinct,
    lemma_sorted_insert, sorted_keys,
};
use crate::text::strs_view;
use crate::text::{
    chars_lt, chars_of, decimal_text, lemma_chars_lt_irreflexive, lemma_chars_lt_total,
    lemma_chars_lt_transitive, push_decimal, str_lt, string_from_chars,
};

verus! {

#[verifier::external_type_specification]
#[verifier::external_body]
pub struct ExFnvHasher(fnv::FnvHasher);

#[verifier::external_type_specification]
#[verifier::external_body]
#[verifier::reject_recursive_types(H)]
pub struct ExBuildHasherDefault<H>(core::hash::BuildHasherDefault<H>);

/// What an `FnvHashMap<String, usize>` holds, each key taken by its characters.
pub uninterp spec fn fnv_counts(m: FnvHashMap<String, usize>) -> Map<Seq<char>, usize>;

pub open spec fn pairs_view(e: Seq<(String, usize)>) -> Seq<(Seq<char>, usize)> {
    e.map_values(|x: (String, usize)| (x.0@, x.1))
}

/// No stack counted.
pub open spec fn no_counts() -> Map<Seq<char>, usize> {
    Map::empty()
}

/// `FnvHashMap::default`: an empty map.
#[verifier::external_body]
fn fnv_map_new() -> (m: FnvHashMap<String, usize>)
    ensures
        fnv_counts(m) == no_counts(),
{
    FnvHashMap::default()
}

/// `HashMap::get`: the count stored under `key`, if any.
#[verifier::external_body]
fn fnv_map_get(m: &FnvHashMap<String, usize>, key: &str) -> (r: Option<usize>)
    ensures
        r == (if fnv_counts(*m).contains_key(key@) { Some(fnv_counts(*m)[key@]) } else { None }),
{
    m.get(key).copied()
}

/// `HashMap::insert`: stores `count` under `key` and hands back the count it replaced.
#[verifier::external_body]
fn fnv_map_insert(m: &mut FnvHashMap<String, usize>, key: String, count: usize) -> (r: Option<usize>)
    ensures
        fnv_counts(*final(m)) == fnv_counts(*old(m)).insert(key@, count),
        r == (if fnv_counts(*old(m)).contains_key(key@) { Some(fnv_counts(*old(m))[key@]) } else { None }),
{
    m.insert(key, count)
}

/// `HashMap::drain`: empties the map and hands out every entry once, in no particular order.
#[verifier::external_body]
fn fnv_map_drain(m: &mut FnvHashMap<String, usize>) -> (r: Vec<(String, usize)>)
    ensures
        fnv_counts(*final(m)) == no_counts(),
        distinct_keys(pairs_view(r@)),
        keyed_map(pairs_view(r@)) == fnv_counts(*old(m)),
{
    m.drain().collect()
}

/// How many times each folded stack occurred.
pub struct Occurrences {
    map: FnvHashMap<String, usize>,
}

impl View for Occurrences {
    type V = Map<Seq<char>, usize>;

    closed spec fn view(&self) -> Map<Seq<char>, usize> {
        fnv_counts(self.map)
    }
}

/// One output line: the stack, a space, the count in decimal and a newline.
pub open spec fn count_line(key: Seq<char>, count: usize) -> Seq<char> {
    key + seq![' '] + decimal_text(count as nat) + seq!['\n']
}

/// The lines of all entries, in order.
pub open spec fn count_lines(e: Seq<(Seq<char>, usize)>) -> Seq<char>
    decreases e.len(),
{
    if e.len() == 0 {
        Seq::empty()
    } else {
        count_lines(e.drop_last()) + count_line(e.last().0, e.last().1)
    }
}

/// The count that `insert_or_add` leaves under `key`.
pub open spec fn added_count(m: Map<Seq<char>, usize>, key: Seq<char>, count: usize) -> int {
    if m.contains_key(key) { m[key] + count } else { count as int }
}

impl Occurrences {
    /// No stack seen yet.
    pub fn new() -> (r: Occurrences)
        ensures
            r@ == Map::<Seq<char>, usize>::empty(),
    {
        Occurrences { map: fnv_map_new() }
    }

    /// Sets the count of `key`, returning the count it had, if any.
    pub fn insert(&mut self, key: String, count: usize) -> (r: Option<usize>)
        ensures
            final(self)@ == old(self)@.insert(key@, count),
            r == (if old(self)@.contains_key(key@) { Some(old(self)@[key@]) } else { None }),
    {
        fnv_map_insert(&mut self.map, key, count)
    }

    /// Adds `count` to the count of `key`, which starts at 0 for a key not seen yet.
    pub fn insert_or_add(&mut self, key: String, count: usize)
        requires
            added_count(old(self)@, key@, count) <= usize::MAX,
        ensures
            final(self)@ == old(self)@.insert(key@, added_count(old(self)@, key@, count) as usize),
    {
        let cur = match fnv_map_get(&self.map, key.as_str()) {
            Some(c) => c,
            None => 0,
        };
        fnv_map_insert(&mut self.map, key, cur + count);
    }

    /// The count of `key`, if it occurred.
    pub fn get(&self, key: &str) -> (r: Option<usize>)
        ensures
            r == (if self@.contains_key(key@) { Some(self@[key@]) } else { None }),
    {
        fnv_map_get(&self.map, key)
    }

    /// Empties the counts and hands them out in increasing order of stack.
    pub fn drain_sorted(&mut self) -> (r: Vec<(String, usize)>)
        ensures
            final(self)@ == Map::<Seq<char>, usize>::empty(),
            sorted_keys(pairs_view(r@)),
            keyed_map(pairs_view(r@)) == old(self)@,
    {
        let drained = fnv_map_drain(&mut self.map);
        let ghost d = pairs_view(drained@);
        let mut out: Vec<(String, usize)> = Vec::new();
        assert(pairs_view(out@) =~= Seq::<(Seq<char>, usize)>::empty());
        assert(keyed_map(pairs_view(out@)) =~= keyed_map(d.take(0)));
        let mut i: usize = 0;
        while i < drained.len()
            invariant
                i <= drained@.len(),
                d == pairs_view(drained@),
                distinct_keys(d),
                sorted_keys(pairs_view(out@)),
                keyed_map(pairs_view(out@)) == keyed_map(d.take(i as int)),
            decreases drained.len() - i,
        {
            let key = drained[i].0.as_str();
            let count = drained[i].1;
            let ghost e = pairs_view(out@);
            let mut p: usize = 0;
            while p < out.len() && str_lt(out[p].0.as_str(), key)
                invariant
                    p <= out@.len(),
                    e == pairs_view(out@),
                    forall|j: int| 0 <= j < p ==> chars_lt(#[trigger] e[j].0, key@),
                decreases out.len() - p,
            {
                p += 1;
            }
            proof {
                assert(d[i as int] == (key@, count));
                assert(d.take(i + 1) =~= d.take(i as int).push((key@, count)));
                assert forall|j: int| 0 <= j < d.take(i as int).len() implies #[trigger] d.take(i as int)[j].0 != key@ by {
                    assert(d[j].0 != d[i as int].0);
                }
                assert(!has_key(d.take(i as int), key@));
                lemma_keyed_map_push(d.take(i as int), key@, count);
                lemma_sorted_distinct(e);
                // `key` is new to `out`, so every entry from `p` on sorts after it.
                assert(!keyed_map(e).contains_key(key@));
                assert forall|j: int| p <= j < e.len() implies chars_lt(key@, #[trigger] e[j].0) by {
                    lemma_keyed_map_at(e, p as int);
                    assert(e[p as int].0.take(0) =~= key@.take(0));
                    lemma_chars_lt_total(e[p as int].0, key@, 0);
                    if j > p {
                        lemma_chars_lt_transitive(key@, e[p as int].0, e[j].0, 0);
                    }
                }
                lemma_sorted_insert(e, p as int, key@, count);
            }
            let name = string_from_chars(chars_of(key).as_slice());
            out.insert(p, (name, count));
            assert(pairs_view(out@) =~= e.insert(p as int, (key@, count)));
            i += 1;
        }
        assert(d.take(d.len() as int) =~= d);
        out
    }

    /// Empties the counts and gives the folded lines `stack count`, one per stack, in
    /// increasing order of stack.
    pub fn write_and_clear(&mut self) -> (r: String)
        ensures
            final(self)@ == Map::<Seq<char>, usize>::empty(),
            exists|e: Seq<(Seq<char>, usize)>| {
                &&& sorted_keys(e)
                &&& keyed_map(e) == old(self)@
                &&& r@ == count_lines(e)
            },
    {
        let entries = self.drain_sorted();
        let ghost e = pairs_view(entries@);
        let mut out: Vec<char> = Vec::new();
        let mut i: usize = 0;
        while i < entries.len()
            invariant
                i <= entries@.len(),
                e == pairs_view(entries@),
                out@ == count_lines(e.take(i as int)),
            decreases entries.len() - i,
        {
            let key = chars_of(entries[i].0.as_str());
            let ghost before = out@;
            let mut k: usize = 0;
            while k < key.len()
                invariant
                    k <= key@.len(),
                    out@ == before + key@.take(k as int),
                decreases key.len() - k,
            {
                out.push(key[k]);
                k += 1;
                assert(key@.take(k as int) =~= key@.take(k - 1).push(key@[k - 1]));
            }
            out.push(' ');
            push_decimal(&mut out, entries[i].1 as u64);
            out.push('\n');
            proof {
                assert(e.take(i + 1).drop_last() =~= e.take(i as int));
                assert(e[i as int] == (entries@[i as int].0@, entries@[i as int].1));
                assert(key@.take(key@.len() as int) =~= key@);
                assert(out@ =~= count_lines(e.take(i + 1)));
            }
            i += 1;
        }
        assert(e.take(e.len() as int) =~= e);
        string_from_chars(out.as_slice())
    }
}

impl Occurrences {
    /// The folded lines `stack count`, one per stack, in increasing order of stack; the counts
    /// stay as they are.
    pub fn write_sorted(&mut self) -> (r: String)
        ensures
            final(self)@ == old(self)@,
            exists|e: Seq<(Seq<char>, usize)>| {
                &&& sorted_keys(e)
                &&& keyed_map(e) == old(self)@
                &&& r@ == count_lines(e)
            },
    {
        let entries = self.drain_sorted();
        let ghost e = pairs_view(entries@);
        proof { lemma_sorted_distinct(e); }
        let mut out: Vec<char> = Vec::new();
        let mut i: usize = 0;
        while i < entries.len()
            invariant
                i <= entries@.len(),
                e == pairs_view(entries@),
                distinct_keys(e),
                out@ == count_lines(e.take(i as int)),
                self@ == keyed_map(e.take(i as int)),
            decreases entries.len() - i,
        {
            let key = entries[i].0.as_str();
            let count = entries[i].1;
            let kc = chars_of(key);
            let ghost before = out@;
            let mut k: usize = 0;
            while k < kc.len()
                invariant
                    k <= kc@.len(),
                    out@ == before + kc@.take(k as int),
                decreases kc.len() - k,
            {
                out.push(kc[k]);
                k += 1;
                assert(kc@.take(k as int) =~= kc@.take(k - 1).push(kc@[k - 1]));
            }
            out.push(' ');
            push_decimal(&mut out, count as u64);
            out.push('\n');
            proof {
                assert(e[i as int] == (key@, count));
                assert(e.take(i + 1).drop_last() =~= e.take(i as int));
                assert(kc@.take(kc@.len() as int) =~= kc@);
                assert(out@ =~= count_lines(e.take(i + 1)));
                assert(e.take(i + 1) =~= e.take(i as int).push((key@, count)));
                assert forall|j: int| 0 <= j < e.take(i as int).len() implies #[trigger] e.take(i as int)[j].0 != key@ by {
                    assert(e[j].0 != e[i as int].0);
                }
                lemma_keyed_map_push(e.take(i as int), key@, count);
            }
            self.insert(string_from_chars(kc.as_slice()), count);
            i += 1;
        }
        assert(e.take(e.len() as int) =~= e);
        string_from_chars(out.as_slice())
    }
}


// ------------------------------------------------------------------
// Handing stacks out in jobs, and adding up what comes back
// ------------------------------------------------------------------

/// The starts of the jobs after line `i`, where `count` stacks have ended since the last
/// start: a job starts after every `n`-th line that is empty (but for trailing whitespace),
/// unless that line is the last.
pub open spec fn job_starts_from(lines: Seq<Seq<char>>, i: int, count: int, n: int) -> Seq<int>
    decreases lines.len() - i,
{
    if i < 0 || i >= lines.len() {
        Seq::empty()
    } else {
        let ends = crate::text::trim_end(lines[i]).len() == 0;
        let c = if ends { count + 1 } else { count };
        if ends && c >= n {
            if i + 1 < lines.len() {
                seq![i + 1] + job_starts_from(lines, i + 1, 0, n)
            } else {
                job_starts_from(lines, i + 1, 0, n)
            }
        } else {
            job_starts_from(lines, i + 1, c, n)
        }
    }
}

/// Where the jobs of `nstacks_per_job` stacks each start among the lines: at 0, then just
/// after every `nstacks_per_job`-th empty line (the end of a stack) but the last line. Each
/// job but the last therefore ends with an empty line.
pub fn job_starts(lines: &[String], nstacks_per_job: usize) -> (r: Vec<usize>)
    requires
        nstacks_per_job > 0,
    ensures
        r@.map_values(|x: usize| x as int) == seq![0int] + job_starts_from(strs_view(lines@), 0, 0, nstacks_per_job as int),
        r@.len() > 0,
        forall|k: int| 0 <= k < r@.len() ==> #[trigger] r@[k] < lines@.len() || (k == 0 && lines@.len() == 0),
        forall|k: int| 0 < k < r@.len() ==> r@[k - 1] < #[trigger] r@[k],
        forall|k: int| 0 < k < r@.len() ==> crate::text::trim_end(lines@[#[trigger] r@[k] - 1]@).len() == 0,
{
    let ghost lv = strs_view(lines@);
    let n = lines.len();
    let mut r: Vec<usize> = Vec::new();
    r.push(0);
    let mut count: usize = 0;
    let mut i: usize = 0;
    assert(r@.map_values(|x: usize| x as int) =~= seq![0int]);
    while i < n
        invariant
            lv == strs_view(lines@),
            n == lines@.len(),
            i <= n,
            count < nstacks_per_job,
            r@.len() > 0,
            r@[0] == 0,
            r@[r@.len() - 1] <= i,
            r@.map_values(|x: usize| x as int) + job_starts_from(lv, i as int, count as int, nstacks_per_job as int)
                == seq![0int] + job_starts_from(lv, 0, 0, nstacks_per_job as int),
            forall|k: int| 0 <= k < r@.len() ==> #[trigger] r@[k] < lines@.len() || (k == 0 && lines@.len() == 0),
            forall|k: int| 0 < k < r@.len() ==> r@[k - 1] < #[trigger] r@[k],
            forall|k: int| 0 < k < r@.len() ==> crate::text::trim_end(lines@[#[trigger] r@[k] - 1]@).len() == 0,
        decreases n - i,
    {
        assert(lv[i as int] == lines@[i as int]@);
        let c = chars_of(lines[i].as_str());
        let k = crate::text::trailing_ws_in(c.as_slice(), 0, c.len());
        assert(c@.subrange(0, c@.len() as int) =~= c@);
        let ends = k == c.len();
        assert(ends == (crate::text::trim_end(lv[i as int]).len() == 0));
        let ghost before = r@.map_values(|x: usize| x as int);
        if ends && count + 1 >= nstacks_per_job {
            count = 0;
            if i + 1 < n {
                r.push(i + 1);
                assert(r@.map_values(|x: usize| x as int) =~= before.push(i + 1));
                assert(before.push(i + 1) + job_starts_from(lv, i + 1, 0, nstacks_per_job as int)
                    =~= before + (seq![i + 1] + job_starts_from(lv, i + 1, 0, nstacks_per_job as int)));
            }
        } else if ends {
            count = count + 1;
        }
        i += 1;
    }
    assert(r@.map_values(|x: usize| x as int) =~= r@.map_values(|x: usize| x as int) + Seq::<int>::empty());
    r
}

/// A folded line `stack count`, split at its last space.
pub open spec fn folded_entry(line: Seq<char>) -> Option<(Seq<char>, usize)> {
    match crate::text::rfind(line, seq![' ']) {
        None => None,
        Some(i) => match crate::text::parse_usize_text(line.skip(i + 1)) {
            None => None,
            Some(c) => Some((line.take(i), c)),
        },
    }
}

/// The counts after adding those of the first `k` folded lines; `None` where a line is not a
/// folded line or a sum would overflow.
pub open spec fn add_folded_lines(m: Map<Seq<char>, usize>, lines: Seq<Seq<char>>, k: int) -> Option<Map<Seq<char>, usize>>
    decreases k,
{
    if k <= 0 {
        Some(m)
    } else {
        match add_folded_lines(m, lines, k - 1) {
            None => None,
            Some(m2) => match folded_entry(lines[k - 1]) {
                None => None,
                Some((key, c)) => if added_count(m2, key, c) > usize::MAX {
                    None
                } else {
                    Some(m2.insert(key, added_count(m2, key, c) as usize))
                },
            },
        }
    }
}

proof fn lemma_add_folded_none_stays(m: Map<Seq<char>, usize>, lines: Seq<Seq<char>>, i: int, k: int)
    requires
        0 <= i <= k,
        add_folded_lines(m, lines, i) is None,
    ensures
        add_folded_lines(m, lines, k) is None,
    decreases k - i,
{
    if i < k {
        lemma_add_folded_none_stays(m, lines, i, k - 1);
    }
}

impl Occurrences {
    /// Adds the counts of folded lines `stack count`, such as a job's output. Returns `false`
    /// where a line is not of that form or a sum would overflow; the counts are then left
    /// partly added.
    pub fn add_folded(&mut self, text: &str) -> (ok: bool)
        ensures
            match add_folded_lines(old(self)@, crate::collapse::perf::read_lines(text@), crate::collapse::perf::read_lines(text@).len() as int) {
                None => !ok,
                Some(m) => ok && final(self)@ == m,
            },
    {
        let lines = crate::collapse::perf::input_lines(text);
        let ghost lv = crate::collapse::perf::read_lines(text@);
        let ghost m0 = self@;
        let mut i: usize = 0;
        while i < lines.len()
            invariant
                strs_view(lines@) == lv,
                lv == crate::collapse::perf::read_lines(text@),
                i <= lines@.len(),
                add_folded_lines(m0, lv, i as int) == Some(self@),
                m0 == old(self)@,
            decreases lines.len() - i,
        {
            assert(lv[i as int] == lines@[i as int]@);
            let c = chars_of(lines[i].as_str());
            let space: [char; 1] = [' '];
            assert(space@ =~= seq![' ']);
            proof { crate::text::lemma_rfind_bounds(c@, seq![' ']); }
            let at = match crate::text::rfind_chars(c.as_slice(), space.as_slice()) {
                None => {
                    proof { lemma_add_folded_none_stays(m0, lv, i + 1, lv.len() as int); }
                    return false;
                },
                Some(at) => at,
            };
            assert(crate::text::rfind(c@, space@) == Some(at as int));
            assert(at + 1 <= c@.len());
            let count_text = string_from_chars(&c[at + 1..c.len()]);
            assert(count_text@ =~= lv[i as int].skip(at + 1));
            let count = match crate::text::parse_usize_str(count_text.as_str()) {
                None => {
                    proof { lemma_add_folded_none_stays(m0, lv, i + 1, lv.len() as int); }
                    return false;
                },
                Some(n) => n,
            };
            let key = string_from_chars(&c[0..at]);
            assert(key@ =~= lv[i as int].take(at as int));
            let cur = match self.get(key.as_str()) {
                Some(v) => v,
                None => 0,
            };
            if cur > usize::MAX - count {
                proof { lemma_add_folded_none_stays(m0, lv, i + 1, lv.len() as int); }
                return false;
            }
            self.insert_or_add(key, count);
            i += 1;
        }
        true
    }
}

} // verus!
