//! Turning profiler output into folded stack lines.
pub mod bpftrace;
pub mod common;
pub mod dtrace;
pub mod folded;
pub mod ghcprof;
pub mod guess;
pub mod perf;
pub mod perf_script;
pub mod pmc;
pub mod sample;
pub mod util;
pub mod xctrace;
pub mod xdebug;
pub mod xml_events;

use vstd::prelude::*;
use crate::flamegraph::merge::{
    empty_stacks_only_last, frames_from_stacks, frames_view, has_unsorted, merged,
    merged_len_from, paths_fit, samples_view, sum_counts, MergeError, Sample, SampleSpec,
    TimedFrame,
};
use crate::text::{chars_of, split_chars, split_on, str_eq, strs_view};
use crate::collapse::common::count_line;
use crate::flamegraph::merge::{line_sample, samples_position, trailing_count};
use crate::text::{
    all_ascii_digits, decimal_text, find, is_whitespace, leading_ws, lemma_decimal_text_parses,
    lemma_find_from_bounds, occurs_at, parse_u64_digits, rfind, rfind_before, trailing_ws, trim, trim_end,
};

verus! {

/// One folded stack: the frames joined by `;`, the sample count and, for differential
/// data, the change in count.
pub ghost struct FoldedEntry {
    pub stack: Seq<char>,
    pub count: u64,
    pub delta: Option<isize>,
}

pub open spec fn entries_view(e: Seq<(String, u64, Option<isize>)>) -> Seq<FoldedEntry> {
    e.map_values(|x: (String, u64, Option<isize>)| FoldedEntry { stack: x.0@, count: x.1, delta: x.2 })
}

/// Collapsed stack data, ready for flame graph rendering.
///
/// No sorting is done here: whoever builds it orders the entries (usually sorted by stack)
/// as the flame graph expects them.
pub struct FoldedStacks {
    entries: Vec<(String, u64, Option<isize>)>,
}

impl View for FoldedStacks {
    type V = Seq<FoldedEntry>;

    closed spec fn view(&self) -> Seq<FoldedEntry> {
        entries_view(self.entries@)
    }
}

/// The sample that a folded entry stands for: its stack split at every `;`.
pub open spec fn entry_sample(e: FoldedEntry) -> SampleSpec {
    SampleSpec {
        stack: split_on(e.stack, ';'),
        count: e.count as int,
        delta: match e.delta {
            Some(d) => Some(d as int),
            None => None,
        },
    }
}

pub open spec fn entry_samples(e: Seq<FoldedEntry>) -> Seq<SampleSpec> {
    e.map_values(|x: FoldedEntry| entry_sample(x))
}

/// The distinct stacks of the first `k` entries.
pub open spec fn stack_set(e: Seq<FoldedEntry>, k: int) -> Set<Seq<char>>
    decreases k,
{
    if k <= 0 {
        Set::empty()
    } else {
        stack_set(e, k - 1).insert(e[k - 1].stack)
    }
}

/// The stacks of the first `k` entries are finite in number, and a stack is among them
/// exactly where one of those entries has it.
pub proof fn lemma_stack_set(e: Seq<FoldedEntry>, k: int)
    requires
        0 <= k,
    ensures
        stack_set(e, k).finite(),
        forall|s: Seq<char>| stack_set(e, k).contains(s) <==> exists|q: int| 0 <= q < k && #[trigger] e[q].stack == s,
    decreases k,
{
    if k > 0 {
        lemma_stack_set(e, k - 1);
        assert forall|s: Seq<char>| stack_set(e, k).contains(s) <==> exists|q: int| 0 <= q < k && #[trigger] e[q].stack == s by {
            if stack_set(e, k).contains(s) && s != e[k - 1].stack {
                let q = choose|q: int| 0 <= q < k - 1 && #[trigger] e[q].stack == s;
                assert(0 <= q < k && e[q].stack == s);
            }
            if exists|q: int| 0 <= q < k && #[trigger] e[q].stack == s {
                let q = choose|q: int| 0 <= q < k && #[trigger] e[q].stack == s;
                if q < k - 1 {
                    assert(stack_set(e, k - 1).contains(s));
                }
            }
        }
    }
}

impl FoldedStacks {
    /// No stacks at all.
    pub fn new() -> (r: FoldedStacks)
        ensures
            r@ == Seq::<FoldedEntry>::empty(),
    {
        let r = FoldedStacks { entries: Vec::new() };
        assert(r@ =~= Seq::<FoldedEntry>::empty());
        r
    }

    /// Builds the stacks from `(stack, count, delta)` entries, kept in the order given.
    pub fn from_entries(entries: Vec<(String, u64, Option<isize>)>) -> (r: FoldedStacks)
        ensures
            r@ == entries_view(entries@),
    {
        FoldedStacks { entries }
    }

    /// Appends more `(stack, count, delta)` entries after the present ones.
    pub fn extend(&mut self, more: Vec<(String, u64, Option<isize>)>)
        ensures
            final(self)@ == old(self)@ + entries_view(more@),
    {
        let mut more = more;
        let ghost a = self.entries@;
        let ghost b = more@;
        self.entries.append(&mut more);
        assert(entries_view(a + b) =~= entries_view(a) + entries_view(b));
    }

    /// Returns the number of distinct stacks.
    pub fn len(&self) -> (n: usize)
        ensures
            n == stack_set(self@, self@.len() as int).len(),
    {
        let m = self.entries.len();
        let mut n: usize = 0;
        let mut i: usize = 0;
        while i < m
            invariant
                i <= m == self@.len(),
                stack_set(self@, i as int).finite(),
                n == stack_set(self@, i as int).len(),
                n <= i,
            decreases m - i,
        {
            assert(self@[i as int].stack == self.entries@[i as int].0@);
            let mut j: usize = 0;
            let mut seen = false;
            while j < i
                invariant
                    i < m == self@.len(),
                    j <= i,
                    seen == exists|q: int| 0 <= q < j && #[trigger] self@[q].stack == self@[i as int].stack,
                decreases i - j,
            {
                assert(self@[j as int].stack == self.entries@[j as int].0@);
                if !seen && str_eq(self.entries[j].0.as_str(), self.entries[i].0.as_str()) {
                    seen = true;
                }
                j += 1;
            }
            proof { lemma_stack_set(self@, i as int); }
            if !seen {
                n += 1;
            }
            i += 1;
        }
        n
    }

    /// Returns `true` if there are no stacks.
    pub fn is_empty(&self) -> (b: bool)
        ensures
            b == (self@.len() == 0),
    {
        self.entries.len() == 0
    }

    /// The entries as flame graph samples, in order, each stack split into its frames.
    pub fn samples(&self) -> (r: Vec<Sample>)
        ensures
            samples_view(r@) == entry_samples(self@),
    {
        let mut r: Vec<Sample> = Vec::new();
        let mut i: usize = 0;
        while i < self.entries.len()
            invariant
                i <= self.entries@.len(),
                samples_view(r@) == entry_samples(self@).take(i as int),
            decreases self.entries.len() - i,
        {
            let (stack, count, delta) = &self.entries[i];
            let chars = chars_of(stack.as_str());
            let frames = split_chars(chars.as_slice(), ';');
            let s = Sample { stack: frames, count: *count, delta: *delta };
            let ghost before = r@;
            r.push(s);
            proof {
                assert(self@[i as int] == entries_view(self.entries@)[i as int]);
                assert(samples_view(r@) =~= samples_view(before).push(s@));
                assert(entry_samples(self@).take(i + 1) =~= entry_samples(self@).take(i as int).push(
                    entry_sample(self@[i as int]),
                ));
            }
            i += 1;
        }
        assert(entry_samples(self@).take(self@.len() as int) =~= entry_samples(self@));
        r
    }

    /// Merges the stacks into the timed frames that a flame graph draws: the frames, the total
    /// sample count and the largest magnitude of a delta (at least 1).
    ///
    /// The entries are expected in sorted order; unless `suppress_sort_check` is set, an entry
    /// whose stack sorts before the one preceding it is an error.
    pub fn flame_graph(&self, suppress_sort_check: bool) -> (r: Result<(Vec<TimedFrame>, u64, usize), MergeError>)
        requires
            empty_stacks_only_last(entry_samples(self@)),
            paths_fit(entry_samples(self@)),
            sum_counts(
                entry_samples(self@),
                merged_len_from(entry_samples(self@), suppress_sort_check, 0),
            ) <= u64::MAX,
        ensures
            r is Err <==> !suppress_sort_check && has_unsorted(entry_samples(self@)),
            r matches Ok((f, t, dm)) ==> (frames_view(f@), t as int, dm as int) == merged(
                entry_samples(self@),
            ),
    {
        let samples = self.samples();
        frames_from_stacks(samples.as_slice(), suppress_sort_check)
    }
}


// ------------------------------------------------------------------
// From collapsed lines to flame graph samples
// ------------------------------------------------------------------

proof fn lemma_rfind_before_last(s: Seq<char>, p: Seq<char>, i: int, before: int)
    requires
        occurs_at(s, p, i),
        i < before,
        forall|j: int| i < j < before ==> !occurs_at(s, p, j),
    ensures
        rfind_before(s, p, before) == Some(i),
    decreases before,
{
    if before - 1 > i {
        lemma_rfind_before_last(s, p, i, before - 1);
    }
}

/// A line that a collapser writes, `stack count` without its newline, is read by the flame
/// graph as that stack, split at its `;`s, with that count, and not as a differential line:
/// where the stack is not empty, neither starts nor ends with whitespace, and does not itself
/// end in a space and a count.
pub proof fn folded_line_reads_back(key: Seq<char>, count: usize)
    requires
        key.len() > 0,
        !is_whitespace(key[0]),
        !is_whitespace(key.last()),
        trailing_count(key) is None,
    ensures
        line_sample(count_line(key, count).drop_last()) == Some(
            SampleSpec { stack: split_on(key, ';'), count: count as int, delta: None },
        ),
{
    let d = decimal_text(count as nat);
    let line = key + seq![' '] + d;
    assert(count_line(key, count).drop_last() =~= line);
    lemma_decimal_text_parses(count as nat);
    let si = key.len() as int + 1;
    assert(line.skip(si) =~= d);
    assert(line.take(si) =~= key + seq![' ']);
    // No whitespace at either end, so trimming leaves the line as it is.
    assert(line[0] == key[0]);
    assert(line.last() == d.last());
    assert(crate::text::is_ascii_digit(d[d.len() - 1]));
    assert(leading_ws(line) == 0);
    assert(trailing_ws(line) == 0);
    assert(line.skip(0) =~= line);
    assert(trim(line) =~= line);
    // The last space is the one before the count.
    assert(occurs_at(line, seq![' '], key.len() as int)) by {
        assert(line.subrange(key.len() as int, key.len() + 1int) =~= seq![' ']);
    }
    assert forall|j: int| key.len() < j < line.len() + 1 implies !occurs_at(line, seq![' '], j) by {
        if occurs_at(line, seq![' '], j) {
            assert(line.subrange(j, j + 1)[0] == line[j]);
            assert(line[j] == d[j - si]);
            assert(crate::text::is_ascii_digit(d[j - si]));
        }
    }
    lemma_rfind_before_last(line, seq![' '], key.len() as int, line.len() + 1int);
    assert(rfind(line, seq![' ']) == Some(key.len() as int));
    // The count has no decimal point.
    lemma_find_from_bounds(d, seq!['.'], 0);
    assert(find(d, seq!['.']) is None) by {
        if find(d, seq!['.']) is Some {
            let i = find(d, seq!['.'])->0;
            assert(d.subrange(i, i + 1)[0] == d[i]);
            assert(crate::text::is_ascii_digit(d[i]));
        }
    }
    assert(samples_position(line) == Some((si, d.len() as int)));
    assert(line.subrange(si, si + d.len()) =~= d);
    assert(parse_u64_digits(d) == Some(count as u64));
    // What is left before the count is the stack.
    assert((key + seq![' ']).last() == ' ');
    assert((key + seq![' ']).drop_last() =~= key);
    assert(trailing_ws(key) == 0);
    assert(trailing_ws(key + seq![' ']) == 1);
    assert(trim_end(key + seq![' ']) =~= key);
    assert(trailing_count(line) == Some((count as u64, key)));
}

} // verus!
