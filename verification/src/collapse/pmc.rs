//! Collapsing the call chains that `pmcstat -G` prints. Each chain starts at its leaf; a
//! line gives a percentage, a count in brackets and a function, indented one space deeper
//! than its callee. A line no deeper than the one before it starts a chain that shares the
//! frames below it.
use vstd::prelude::*;
use std::collections::VecDeque;
use crate::collapse::common::{added_count, count_lines, Occurrences};
use crate::collapse::perf::{input_lines, read_lines};
use crate::keyed::{keyed_map, sorted_keys};
use crate::text::{
    chars_of, ends_with, leading_ws, leading_ws_in, lemma_leading_ws_bound, lemma_word_end,
    parse_usize_str, parse_usize_text, push_joined, push_range, joined, starts_with,
    string_from_chars, strs_view, trailing_ws_in, trim, trim_bounds, trim_end, word_end_in,
    words_from,
};

verus! {

/// Settings of the collapser.
#[derive(Clone, Copy, PartialEq, Eq, Structural, Debug)]
pub struct Options {
    /// The number of threads to use.
    pub nthreads: usize,
}

/// `num_cpus::get`: the number of CPUs available to this process, which depends on the
/// machine; nothing is stated of it.
#[verifier::external_body]
fn logical_cpus() -> usize {
    num_cpus::get()
}

impl Default for Options {
    fn default() -> (o: Options) {
        Options { nthreads: logical_cpus() }
    }
}

/// The number of leading whitespace characters of a stack line; 0 for a blank line.
pub open spec fn pmc_indent(l: Seq<char>) -> int {
    if leading_ws(l) < l.len() { leading_ws(l) as int } else { 0 }
}

/// Whether the indent, counted in characters, is also a character boundary of the line's
/// UTF-8 bytes, so that the line can be cut there.
pub open spec fn indent_split_ok(l: Seq<char>) -> bool {
    vstd::utf8::is_char_boundary(vstd::utf8::encode_utf8(l), pmc_indent(l))
}

/// A stack line split into its indent, its percentage (without `%`), its count (in
/// brackets) and its function; `None` where the line has fewer than three words or its
/// first two are not of that form.
pub open spec fn pmc_line_parts(l: Seq<char>) -> Option<(int, Seq<char>, usize, Seq<char>)> {
    let w = words_from(l, 0);
    if w.len() < 3 {
        None
    } else {
        let p = w[0];
        let c = w[1];
        if p.len() >= 2 && p.last() == '%' && c.len() >= 3 && c[0] == '[' && c.last() == ']' {
            match parse_usize_text(c.subrange(1, c.len() - 1)) {
                Some(n) => Some((pmc_indent(l), p.drop_last(), n, w[2])),
                None => None,
            }
        } else {
            None
        }
    }
}

/// The state of a collapse: the frames of the current chain (outermost first), the indent
/// and count of its last line, and how often each stack was counted.
pub ghost struct PmcState {
    pub stack: Seq<Seq<char>>,
    pub indent: Option<usize>,
    pub count: Option<usize>,
    pub occ: Map<Seq<char>, usize>,
}

/// Counts the current stack with the count of its last line; `None` where there is no such
/// count or the sum would overflow.
pub open spec fn count_stack(st: PmcState) -> Option<Map<Seq<char>, usize>> {
    match st.count {
        None => None,
        Some(c) => {
            let key = joined(st.stack);
            let a = added_count(st.occ, key, c);
            if a > usize::MAX { None } else { Some(st.occ.insert(key, a as usize)) }
        },
    }
}

/// What one stack line does. A line no deeper than the one before it counts the current
/// stack and keeps only its `indent` innermost frames; every line then pushes its function as
/// the outermost frame. `None` where the line cannot be cut at its indent, where it is deeper
/// than the stack it shares, or where counting fails.
pub open spec fn pmc_on_stack_line(st: PmcState, l: Seq<char>) -> Option<PmcState> {
    if !indent_split_ok(l) {
        None
    } else {
        match pmc_line_parts(l) {
            None => Some(st),
            Some((ind, _p, cnt, f)) => {
                let shared = st.indent matches Some(pi) && ind <= pi;
                if shared && ind > st.stack.len() {
                    None
                } else {
                    let occ = if shared { count_stack(st) } else { Some(st.occ) };
                    match occ {
                        None => None,
                        Some(o) => {
                            let kept = if shared { st.stack.skip(st.stack.len() - ind) } else { st.stack };
                            Some(PmcState { stack: seq![f] + kept, indent: Some(ind as usize), count: Some(cnt), occ: o })
                        },
                    }
                }
            },
        }
    }
}

/// The end of a chain: a non-empty stack is counted, and the chain state is reset.
pub open spec fn pmc_after_stack(st: PmcState) -> Option<PmcState> {
    let occ = if st.stack.len() > 0 { count_stack(st) } else { Some(st.occ) };
    match occ {
        None => None,
        Some(o) => Some(PmcState { stack: Seq::empty(), indent: None, count: None, occ: o }),
    }
}

/// What one input line does: a line starting with `@` is skipped, an empty one ends the
/// chain, any other is a stack line.
pub open spec fn pmc_step(st: PmcState, line: Seq<char>) -> Option<PmcState> {
    if starts_with(line, "@"@) {
        Some(st)
    } else {
        let t = trim_end(line);
        if t.len() == 0 { pmc_after_stack(st) } else { pmc_on_stack_line(st, t) }
    }
}

/// The collapser after the first `k` lines; `None` where a line stops it.
pub open spec fn pmc_run(st: PmcState, lines: Seq<Seq<char>>, k: int) -> Option<PmcState>
    decreases k,
{
    if k <= 0 {
        Some(st)
    } else {
        match pmc_run(st, lines, k - 1) {
            None => None,
            Some(s) => pmc_step(s, lines[k - 1]),
        }
    }
}

/// The counts after all lines, a chain still open at the end counted too.
pub open spec fn pmc_result(st: PmcState, lines: Seq<Seq<char>>) -> Option<Map<Seq<char>, usize>> {
    match pmc_run(st, lines, lines.len() as int) {
        None => None,
        Some(s) => if s.stack.len() > 0 {
            match pmc_after_stack(s) {
                None => None,
                Some(s2) => Some(s2.occ),
            }
        } else {
            Some(s.occ)
        },
    }
}

proof fn lemma_pmc_run_none_stays(st: PmcState, lines: Seq<Seq<char>>, i: int, k: int)
    requires
        0 <= i <= k,
        pmc_run(st, lines, i) is None,
    ensures
        pmc_run(st, lines, k) is None,
    decreases k - i,
{
    if i < k {
        lemma_pmc_run_none_stays(st, lines, i, k - 1);
    }
}

/// The number of stacks handed to a thread at a time.
pub const DEFAULT_NSTACKS_PER_JOB: usize = 100;

/// A stack collapser for the output of `pmcstat -G`.
pub struct Folder {
    nstacks_per_job: usize,
    stack: VecDeque<String>,
    indent: Option<usize>,
    count: Option<usize>,
    occurrences: Occurrences,
    opt: Options,
}

impl Folder {
    /// The number of threads the collapser may use.
    pub closed spec fn threads(&self) -> usize {
        self.opt.nthreads
    }

    /// The number of stacks handed to a thread at a time.
    pub closed spec fn stacks_per_job(&self) -> usize {
        self.nstacks_per_job
    }
}

impl View for Folder {
    type V = PmcState;

    closed spec fn view(&self) -> PmcState {
        PmcState {
            stack: self.stack@.map_values(|s: String| s@),
            indent: self.indent,
            count: self.count,
            occ: self.occurrences@,
        }
    }
}

/// Whether a stack line can be cut at its indent.
pub fn indent_splits(line: &str) -> (b: bool)
    ensures
        b == indent_split_ok(line@),
{
    let c = chars_of(line);
    let n = c.len();
    let k = leading_ws_in(c.as_slice(), 0, n);
    assert(c@.subrange(0, n as int) =~= line@);
    let indent = if k < n { k } else { 0 };
    line.is_char_boundary(indent)
}

/// Splits a stack line into its indent, percentage, count and function.
pub fn stack_line_parts(line: &str) -> (r: Option<(usize, Vec<char>, usize, Vec<char>)>)
    ensures
        match pmc_line_parts(line@) {
            None => r is None,
            Some((i, p, c, f)) => r matches Some((ri, rp, rc, rf)) && ri == i && rp@ == p && rc == c && rf@ == f,
        },
{
    let s = chars_of(line);
    let n = s.len();
    let k = leading_ws_in(s.as_slice(), 0, n);
    assert(s@.subrange(0, n as int) =~= line@);
    let indent = if k < n { k } else { 0 };
    let mut words: Vec<Vec<char>> = Vec::new();
    let mut i: usize = 0;
    while i < n && words.len() < 3
        invariant
            i <= n == s@.len(),
            s@ == line@,
            words@.len() <= 3,
            words_from(s@, 0) == words@.map_values(|w: Vec<char>| w@) + words_from(s@, i as int),
        decreases n - i, 3 - words@.len(),
    {
        if crate::text::is_whitespace_char(s[i]) {
            i += 1;
        } else {
            let e = word_end_in(s.as_slice(), i + 1);
            proof { lemma_word_end(s@, i + 1); }
            let mut w: Vec<char> = Vec::new();
            push_range(&mut w, s.as_slice(), i, e);
            let ghost before = words@.map_values(|w: Vec<char>| w@);
            words.push(w);
            assert(words@.map_values(|w: Vec<char>| w@) =~= before.push(s@.subrange(i as int, e as int)));
            assert(words_from(s@, i as int) == seq![s@.subrange(i as int, e as int)] + words_from(s@, e as int));
            assert(before + (seq![s@.subrange(i as int, e as int)] + words_from(s@, e as int))
                =~= words@.map_values(|w: Vec<char>| w@) + words_from(s@, e as int));
            i = e;
        }
    }
    let ghost wv = words@.map_values(|w: Vec<char>| w@);
    if words.len() < 3 {
        assert(words_from(s@, i as int) =~= Seq::<Seq<char>>::empty());
        assert(words_from(s@, 0) =~= wv);
        return None;
    }
    assert(wv[0] == words_from(s@, 0)[0]);
    assert(wv[1] == words_from(s@, 0)[1]);
    assert(wv[2] == words_from(s@, 0)[2]);
    let p = &words[0];
    let c = &words[1];
    assert(p@ == wv[0] && c@ == wv[1] && words[2]@ == wv[2]);
    if p.len() >= 2 && p[p.len() - 1] == '%' && c.len() >= 3 && c[0] == '[' && c[c.len() - 1] == ']' {
        let mut middle: Vec<char> = Vec::new();
        push_range(&mut middle, c.as_slice(), 1, c.len() - 1);
        let ms = string_from_chars(middle.as_slice());
        match parse_usize_str(ms.as_str()) {
            Some(count) => {
                let mut percent: Vec<char> = Vec::new();
                push_range(&mut percent, p.as_slice(), 0, p.len() - 1);
                assert(percent@ =~= p@.drop_last());
                let mut function: Vec<char> = Vec::new();
                push_range(&mut function, words[2].as_slice(), 0, words[2].len());
                assert(function@ =~= words[2]@);
                proof { lemma_leading_ws_bound(line@); }
                Some((indent, percent, count, function))
            },
            None => None,
        }
    } else {
        None
    }
}

impl Folder {
    /// A collapser with the given options that has read nothing yet; 0 threads means 1.
    pub fn from_options(opt: Options) -> (f: Folder)
        ensures
            f@ == (PmcState { stack: Seq::empty(), indent: None, count: None, occ: Map::empty() }),
            f.threads() == if opt.nthreads == 0 { 1 } else { opt.nthreads },
            f.stacks_per_job() == DEFAULT_NSTACKS_PER_JOB,
    {
        let mut opt = opt;
        if opt.nthreads == 0 {
            opt.nthreads = 1;
        }
        let f = Folder {
            nstacks_per_job: DEFAULT_NSTACKS_PER_JOB,
            stack: VecDeque::new(),
            indent: None,
            count: None,
            occurrences: Occurrences::new(),
            opt,
        };
        assert(f@.stack =~= Seq::<Seq<char>>::empty());
        f
    }

    /// The number of threads to use.
    pub fn nthreads(&self) -> (n: usize)
        returns
            self.threads(),
    {
        self.opt.nthreads
    }

    /// Sets the number of threads to use.
    pub fn set_nthreads(&mut self, n: usize)
        ensures
            final(self).threads() == n,
            final(self)@ == old(self)@,
            final(self).stacks_per_job() == old(self).stacks_per_job(),
    {
        self.opt.nthreads = n;
    }

    /// The number of stacks handed to a thread at a time.
    pub fn nstacks_per_job(&self) -> (n: usize)
        returns
            self.stacks_per_job(),
    {
        self.nstacks_per_job
    }

    /// Sets the number of stacks handed to a thread at a time.
    pub fn set_nstacks_per_job(&mut self, n: usize)
        ensures
            final(self).stacks_per_job() == n,
            final(self)@ == old(self)@,
            final(self).threads() == old(self).threads(),
    {
        self.nstacks_per_job = n;
    }

    /// Counts the current stack with the count of its last line. Returns `false` where there
    /// is no such count or the sum would overflow.
    fn count_current(&mut self) -> (ok: bool)
        ensures
            match count_stack(old(self)@) {
                None => !ok && final(self)@ == old(self)@,
                Some(o) => ok && final(self)@ == (PmcState { occ: o, ..old(self)@ }),
            },
    {
        let c = match self.count {
            None => { return false; },
            Some(c) => c,
        };
        let n = self.stack.len();
        let mut frames: Vec<String> = Vec::new();
        let mut i: usize = 0;
        while i < n
            invariant
                n == self.stack@.len(),
                i <= n,
                strs_view(frames@) == self@.stack.take(i as int),
                self@ == old(self)@,
            decreases n - i,
        {
            let ghost before = strs_view(frames@);
            assert(self@.stack[i as int] == self.stack@[i as int]@);
            let f = string_from_chars(chars_of(self.stack[i].as_str()).as_slice());
            assert(f@ == self@.stack[i as int]);
            frames.push(f);
            assert(strs_view(frames@) =~= before.push(f@));
            assert(self@.stack.take(i + 1) =~= self@.stack.take(i as int).push(self@.stack[i as int]));
            i += 1;
        }
        assert(self@.stack.take(n as int) =~= self@.stack);
        let mut key_chars: Vec<char> = Vec::new();
        push_joined(&mut key_chars, frames.as_slice());
        let key = string_from_chars(key_chars.as_slice());
        let cur = match self.occurrences.get(key.as_str()) {
            Some(v) => v,
            None => 0,
        };
        if cur > usize::MAX - c {
            return false;
        }
        self.occurrences.insert_or_add(key, c);
        true
    }

    /// Reads one stack line (without trailing whitespace). Returns `false` where the line
    /// stops the collapse.
    pub fn on_stack_line(&mut self, line: &str) -> (ok: bool)
        ensures
            match pmc_on_stack_line(old(self)@, line@) {
                None => !ok,
                Some(st) => ok && final(self)@ == st,
            },
    {
        if !indent_splits(line) {
            return false;
        }
        let (ind, _percent, cnt, function) = match stack_line_parts(line) {
            None => { return true; },
            Some(parts) => parts,
        };
        let shared = match self.indent {
            Some(pi) => ind <= pi,
            None => false,
        };
        if shared {
            if ind > self.stack.len() {
                return false;
            }
            if !self.count_current() {
                return false;
            }
            let n = self.stack.len();
            let ghost before = self@.stack;
            let kept = self.stack.split_off(n - ind);
            self.stack = kept;
            assert(self@.stack =~= before.skip(n - ind));
        }
        let ghost before = self@.stack;
        self.indent = Some(ind);
        self.count = Some(cnt);
        self.stack.push_front(string_from_chars(function.as_slice()));
        assert(self@.stack =~= seq![function@] + before);
        true
    }

    /// Ends the current chain. Returns `false` where counting it fails.
    fn after_stack(&mut self) -> (ok: bool)
        ensures
            match pmc_after_stack(old(self)@) {
                None => !ok,
                Some(st) => ok && final(self)@ == st,
            },
    {
        if self.stack.len() > 0 {
            if !self.count_current() {
                return false;
            }
        }
        self.stack = VecDeque::new();
        self.indent = None;
        self.count = None;
        assert(self@.stack =~= Seq::<Seq<char>>::empty());
        true
    }

    /// Reads one input line. Returns `false` where the line stops the collapse.
    pub fn on_line(&mut self, line: &str) -> (ok: bool)
        ensures
            match pmc_step(old(self)@, line@) {
                None => !ok,
                Some(st) => ok && final(self)@ == st,
            },
    {
        let c = chars_of(line);
        let at: [char; 1] = ['@'];
        assert(at@ =~= "@"@) by { reveal_strlit("@"); }
        if crate::text::starts_with_chars(c.as_slice(), at.as_slice()) {
            return true;
        }
        let k = trailing_ws_in(c.as_slice(), 0, c.len());
        assert(c@.subrange(0, c@.len() as int) =~= c@);
        let t = string_from_chars(&c[0..c.len() - k]);
        assert(t@ =~= trim_end(line@));
        if t.as_str().is_empty() {
            self.after_stack()
        } else {
            self.on_stack_line(t.as_str())
        }
    }

    /// Collapses `pmcstat -G` output into folded lines `stack count`, one per distinct stack,
    /// in increasing order of stack, the counts of a stack summed. `None` where a line stops
    /// the collapse (one that cannot be cut at its indent, or a chain deeper than the one it
    /// shares frames with) or a count would overflow. The collapser is reset afterwards.
    pub fn collapse_text(&mut self, text: &str) -> (r: Option<String>)
        ensures
            match pmc_result(old(self)@, read_lines(text@)) {
                None => r is None,
                Some(occ) => {
                    &&& final(self)@ == (PmcState { stack: Seq::empty(), indent: None, count: None, occ: Map::empty() })
                    &&& r matches Some(out)
                    &&& exists|e: Seq<(Seq<char>, usize)>| {
                        &&& sorted_keys(e)
                        &&& keyed_map(e) == occ
                        &&& out@ == count_lines(e)
                    }
                },
            },
    {
        let lines = input_lines(text);
        self.collapse_lines(lines.as_slice())
    }

    /// Collapses the given lines, as `collapse_text` does with the lines of a text.
    pub fn collapse_lines(&mut self, lines: &[String]) -> (r: Option<String>)
        ensures
            match pmc_result(old(self)@, strs_view(lines@)) {
                None => r is None,
                Some(occ) => {
                    &&& final(self)@ == (PmcState { stack: Seq::empty(), indent: None, count: None, occ: Map::empty() })
                    &&& r matches Some(out)
                    &&& exists|e: Seq<(Seq<char>, usize)>| {
                        &&& sorted_keys(e)
                        &&& keyed_map(e) == occ
                        &&& out@ == count_lines(e)
                    }
                },
            },
    {
        let ghost lv = strs_view(lines@);
        let mut i: usize = 0;
        while i < lines.len()
            invariant
                strs_view(lines@) == lv,
                i <= lines@.len(),
                pmc_run(old(self)@, lv, i as int) == Some(self@),
            decreases lines.len() - i,
        {
            assert(lv[i as int] == lines@[i as int]@);
            if !self.on_line(lines[i].as_str()) {
                proof { lemma_pmc_run_none_stays(old(self)@, lv, i + 1, lv.len() as int); }
                return None;
            }
            i += 1;
        }
        if self.stack.len() > 0 {
            if !self.after_stack() {
                return None;
            }
        }
        let out = self.occurrences.write_and_clear();
        self.stack = VecDeque::new();
        self.indent = None;
        self.count = None;
        assert(self@.stack =~= Seq::<Seq<char>>::empty());
        Some(out)
    }

    /// Whether the input is `pmcstat -G` output: its first line, trimmed, starts with `@ `
    /// and ends with ` samples]`. `None` (not sure) for an empty input.
    pub fn is_applicable(&mut self, input: &str) -> (r: Option<bool>)
        ensures
            final(self)@ == old(self)@,
            r == (if read_lines(input@).len() == 0 {
                None
            } else {
                let t = trim(read_lines(input@)[0]);
                Some(starts_with(t, "@ "@) && ends_with(t, " samples]"@))
            }),
    {
        let lines = input_lines(input);
        if lines.len() == 0 {
            return None;
        }
        let c = chars_of(lines[0].as_str());
        let (lo, hi) = trim_bounds(c.as_slice(), 0, c.len());
        assert(c@.subrange(0, c@.len() as int) =~= c@);
        let t = &c[lo..hi];
        let head = chars_of("@ ");
        let tail = chars_of(" samples]");
        Some(crate::text::starts_with_chars(t, head.as_slice()) && crate::text::ends_with_chars(t, tail.as_slice()))
    }
}

impl Default for Folder {
    fn default() -> (f: Folder)
        ensures
            f@ == (PmcState { stack: Seq::empty(), indent: None, count: None, occ: Map::empty() }),
    {
        Folder::from_options(Options::default())
    }
}


// ------------------------------------------------------------------
// Collapsing in pieces
// ------------------------------------------------------------------

/// The count of a stack in a map, 0 where it has none.
pub open spec fn count_in(m: Map<Seq<char>, usize>, k: Seq<char>) -> nat {
    if m.contains_key(k) { m[k] as nat } else { 0 }
}

/// `x` holds the stacks of `o` and of `y`, each counted as often as in both together.
pub open spec fn counts_add_up(x: Map<Seq<char>, usize>, o: Map<Seq<char>, usize>, y: Map<Seq<char>, usize>) -> bool {
    forall|k: Seq<char>| {
        &&& #[trigger] x.contains_key(k) == (o.contains_key(k) || y.contains_key(k))
        &&& count_in(x, k) == count_in(o, k) + count_in(y, k)
    }
}

/// The state at the start of a collapse, with the given counts.
pub open spec fn fresh_state(occ: Map<Seq<char>, usize>) -> PmcState {
    PmcState { stack: Seq::empty(), indent: None, count: None, occ }
}

/// Two states that differ only in their counts, the first counting `o` more.
pub open spec fn ahead_by(x: PmcState, y: PmcState, o: Map<Seq<char>, usize>) -> bool {
    &&& x.stack == y.stack
    &&& x.indent == y.indent
    &&& x.count == y.count
    &&& counts_add_up(x.occ, o, y.occ)
}

proof fn lemma_count_stack_ahead(x: PmcState, y: PmcState, o: Map<Seq<char>, usize>)
    requires
        ahead_by(x, y, o),
        count_stack(x) is Some,
    ensures
        count_stack(y) is Some,
        counts_add_up(count_stack(x)->0, o, count_stack(y)->0),
{
    let c = x.count->0;
    let key = joined(x.stack);
    assert(count_in(x.occ, key) == count_in(o, key) + count_in(y.occ, key));
    let ax = added_count(x.occ, key, c);
    let ay = added_count(y.occ, key, c);
    assert(ax == count_in(x.occ, key) + c);
    assert(ay == count_in(y.occ, key) + c);
    let mx = x.occ.insert(key, ax as usize);
    let my = y.occ.insert(key, ay as usize);
    assert forall|k: Seq<char>| {
        &&& #[trigger] mx.contains_key(k) == (o.contains_key(k) || my.contains_key(k))
        &&& count_in(mx, k) == count_in(o, k) + count_in(my, k)
    } by {
        if k != key {
            assert(count_in(x.occ, k) == count_in(o, k) + count_in(y.occ, k));
        }
    }
}

proof fn lemma_step_ahead(x: PmcState, y: PmcState, o: Map<Seq<char>, usize>, line: Seq<char>)
    requires
        ahead_by(x, y, o),
        pmc_step(x, line) is Some,
    ensures
        pmc_step(y, line) is Some,
        ahead_by(pmc_step(x, line)->0, pmc_step(y, line)->0, o),
{
    if !starts_with(line, "@"@) {
        let t = trim_end(line);
        if t.len() == 0 {
            if x.stack.len() > 0 {
                lemma_count_stack_ahead(x, y, o);
            }
        } else if indent_split_ok(t) {
            match pmc_line_parts(t) {
                None => {},
                Some((ind, _p, cnt, f)) => {
                    let shared = x.indent matches Some(pi) && ind <= pi;
                    if shared {
                        lemma_count_stack_ahead(x, y, o);
                    }
                },
            }
        }
    }
}

proof fn lemma_run_ahead(x: PmcState, y: PmcState, o: Map<Seq<char>, usize>, lines: Seq<Seq<char>>, k: int)
    requires
        ahead_by(x, y, o),
        pmc_run(x, lines, k) is Some,
    ensures
        pmc_run(y, lines, k) is Some,
        ahead_by(pmc_run(x, lines, k)->0, pmc_run(y, lines, k)->0, o),
    decreases k,
{
    if k > 0 {
        lemma_run_ahead(x, y, o, lines, k - 1);
        lemma_step_ahead(pmc_run(x, lines, k - 1)->0, pmc_run(y, lines, k - 1)->0, o, lines[k - 1]);
    }
}

proof fn lemma_run_concat(st: PmcState, l1: Seq<Seq<char>>, l2: Seq<Seq<char>>, k: int)
    requires
        0 <= k <= l2.len(),
    ensures
        pmc_run(st, l1 + l2, l1.len() + k) == match pmc_run(st, l1, l1.len() as int) {
            None => None,
            Some(s) => pmc_run(s, l2, k),
        },
    decreases k,
{
    if k == 0 {
        lemma_run_prefix(st, l1, l2, l1.len() as int);
    } else {
        lemma_run_concat(st, l1, l2, k - 1);
        assert((l1 + l2)[l1.len() + k - 1] == l2[k - 1]);
    }
}

proof fn lemma_run_prefix(st: PmcState, l1: Seq<Seq<char>>, l2: Seq<Seq<char>>, k: int)
    requires
        0 <= k <= l1.len(),
    ensures
        pmc_run(st, l1 + l2, k) == pmc_run(st, l1, k),
    decreases k,
{
    if k > 0 {
        lemma_run_prefix(st, l1, l2, k - 1);
        assert((l1 + l2)[k - 1] == l1[k - 1]);
    }
}

/// Collapsing in pieces gives the same counts: where the input is cut just after an empty
/// line (the end of a chain), the counts of the whole are, stack by stack, the counts of the
/// first piece plus those of the second, each piece collapsed from the start. This is what
/// lets the pieces be collapsed apart, on several threads.
pub proof fn collapse_in_pieces_adds_up(l1: Seq<Seq<char>>, l2: Seq<Seq<char>>)
    requires
        l1.len() > 0,
        trim_end(l1.last()).len() == 0,
        pmc_result(fresh_state(Map::empty()), l1 + l2) is Some,
    ensures
        pmc_result(fresh_state(Map::empty()), l1) is Some,
        pmc_result(fresh_state(Map::empty()), l2) is Some,
        counts_add_up(
            pmc_result(fresh_state(Map::empty()), l1 + l2)->0,
            pmc_result(fresh_state(Map::empty()), l1)->0,
            pmc_result(fresh_state(Map::empty()), l2)->0,
        ),
{
    let st0 = fresh_state(Map::empty());
    let n1 = l1.len() as int;
    let n2 = l2.len() as int;
    lemma_run_concat(st0, l1, l2, n2);
    assert((l1 + l2).len() == n1 + n2);
    // The whole runs through the first piece, which ends in an empty line.
    lemma_run_prefix(st0, l1, l2, n1);
    assert(pmc_run(st0, l1, n1) is Some) by {
        if pmc_run(st0, l1, n1) is None {
            lemma_pmc_run_none_stays(st0, l1 + l2, n1, n1 + n2);
        }
    }
    let a = pmc_run(st0, l1, n1)->0;
    assert(!starts_with(l1[n1 - 1], "@"@)) by {
        reveal_strlit("@");
        if starts_with(l1[n1 - 1], "@"@) {
            assert(l1[n1 - 1].subrange(0, 1)[0] == l1[n1 - 1][0]);
            assert(l1[n1 - 1][0] == '@');
            crate::text::lemma_trailing_ws_bound(l1[n1 - 1]);
            assert(trim_end(l1[n1 - 1]).len() == l1[n1 - 1].len() - crate::text::trailing_ws(l1[n1 - 1]));
            assert(crate::text::trailing_ws(l1[n1 - 1]) < l1[n1 - 1].len()) by {
                if crate::text::trailing_ws(l1[n1 - 1]) >= l1[n1 - 1].len() {
                    assert(crate::text::is_whitespace(l1[n1 - 1][0]));
                }
            }
        }
    }
    assert(a.stack.len() == 0 && a.indent is None && a.count is None);
    assert(a == fresh_state(a.occ));
    // From there, running ahead by the first piece's counts.
    assert(counts_add_up(a.occ, a.occ, Map::<Seq<char>, usize>::empty()));
    assert(ahead_by(a, st0, a.occ));
    lemma_run_ahead(a, st0, a.occ, l2, n2);
    let w = pmc_run(a, l2, n2)->0;
    let b = pmc_run(st0, l2, n2)->0;
    if w.stack.len() > 0 {
        lemma_count_stack_ahead(w, b, a.occ);
    }
}

/// The lines of the pieces, one piece after the other.
pub open spec fn pieces_joined(p: Seq<Seq<Seq<char>>>) -> Seq<Seq<char>>
    decreases p.len(),
{
    if p.len() == 0 {
        Seq::empty()
    } else {
        p[0] + pieces_joined(p.skip(1))
    }
}

/// How often the pieces, each collapsed from the start, count a stack together.
pub open spec fn pieces_count(p: Seq<Seq<Seq<char>>>, k: Seq<char>) -> nat
    decreases p.len(),
{
    if p.len() == 0 {
        0
    } else {
        count_in(pmc_result(fresh_state(Map::empty()), p[0])->0, k) + pieces_count(p.skip(1), k)
    }
}

/// Collapsing in jobs gives the counts of one whole collapse: where the input is cut into
/// pieces that each (but the last) end with an empty line, as the jobs of a collapse on
/// several threads are, each piece collapses, and every stack is counted by the whole as
/// often as by all the pieces together.
pub proof fn collapse_in_jobs_adds_up(p: Seq<Seq<Seq<char>>>)
    requires
        forall|i: int| 0 <= i < p.len() - 1 ==> #[trigger] p[i].len() > 0 && trim_end(p[i].last()).len() == 0,
        pmc_result(fresh_state(Map::empty()), pieces_joined(p)) is Some,
    ensures
        forall|i: int| 0 <= i < p.len() ==> #[trigger] pmc_result(fresh_state(Map::empty()), p[i]) is Some,
        forall|k: Seq<char>| #[trigger] count_in(pmc_result(fresh_state(Map::empty()), pieces_joined(p))->0, k)
            == pieces_count(p, k),
    decreases p.len(),
{
    let st0 = fresh_state(Map::empty());
    if p.len() == 0 {
        assert(pieces_joined(p) =~= Seq::<Seq<char>>::empty());
        assert(pmc_result(st0, pieces_joined(p)) == Some(Map::<Seq<char>, usize>::empty()));
        assert forall|k: Seq<char>| #[trigger] count_in(pmc_result(st0, pieces_joined(p))->0, k) == pieces_count(p, k) by {
            assert(count_in(Map::<Seq<char>, usize>::empty(), k) == 0);
        }
    } else if p.len() == 1 {
        assert(p.skip(1) =~= Seq::<Seq<Seq<char>>>::empty());
        assert(pieces_joined(p.skip(1)) =~= Seq::<Seq<char>>::empty());
        assert(pieces_joined(p) =~= p[0]);
        assert forall|k: Seq<char>| #[trigger] count_in(pmc_result(st0, pieces_joined(p))->0, k) == pieces_count(p, k) by {
            assert(pieces_count(p.skip(1), k) == 0);
        }
    } else {
        let rest = p.skip(1);
        let lr = pieces_joined(rest);
        assert(pieces_joined(p) == p[0] + lr);
        assert(p[0].len() > 0 && trim_end(p[0].last()).len() == 0);
        collapse_in_pieces_adds_up(p[0], lr);
        assert forall|i: int| 0 <= i < rest.len() - 1 implies #[trigger] rest[i].len() > 0 && trim_end(rest[i].last()).len() == 0 by {
            assert(rest[i] == p[i + 1]);
        }
        collapse_in_jobs_adds_up(rest);
        assert forall|i: int| 0 <= i < p.len() implies #[trigger] pmc_result(st0, p[i]) is Some by {
            if i > 0 {
                assert(p[i] == rest[i - 1]);
            }
        }
        assert forall|k: Seq<char>| #[trigger] count_in(pmc_result(st0, pieces_joined(p))->0, k) == pieces_count(p, k) by {
            assert(count_in(pmc_result(st0, lr)->0, k) == pieces_count(rest, k));
        }
    }
}

/// The piece of the lines from cut `i` to the next cut (or to the end).
pub open spec fn piece_at(lines: Seq<Seq<char>>, cuts: Seq<int>, i: int) -> Seq<Seq<char>> {
    lines.subrange(cuts[i], if i + 1 < cuts.len() { cuts[i + 1] } else { lines.len() as int })
}

/// The pieces the cuts make of the lines.
pub open spec fn cut_pieces(lines: Seq<Seq<char>>, cuts: Seq<int>) -> Seq<Seq<Seq<char>>> {
    Seq::new(cuts.len(), |i: int| piece_at(lines, cuts, i))
}

/// Cuts as [`crate::collapse::common::job_starts`] makes them: the first at 0, each after the
/// one before it and before the end, and each but the first just after an empty line.
pub open spec fn job_cuts(lines: Seq<Seq<char>>, cuts: Seq<int>) -> bool {
    &&& cuts.len() > 0
    &&& cuts[0] == 0
    &&& forall|k: int| 0 <= k < cuts.len() ==> 0 <= #[trigger] cuts[k]
    &&& forall|k: int| 0 < k < cuts.len() ==> cuts[k - 1] < #[trigger] cuts[k] < lines.len()
    &&& forall|k: int| 0 < k < cuts.len() ==> trim_end(lines[#[trigger] cuts[k] - 1]).len() == 0
}

#[verifier::spinoff_prover]
proof fn lemma_cut_pieces_join(lines: Seq<Seq<char>>, cuts: Seq<int>, i: int)
    requires
        job_cuts(lines, cuts),
        0 <= i < cuts.len(),
    ensures
        pieces_joined(cut_pieces(lines, cuts).skip(i)) == lines.subrange(cuts[i], lines.len() as int),
    decreases cuts.len() - i,
{
    let p = cut_pieces(lines, cuts);
    assert(p.skip(i).skip(1) =~= p.skip(i + 1));
    assert(p.skip(i)[0] == piece_at(lines, cuts, i));
    if i + 1 < cuts.len() {
        lemma_cut_pieces_join(lines, cuts, i + 1);
        assert(cuts[i] < cuts[i + 1] < lines.len());
        assert(lines.subrange(cuts[i], cuts[i + 1]) + lines.subrange(cuts[i + 1], lines.len() as int)
            =~= lines.subrange(cuts[i], lines.len() as int));
    } else {
        assert(p.skip(i + 1) =~= Seq::<Seq<Seq<char>>>::empty());
        assert(pieces_joined(p.skip(i + 1)) =~= Seq::<Seq<char>>::empty());
        assert(piece_at(lines, cuts, i) + Seq::<Seq<char>>::empty() =~= lines.subrange(cuts[i], lines.len() as int));
    }
}

/// Collapsing the jobs that [`crate::collapse::common::job_starts`] cuts gives the counts of
/// one whole collapse: where the whole collapses, each job does, and every stack is counted by
/// the whole as often as by all the jobs together.
#[verifier::spinoff_prover]
pub proof fn collapse_by_jobs_adds_up(lines: Seq<Seq<char>>, cuts: Seq<int>)
    requires
        job_cuts(lines, cuts),
        pmc_result(fresh_state(Map::empty()), lines) is Some,
    ensures
        forall|i: int| 0 <= i < cuts.len() ==> #[trigger] pmc_result(fresh_state(Map::empty()), piece_at(lines, cuts, i)) is Some,
        forall|k: Seq<char>| #[trigger] count_in(pmc_result(fresh_state(Map::empty()), lines)->0, k)
            == pieces_count(cut_pieces(lines, cuts), k),
{
    let p = cut_pieces(lines, cuts);
    lemma_cut_pieces_join(lines, cuts, 0);
    assert(p.skip(0) =~= p);
    assert(lines.subrange(0, lines.len() as int) =~= lines);
    assert forall|i: int| 0 <= i < p.len() - 1 implies #[trigger] p[i].len() > 0 && trim_end(p[i].last()).len() == 0 by {
        assert(p[i] == piece_at(lines, cuts, i));
        assert(cuts[i] < cuts[i + 1] < lines.len());
        assert(p[i].last() == lines[cuts[i + 1] - 1]);
    }
    collapse_in_jobs_adds_up(p);
    assert forall|i: int| 0 <= i < cuts.len() implies #[trigger] pmc_result(fresh_state(Map::empty()), piece_at(lines, cuts, i)) is Some by {
        assert(p[i] == piece_at(lines, cuts, i));
    }
}

/// A stack line whose indent is no deeper than the line before it ends that line's chain:
/// the stack up to the line before is counted once more, with that line's count, and the new
/// line's function is put in front of the frames above its indent only, so that frames of
/// lines at the same indent never stand in one stack; a deeper line counts nothing and
/// extends the stack. (Where the count would overflow, or the line is deeper than the stack
/// it shares, the collapse stops.)
pub proof fn shallower_line_ends_chain(st: PmcState, l: Seq<char>)
    requires
        indent_split_ok(l),
        pmc_line_parts(l) is Some,
        st.indent is Some,
        st.count is Some,
    ensures
        ({
            let (ind, _p, cnt, f) = pmc_line_parts(l)->0;
            let prev = st.indent->0;
            let key = joined(st.stack);
            let counted = added_count(st.occ, key, st.count->0);
            &&& ind <= prev && ind <= st.stack.len() && counted <= usize::MAX ==> pmc_on_stack_line(st, l) == Some(
                PmcState {
                    stack: seq![f] + st.stack.subrange(st.stack.len() - ind, st.stack.len() as int),
                    indent: Some(ind as usize),
                    count: Some(cnt),
                    occ: st.occ.insert(key, counted as usize),
                },
            )
            &&& ind <= prev && ind <= st.stack.len() && counted <= usize::MAX
                ==> pmc_on_stack_line(st, l)->0.stack.len() == ind + 1
            &&& ind > prev ==> pmc_on_stack_line(st, l) == Some(
                PmcState { stack: seq![f] + st.stack, indent: Some(ind as usize), count: Some(cnt), occ: st.occ },
            )
        }),
{
    let (ind, _p, cnt, f) = pmc_line_parts(l)->0;
    assert(ind >= 0) by {
        crate::text::lemma_leading_ws_bound(l);
    }
    if ind <= st.stack.len() {
        assert(st.stack.skip(st.stack.len() - ind) =~= st.stack.subrange(st.stack.len() - ind, st.stack.len() as int));
    }
}

} // verus!
