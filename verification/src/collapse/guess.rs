//! Choosing a collapser from the input: the `perf`, DTrace and `sample` collapsers are asked,
//! in that order, whether the first ten lines, then the first twenty, and so on, look like
//! their input, until one says yes or all lines were read.
use vstd::prelude::*;
use crate::collapse::common::count_lines;
use crate::collapse::dtrace::{self, applicable_from, dtrace_run, header_end, DtraceState};
use crate::collapse::perf::{self, applicability, applicable_scan, perf_run, read_lines, PerfState};
use crate::collapse::sample::{self, graph_start, sample_applicable_from, sample_from, SampleState};
use crate::keyed::{keyed_map, sorted_keys};
use crate::text::{chars_of, find_chars_from, find_from, lemma_find_from_bounds, string_from_chars};

verus! {

/// Settings of the guessing collapser.
#[derive(Clone, Copy, PartialEq, Eq, Structural, Debug)]
pub struct Options {
    /// The number of threads the chosen collapser may use.
    pub nthreads: usize,
}

/// `num_cpus::get`: the number of CPUs available to this process, which depends on the
/// machine; nothing is stated of it.
#[verifier::external_body]
fn logical_cpus() -> usize {
    num_cpus::get()
}

impl Default for Options {
    fn default() -> (o: Options) {
        Options { nthreads: logical_cpus() }
    }
}

/// The collapsers that can be guessed.
#[derive(Clone, Copy, PartialEq, Eq, Structural, Debug)]
pub enum Collapser {
    Perf,
    Dtrace,
    Sample,
}

/// Where the first `m` lines from position `from` on end: just after their last newline, or at
/// the end of the text where it has fewer lines.
pub open spec fn prefix_end(text: Seq<char>, from: int, m: nat) -> int
    decreases m,
{
    if m == 0 {
        from
    } else {
        match find_from(text, seq!['\n'], from) {
            Some(j) => prefix_end(text, j + 1, (m - 1) as nat),
            None => text.len() as int,
        }
    }
}

pub proof fn lemma_prefix_end(text: Seq<char>, from: int, m: nat)
    requires
        0 <= from <= text.len(),
    ensures
        from <= prefix_end(text, from, m) <= text.len(),
        m > 0 && from < text.len() ==> from < prefix_end(text, from, m),
    decreases m,
{
    if m > 0 {
        lemma_find_from_bounds(text, seq!['\n'], from);
        match find_from(text, seq!['\n'], from) {
            Some(j) => {
                lemma_prefix_end(text, j + 1, (m - 1) as nat);
            },
            None => {},
        }
    }
}

/// The flags of the collapsers ruled out so far: `perf`, DTrace, `sample`.
pub ghost struct RuledOut {
    pub perf: bool,
    pub dtrace: bool,
    pub sample: bool,
}

/// The guess from the chunk that starts at `from` on: the collapsers not ruled out are asked,
/// in order, about all lines up to the end of the chunk; the first to answer `Some(true)` is
/// chosen, one answering `Some(false)` is ruled out. `Some(None)` where the text ends without
/// a choice, `None` where the `perf` collapser cannot decide.
pub open spec fn guess_from(text: Seq<char>, from: int, ruled: RuledOut) -> Option<Option<Collapser>>
    decreases text.len() - from,
{
    if from < 0 || from > text.len() {
        Some(None)
    } else {
        let end = prefix_end(text, from, 10);
        let lines = read_lines(text.take(end));
        let p = if ruled.perf { Some(None) } else { applicable_scan(lines, 0, false) };
        if p is None {
            None
        } else if p == Some(Some(true)) {
            Some(Some(Collapser::Perf))
        } else {
            let d = if ruled.dtrace { None } else { applicable_from(lines, 0, false, false) };
            if d == Some(true) {
                Some(Some(Collapser::Dtrace))
            } else {
                let s = if ruled.sample { None } else { sample_applicable_from(lines, 0, false) };
                if s == Some(true) {
                    Some(Some(Collapser::Sample))
                } else if end >= text.len() {
                    Some(None)
                } else {
                    proof {
                        lemma_prefix_end(text, from, 10);
                    }
                    guess_from(
                        text,
                        end,
                        RuledOut {
                            perf: ruled.perf || p == Some(Some(false)),
                            dtrace: ruled.dtrace || d == Some(false),
                            sample: ruled.sample || s == Some(false),
                        },
                    )
                }
            }
        }
    }
}

/// Which collapser the input is for: `Some(None)` where none fits, `None` where the `perf`
/// collapser cannot decide on a stack line.
pub fn guess(text: &str) -> (r: Option<Option<Collapser>>)
    ensures
        r == guess_from(text@, 0, RuledOut { perf: false, dtrace: false, sample: false }),
{
    let c = chars_of(text);
    let n = c.len();
    let nl: [char; 1] = ['\n'];
    assert(nl@ =~= seq!['\n']);
    let mut dtrace_folder = dtrace::Folder::default();
    let mut sample_folder = sample::Folder::default();
    let mut perf_out = false;
    let mut dtrace_out = false;
    let mut sample_out = false;
    let mut from: usize = 0;
    loop
        invariant
            from <= n == c@.len(),
            nl@ == seq!['\n'],
            c@ == text@,
            guess_from(text@, 0, RuledOut { perf: false, dtrace: false, sample: false })
                == guess_from(text@, from as int, RuledOut { perf: perf_out, dtrace: dtrace_out, sample: sample_out }),
        decreases n - from,
    {
        let ghost g = guess_from(text@, from as int, RuledOut { perf: perf_out, dtrace: dtrace_out, sample: sample_out });
        let mut end = from;
        let mut m: usize = 10;
        proof { lemma_prefix_end(c@, from as int, 10); }
        while m > 0
            invariant
                from <= end <= n == c@.len(),
                nl@ == seq!['\n'],
                m <= 10,
                prefix_end(c@, from as int, 10) == prefix_end(c@, end as int, m as nat),
            decreases m,
        {
            proof { lemma_find_from_bounds(c@, seq!['\n'], end as int); }
            match find_chars_from(c.as_slice(), nl.as_slice(), end) {
                Some(j) => {
                    end = j + 1;
                    m -= 1;
                },
                None => {
                    end = n;
                    m = 0;
                },
            }
        }
        let ghost e = prefix_end(c@, from as int, 10);
        assert(end == e);
        let buffer = string_from_chars(&c[0..end]);
        assert(buffer@ =~= text@.take(end as int));
        let ghost lines = read_lines(text@.take(end as int));
        let p: Option<Option<bool>> = if perf_out { Some(None) } else { applicability(buffer.as_str()) };
        match p {
            None => { return None; },
            Some(Some(true)) => { return Some(Some(Collapser::Perf)); },
            _ => {},
        }
        let d: Option<bool> = if dtrace_out { None } else { dtrace_folder.is_applicable(buffer.as_str()) };
        if d == Some(true) {
            return Some(Some(Collapser::Dtrace));
        }
        let s: Option<bool> = if sample_out { None } else { sample_folder.is_applicable(buffer.as_str()) };
        if s == Some(true) {
            return Some(Some(Collapser::Sample));
        }
        if end >= n {
            return Some(None);
        }
        proof { lemma_prefix_end(c@, from as int, 10); }
        perf_out = perf_out || p == Some(Some(false));
        dtrace_out = dtrace_out || d == Some(false);
        sample_out = sample_out || s == Some(false);
        from = end;
    }
}

/// The state the `perf` collapser starts in.
pub open spec fn perf_start() -> PerfState {
    PerfState {
        event_filter: None,
        in_event: false,
        pname: Seq::empty(),
        skip_stack: false,
        stack: Seq::empty(),
        occ: Map::empty(),
        annotate_jit: false,
        annotate_kernel: false,
        include_addrs: false,
        include_pid: false,
        include_tid: false,
    }
}

/// The state the DTrace collapser starts in.
pub open spec fn dtrace_start() -> DtraceState {
    DtraceState { stack: Seq::empty(), occ: Map::empty(), includeoffset: false }
}

/// The state the `sample` collapser starts in.
pub open spec fn sample_start() -> SampleState {
    SampleState { stack: Seq::empty(), current_samples: 0, no_modules: false }
}

/// Whether `out` holds the folded lines of the counts, in increasing order of stack.
pub open spec fn folded(out: Seq<char>, occ: Map<Seq<char>, usize>) -> bool {
    exists|e: Seq<(Seq<char>, usize)>| {
        &&& sorted_keys(e)
        &&& keyed_map(e) == occ
        &&& out == count_lines(e)
    }
}

/// What the chosen collapser, with default settings, makes of the whole text.
pub open spec fn guessed_output(text: Seq<char>, c: Collapser, r: Option<String>) -> bool {
    let lines = read_lines(text);
    match c {
        Collapser::Perf => match perf_run(perf_start(), lines, lines.len() as int) {
            None => r is None,
            Some(st) => r matches Some(out) && folded(out@, st.occ),
        },
        Collapser::Dtrace => match header_end(lines, 0) {
            None => r matches Some(out) && out@ == Seq::<char>::empty(),
            Some(h) => match dtrace_run(dtrace_start(), lines, h + 1, lines.len() as int) {
                None => r is None,
                Some(st) => r matches Some(out) && folded(out@, st.occ),
            },
        },
        Collapser::Sample => match graph_start(lines, 0) {
            None => r matches Some(out) && out@ == Seq::<char>::empty(),
            Some(s) => match sample_from(sample_start(), lines, s + 1, Seq::empty()) {
                None => r is None,
                Some((st, o)) => r matches Some(out) && out@ == o,
            },
        },
    }
}

/// A collapser that finds the collapser that fits the input and hands it the input.
pub struct Folder {
    opt: Options,
}

impl View for Folder {
    type V = Options;

    closed spec fn view(&self) -> Options {
        self.opt
    }
}

impl Folder {
    /// A guessing collapser with the given options.
    pub fn from_options(opt: Options) -> (f: Folder)
        ensures
            f@ == opt,
    {
        Folder { opt }
    }

    /// The number of threads the chosen collapser may use.
    pub fn nthreads(&self) -> (n: usize)
        ensures
            n == self@.nthreads,
    {
        self.opt.nthreads
    }

    /// Sets the number of threads the chosen collapser may use.
    pub fn set_nthreads(&mut self, n: usize)
        ensures
            final(self)@.nthreads == n,
    {
        self.opt.nthreads = n;
    }

    /// Collapses the input with the collapser that fits it, with default settings. Where none
    /// fits, nothing is written; `None` where deciding or collapsing stops.
    pub fn collapse_text(&mut self, text: &str) -> (r: Option<String>)
        ensures
            match guess_from(text@, 0, RuledOut { perf: false, dtrace: false, sample: false }) {
                None => r is None,
                Some(None) => r matches Some(out) && out@ == Seq::<char>::empty(),
                Some(Some(c)) => guessed_output(text@, c, r),
            },
    {
        match guess(text) {
            None => None,
            Some(None) => Some(String::new()),
            Some(Some(Collapser::Perf)) => {
                let mut opt = perf::Options::default();
                opt.nthreads = self.opt.nthreads;
                let mut folder = perf::Folder::from_options(opt);
                assert(folder@ == perf_start());
                folder.collapse_text(text)
            },
            Some(Some(Collapser::Dtrace)) => {
                let mut folder = dtrace::Folder::default();
                assert(folder@ == dtrace_start());
                folder.collapse_text(text)
            },
            Some(Some(Collapser::Sample)) => {
                let mut folder = sample::Folder::default();
                assert(folder@ == sample_start());
                folder.collapse_text(text)
            },
        }
    }
}

impl Default for Folder {
    fn default() -> (f: Folder) {
        Folder::from_options(Options::default())
    }
}

} // verus!
