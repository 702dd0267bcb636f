//! Collapsing the call graphs that macOS `sample` prints. The graph starts after a line
//! `Call graph:` and ends at a line `Total number in stack`; each of its lines is indented by
//! four spaces and then by two indent characters per level, and gives a sample count, a
//! function and, in brackets, the module it is in.
use vstd::prelude::*;
use crate::collapse::common::count_line;
use crate::collapse::perf::{input_lines, read_lines};
use crate::collapse::util::{fix_partially_demangled_rust_symbol, fixed_symbol};
use crate::text::{
    chars_of, ends_with, ends_with_chars, find, find_chars, joined, lemma_find_from_bounds,
    lemma_rfind_bounds, parse_usize_str, parse_usize_text, push_decimal, push_joined, push_range,
    push_str, rfind, rfind_chars, starts_with, starts_with_chars, string_from_chars, strs_view,
    trailing_ws, trim_end, trim_start, leading_ws_in, trailing_ws_in,
};

verus! {

/// Settings that change how frames are named.
#[derive(Clone, Copy, PartialEq, Eq, Structural, Debug)]
pub struct Options {
    /// Don't include modules with function names.
    pub no_modules: bool,
}

impl Default for Options {
    fn default() -> (o: Options)
        ensures
            !o.no_modules,
    {
        Options { no_modules: false }
    }
}

/// The symbols of waiting threads: a stack whose leaf ends in one of them is not written.
pub open spec fn ignore_symbols() -> Seq<Seq<char>> {
    seq![
        "__psynch_cvwait"@,
        "__select"@,
        "__semwait_signal"@,
        "__ulock_wait"@,
        "__wait4"@,
        "__workq_kernreturn"@,
        "kevent"@,
        "mach_msg_trap"@,
        "read"@,
        "semaphore_wait_trap"@,
    ]
}

/// Whether the leaf of the stack is a waiting symbol.
pub open spec fn ignored(stack: Seq<Seq<char>>) -> bool {
    stack.len() > 0 && exists|k: int| 0 <= k < ignore_symbols().len() && ends_with(stack.last(), #[trigger] ignore_symbols()[k])
}

/// The state of a collapse: the frames of the current stack, outermost first, and the
/// sample count of its last line.
pub ghost struct SampleState {
    pub stack: Seq<Seq<char>>,
    pub current_samples: usize,
    pub no_modules: bool,
}

/// What writing the current stack puts out: nothing for a waiting thread, else the frames
/// joined by `;`, a space and the sample count.
pub open spec fn stack_text(st: SampleState) -> Seq<char> {
    if ignored(st.stack) {
        Seq::empty()
    } else {
        count_line(joined(st.stack), st.current_samples)
    }
}

pub open spec fn is_indent_char(c: char) -> bool {
    c == ' ' || c == '+' || c == '|' || c == ':' || c == '!'
}

/// The position of the first character from `i` on that is not an indent character.
pub open spec fn first_non_indent(s: Seq<char>, i: int) -> Option<int>
    decreases s.len() - i,
{
    if i < 0 || i >= s.len() {
        None
    } else if !is_indent_char(s[i]) {
        Some(i)
    } else {
        first_non_indent(s, i + 1)
    }
}

/// The module of a line: what stands between its last `(in ` and the next `)`, without a
/// trailing `.dylib`; empty where there is no `)` after it.
pub open spec fn module_of(rest: Seq<char>) -> Seq<char> {
    let after = match rfind(rest, "(in "@) {
        Some(k) => rest.skip(k + 4),
        None => rest,
    };
    let m0 = match find(after, ")"@) {
        Some(c) => after.take(c),
        None => Seq::empty(),
    };
    if ends_with(m0, ".dylib"@) { m0.take(m0.len() - 6) } else { m0 }
}

/// A line without its indent, split into its sample count, its function (up to the first
/// `(`) and its module; `None` where the line has no space after its first word.
pub open spec fn sample_line_parts(no_modules: bool, l: Seq<char>) -> Option<(Seq<char>, Seq<char>, Seq<char>)> {
    let t = trim_start(l);
    match find(t, " "@) {
        None => None,
        Some(sp) => {
            let rest = t.skip(sp + 1);
            let func = trim_end(
                match find(rest, "("@) {
                    Some(o) => rest.take(o),
                    None => rest,
                },
            );
            let module = if no_modules { Seq::empty() } else { module_of(rest) };
            Some((trim_end(t.take(sp)), func, module))
        },
    }
}

/// What one call graph line (starting with four spaces) does: the new state and what it
/// writes. A line at a depth no deeper than the stack writes the stack and cuts it to the
/// line's parent; a line whose count parses pushes its frame. It is never `None`.
pub open spec fn sample_on_line(st: SampleState, l: Seq<char>) -> Option<(SampleState, Seq<char>)> {
    match first_non_indent(l.skip(4), 0) {
        None => Some((st, Seq::empty())),
        Some(ind) => {
            let depth = ind / 2 + 1;
            let out = if depth <= st.stack.len() { stack_text(st) } else { Seq::empty() };
            let st1 = if depth <= st.stack.len() {
                SampleState { stack: st.stack.take(depth - 1), ..st }
            } else {
                st
            };
            match sample_line_parts(st.no_modules, l.skip(4 + ind)) {
                None => Some((st1, out)),
                Some((samples, func, module)) => match parse_usize_text(samples) {
                    None => Some((st1, out)),
                    Some(n) => {
                        let f = fixed_symbol(func);
                        let frame = if module.len() == 0 { f } else { module + seq!['`'] + f };
                        Some((SampleState { stack: st1.stack.push(frame), current_samples: n, ..st1 }, out))
                    },
                },
            }
        },
    }
}

/// The collapse from line `i` on, with `out` written so far: the final state and all that
/// was written, the current stack last. `None` where a line stops it.
pub open spec fn sample_from(st: SampleState, lines: Seq<Seq<char>>, i: int, out: Seq<char>) -> Option<(SampleState, Seq<char>)>
    decreases lines.len() - i,
{
    if i < 0 || i >= lines.len() {
        Some((st, out + stack_text(st)))
    } else {
        let t = trim_end(lines[i]);
        if t.len() == 0 {
            sample_from(st, lines, i + 1, out)
        } else if starts_with(t, "    "@) {
            match sample_on_line(st, t) {
                None => None,
                Some((s2, o)) => sample_from(s2, lines, i + 1, out + o),
            }
        } else if starts_with(t, "Total number in stack"@) {
            Some((st, out + stack_text(st)))
        } else {
            sample_from(st, lines, i + 1, out)
        }
    }
}

/// The position of the line `Call graph:` (at its start), looking from line `i` on.
pub open spec fn graph_start(lines: Seq<Seq<char>>, i: int) -> Option<int>
    decreases lines.len() - i,
{
    if i < 0 || i >= lines.len() {
        None
    } else if starts_with(lines[i], "Call graph:"@) {
        Some(i)
    } else {
        graph_start(lines, i + 1)
    }
}

/// What the lines from `i` on tell of whether the input is `sample` output: a line
/// `Total number in stack` answers whether `Call graph:` came before it.
pub open spec fn sample_applicable_from(lines: Seq<Seq<char>>, i: int, found_start: bool) -> Option<bool>
    decreases lines.len() - i,
{
    if i < 0 || i >= lines.len() {
        None
    } else if starts_with(lines[i], "Call graph:"@) {
        sample_applicable_from(lines, i + 1, true)
    } else if starts_with(lines[i], "Total number in stack"@) {
        Some(found_start)
    } else {
        sample_applicable_from(lines, i + 1, found_start)
    }
}

/// A stack collapser for the output of `sample` on macOS.
pub struct Folder {
    stack: Vec<String>,
    current_samples: usize,
    opt: Options,
}

impl View for Folder {
    type V = SampleState;

    closed spec fn view(&self) -> SampleState {
        SampleState {
            stack: strs_view(self.stack@),
            current_samples: self.current_samples,
            no_modules: self.opt.no_modules,
        }
    }
}

fn is_indent(c: char) -> (b: bool)
    ensures
        b == is_indent_char(c),
{
    c == ' ' || c == '+' || c == '|' || c == ':' || c == '!'
}

/// The module of the part of a line after its sample count.
fn module_part(rest: &[char]) -> (m: Vec<char>)
    ensures
        m@ == module_of(rest@),
{
    let rn = rest.len();
    let pin = chars_of("(in ");
    proof {
        reveal_strlit("(in ");
        lemma_rfind_bounds(rest@, pin@);
    }
    let start = match rfind_chars(rest, pin.as_slice()) {
        Some(k) => k + 4,
        None => 0,
    };
    let after = &rest[start..rn];
    assert(after@ =~= (match rfind(rest@, "(in "@) { Some(k) => rest@.skip(k + 4), None => rest@ }));
    let close: [char; 1] = [')'];
    assert(close@ =~= ")"@) by { reveal_strlit(")"); }
    proof { lemma_find_from_bounds(after@, close@, 0); }
    let mend = match find_chars(after, close.as_slice()) {
        Some(c) => c,
        None => 0,
    };
    let ghost m0 = after@.take(mend as int);
    assert(m0 =~= (match find(after@, ")"@) { Some(c) => after@.take(c), None => Seq::<char>::empty() }));
    let dylib = chars_of(".dylib");
    proof { reveal_strlit(".dylib"); }
    let m0v = &after[0..mend];
    assert(m0v@ =~= m0);
    let keep = if ends_with_chars(m0v, dylib.as_slice()) { mend - 6 } else { mend };
    let mut module: Vec<char> = Vec::new();
    push_range(&mut module, after, 0, keep);
    assert(module@ =~= (if ends_with(m0, ".dylib"@) { m0.take(m0.len() - 6) } else { m0 }));
    module
}

/// The function of the part of a line after its sample count: up to its first `(`, without
/// trailing whitespace.
fn func_part(rest: &[char]) -> (f: Vec<char>)
    ensures
        f@ == trim_end(match find(rest@, "("@) { Some(o) => rest@.take(o), None => rest@ }),
{
    let open: [char; 1] = ['('];
    assert(open@ =~= "("@) by { reveal_strlit("("); }
    proof { lemma_find_from_bounds(rest@, open@, 0); }
    let fend = match find_chars(rest, open.as_slice()) {
        Some(o) => o,
        None => rest.len(),
    };
    let ghost f0 = rest@.subrange(0, fend as int);
    assert(f0 =~= (match find(rest@, "("@) { Some(o) => rest@.take(o), None => rest@ }));
    let fk = trailing_ws_in(rest, 0, fend);
    let mut func: Vec<char> = Vec::new();
    push_range(&mut func, rest, 0, fend - fk);
    assert(func@ =~= trim_end(f0));
    func
}

/// Splits a line without its indent into its sample count, function and module.
pub fn line_parts(no_modules: bool, l: &[char]) -> (r: Option<(Vec<char>, Vec<char>, Vec<char>)>)
    ensures
        match sample_line_parts(no_modules, l@) {
            None => r is None,
            Some((a, b, c)) => r matches Some((x, y, z)) && x@ == a && y@ == b && z@ == c,
        },
{
    let n = l.len();
    let lo = leading_ws_in(l, 0, n);
    assert(l@.subrange(0, n as int) =~= l@);
    let t = &l[lo..n];
    assert(t@ =~= trim_start(l@));
    let space: [char; 1] = [' '];
    assert(space@ =~= " "@) by { reveal_strlit(" "); }
    proof { lemma_find_from_bounds(t@, space@, 0); }
    let sp = match find_chars(t, space.as_slice()) {
        None => { return None; },
        Some(sp) => sp,
    };
    let tn = t.len();
    let rest = &t[sp + 1..tn];
    assert(rest@ =~= t@.skip(sp + 1));
    let func = func_part(rest);
    let tk = trailing_ws_in(t, 0, sp);
    let mut time: Vec<char> = Vec::new();
    push_range(&mut time, t, 0, sp - tk);
    assert(t@.take(sp as int) =~= t@.subrange(0, sp as int));
    assert(time@ =~= trim_end(t@.take(sp as int)));
    let module = if no_modules {
        let m: Vec<char> = Vec::new();
        assert(m@ =~= Seq::<char>::empty());
        m
    } else {
        module_part(rest)
    };
    Some((time, func, module))
}

impl Folder {
    /// A collapser with the given options that has read nothing yet.
    pub fn from_options(opt: Options) -> (f: Folder)
        ensures
            f@.stack == Seq::<Seq<char>>::empty(),
            f@.current_samples == 0,
            f@.no_modules == opt.no_modules,
    {
        let f = Folder { stack: Vec::new(), current_samples: 0, opt };
        assert(f@.stack =~= Seq::<Seq<char>>::empty());
        f
    }

    /// Appends what writing the current stack puts out.
    fn write_stack(&self, out: &mut Vec<char>)
        ensures
            final(out)@ == old(out)@ + stack_text(self@),
    {
        let ghost sv = self@.stack;
        let n = self.stack.len();
        if n > 0 {
            let syms: [&str; 10] = [
                "__psynch_cvwait",
                "__select",
                "__semwait_signal",
                "__ulock_wait",
                "__wait4",
                "__workq_kernreturn",
                "kevent",
                "mach_msg_trap",
                "read",
                "semaphore_wait_trap",
            ];
            assert(syms@.map_values(|s: &str| s@) =~= ignore_symbols());
            let leaf = chars_of(self.stack[n - 1].as_str());
            assert(leaf@ == sv.last());
            let mut k: usize = 0;
            while k < 10
                invariant
                    k <= 10,
                    syms@.map_values(|s: &str| s@) == ignore_symbols(),
                    sv == self@.stack,
                    leaf@ == sv.last(),
                    sv.len() > 0,
                    forall|j: int| 0 <= j < k ==> !ends_with(sv.last(), #[trigger] ignore_symbols()[j]),
                decreases 10 - k,
            {
                let sym = chars_of(syms[k]);
                assert(sym@ == ignore_symbols()[k as int]);
                if ends_with_chars(leaf.as_slice(), sym.as_slice()) {
                    assert(ignored(sv));
                    assert(out@ + stack_text(self@) =~= out@);
                    return;
                }
                k += 1;
            }
            assert(!ignored(sv));
        }
        push_joined(out, self.stack.as_slice());
        out.push(' ');
        push_decimal(out, self.current_samples as u64);
        out.push('\n');
    }

    /// Reads one call graph line, which starts with four spaces, appending what it writes to
    /// `out`. Returns `false` where the line stops the collapse, which no line does.
    pub fn on_line(&mut self, line: &str, out: &mut Vec<char>) -> (ok: bool)
        requires
            starts_with(line@, "    "@),
        ensures
            match sample_on_line(old(self)@, line@) {
                None => !ok,
                Some((st, o)) => ok && final(self)@ == st && final(out)@ == old(out)@ + o,
            },
    {
        let ghost out0 = out@;
        let ghost s0 = self@;
        let c = chars_of(line);
        let n = c.len();
        proof { reveal_strlit("    "); }
        let body = &c[4..n];
        assert(body@ =~= line@.skip(4));
        let mut ind: usize = 0;
        while ind < body.len() && is_indent(body[ind])
            invariant
                ind <= body@.len(),
                first_non_indent(body@, 0) == first_non_indent(body@, ind as int),
            decreases body.len() - ind,
        {
            ind += 1;
        }
        if ind == body.len() {
            assert(out@ =~= out0 + Seq::<char>::empty());
            return true;
        }
        assert(first_non_indent(line@.skip(4), 0) == Some(ind as int));
        let depth = ind / 2 + 1;
        let prev = self.stack.len();
        if depth <= prev {
            self.write_stack(out);
            let ghost before = self.stack@;
            self.stack.truncate(depth - 1);
            assert(strs_view(self.stack@) =~= strs_view(before).take(depth - 1));
        } else {
            assert(out@ =~= out0 + Seq::<char>::empty());
        }
        let ghost o1: Seq<char> = if depth <= s0.stack.len() { stack_text(s0) } else { Seq::empty() };
        let ghost st1 = if depth <= s0.stack.len() { SampleState { stack: s0.stack.take(depth - 1), ..s0 } } else { s0 };
        assert(out@ == out0 + o1);
        assert(self@ == st1);
        let rest = &c[4 + ind..n];
        assert(rest@ =~= line@.skip(4 + ind));
        match line_parts(self.opt.no_modules, rest) {
            None => {
                assert(sample_line_parts(s0.no_modules, line@.skip(4 + ind)) is None);
                true
            },
            Some((samples, func, module)) => {
                let ss = string_from_chars(samples.as_slice());
                match parse_usize_str(ss.as_str()) {
                    None => {
                        assert(sample_on_line(s0, line@) == Some((st1, o1)));
                        true
                    },
                    Some(count) => {
                        let fs = string_from_chars(func.as_slice());
                        let fixed = fix_partially_demangled_rust_symbol(fs.as_str());
                        let frame = if module.len() == 0 {
                            fixed
                        } else {
                            let mut fr = module;
                            fr.push('`');
                            push_str(&mut fr, fixed.as_str());
                            string_from_chars(fr.as_slice())
                        };
                        self.current_samples = count;
                        let ghost before = self.stack@;
                        self.stack.push(frame);
                        assert(strs_view(self.stack@) =~= strs_view(before).push(frame@));
                        assert(frame@ == (if module@.len() == 0 { fixed_symbol(func@) } else { module@ + seq!['`'] + fixed_symbol(func@) }));
                        assert(self@ == SampleState { stack: st1.stack.push(frame@), current_samples: count, ..st1 });
                        true
                    },
                }
            },
        }
    }

    /// Collapses `sample` output into lines `stack count`, in the order the call graph gives
    /// them, each written when the graph leaves it. Nothing is written without a line
    /// `Call graph:`.
    pub fn collapse_text(&mut self, text: &str) -> (r: Option<String>)
        ensures
            match graph_start(read_lines(text@), 0) {
                None => final(self)@ == old(self)@ && (r matches Some(out) && out@ == Seq::<char>::empty()),
                Some(s) => match sample_from(old(self)@, read_lines(text@), s + 1, Seq::empty()) {
                    None => r is None,
                    Some((st, o)) => final(self)@ == st && (r matches Some(out) && out@ == o),
                },
            },
    {
        let lines = input_lines(text);
        let ghost lv = read_lines(text@);
        let n = lines.len();
        let start_pat = chars_of("Call graph:");
        let end_pat = chars_of("Total number in stack");
        let indent = chars_of("    ");
        let mut s: usize = 0;
        while s < n && !starts_with_chars(chars_of(lines[s].as_str()).as_slice(), start_pat.as_slice())
            invariant
                strs_view(lines@) == lv,
                lv == read_lines(text@),
                s <= n == lines@.len(),
                start_pat@ == "Call graph:"@,
                graph_start(lv, 0) == graph_start(lv, s as int),
            decreases n - s,
        {
            assert(lv[s as int] == lines@[s as int]@);
            s += 1;
        }
        if s == n {
            return Some(String::new());
        }
        assert(lv[s as int] == lines@[s as int]@);
        let mut out: Vec<char> = Vec::new();
        let mut i = s + 1;
        while i < n
            invariant
                strs_view(lines@) == lv,
                lv == read_lines(text@),
                s < i <= n == lines@.len(),
                end_pat@ == "Total number in stack"@,
                indent@ == "    "@,
                graph_start(lv, 0) == Some(s as int),
                sample_from(old(self)@, lv, s + 1, Seq::empty()) == sample_from(self@, lv, i as int, out@),
            decreases n - i,
        {
            assert(lv[i as int] == lines@[i as int]@);
            let c = chars_of(lines[i].as_str());
            let k = trailing_ws_in(c.as_slice(), 0, c.len());
            assert(c@.subrange(0, c@.len() as int) =~= c@);
            let t = &c[0..c.len() - k];
            assert(t@ =~= trim_end(lv[i as int]));
            if t.len() == 0 {
            } else if starts_with_chars(t, indent.as_slice()) {
                let ts = string_from_chars(t);
                if !self.on_line(ts.as_str(), &mut out) {
                    return None;
                }
            } else if starts_with_chars(t, end_pat.as_slice()) {
                self.write_stack(&mut out);
                return Some(string_from_chars(out.as_slice()));
            }
            i += 1;
        }
        self.write_stack(&mut out);
        Some(string_from_chars(out.as_slice()))
    }

    /// Whether the input looks like `sample` output: a line `Total number in stack` gives
    /// `Some(true)` if a line `Call graph:` came before it and `Some(false)` otherwise; an
    /// input with neither gives `None` (not sure).
    pub fn is_applicable(&mut self, input: &str) -> (r: Option<bool>)
        ensures
            final(self)@ == old(self)@,
            r == sample_applicable_from(read_lines(input@), 0, false),
    {
        let lines = input_lines(input);
        let ghost lv = read_lines(input@);
        let n = lines.len();
        let start_pat = chars_of("Call graph:");
        let end_pat = chars_of("Total number in stack");
        let mut found_start = false;
        let mut i: usize = 0;
        while i < n
            invariant
                strs_view(lines@) == lv,
                lv == read_lines(input@),
                i <= n == lines@.len(),
                start_pat@ == "Call graph:"@,
                end_pat@ == "Total number in stack"@,
                sample_applicable_from(lv, 0, false) == sample_applicable_from(lv, i as int, found_start),
            decreases n - i,
        {
            assert(lv[i as int] == lines@[i as int]@);
            let c = chars_of(lines[i].as_str());
            if starts_with_chars(c.as_slice(), start_pat.as_slice()) {
                found_start = true;
            } else if starts_with_chars(c.as_slice(), end_pat.as_slice()) {
                return Some(found_start);
            }
            i += 1;
        }
        None
    }
}

impl Default for Folder {
    fn default() -> (f: Folder)
        ensures
            f@.stack == Seq::<Seq<char>>::empty(),
            f@.current_samples == 0,
            !f@.no_modules,
    {
        Folder::from_options(Options::default())
    }
}

/// A waiting thread is not written: a stack whose leaf frame ends in one of the waiting
/// symbols `__psynch_cvwait`, `__select`, `__semwait_signal`, `__ulock_wait`, `__wait4`,
/// `__workq_kernreturn`, `kevent`, `mach_msg_trap`, `read` or `semaphore_wait_trap` writes
/// nothing.
pub proof fn waiting_threads_are_not_written(st: SampleState, sym: Seq<char>)
    requires
        st.stack.len() > 0,
        ends_with(st.stack.last(), sym),
        sym == "__psynch_cvwait"@ || sym == "__select"@ || sym == "__semwait_signal"@
            || sym == "__ulock_wait"@ || sym == "__wait4"@ || sym == "__workq_kernreturn"@
            || sym == "kevent"@ || sym == "mach_msg_trap"@ || sym == "read"@
            || sym == "semaphore_wait_trap"@,
    ensures
        stack_text(st) == Seq::<char>::empty(),
{
    let syms = ignore_symbols();
    if sym == "__psynch_cvwait"@ {
        assert(syms[0] == sym);
    } else if sym == "__select"@ {
        assert(syms[1] == sym);
    } else if sym == "__semwait_signal"@ {
        assert(syms[2] == sym);
    } else if sym == "__ulock_wait"@ {
        assert(syms[3] == sym);
    } else if sym == "__wait4"@ {
        assert(syms[4] == sym);
    } else if sym == "__workq_kernreturn"@ {
        assert(syms[5] == sym);
    } else if sym == "kevent"@ {
        assert(syms[6] == sym);
    } else if sym == "mach_msg_trap"@ {
        assert(syms[7] == sym);
    } else if sym == "read"@ {
        assert(syms[8] == sym);
    } else {
        assert(syms[9] == sym);
    }
    assert(ignored(st.stack));
}

} // verus!
