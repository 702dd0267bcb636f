//! A small collapser for `perf script` output that recognises event and stack lines with
//! regular expressions. Each event is a line naming the process, followed by its stack, one
//! frame per line, innermost first, and an empty line; lines starting with `#` are comments.
use vstd::prelude::*;
use std::collections::VecDeque;
use crate::collapse::common::{added_count, count_lines, Occurrences};
use crate::collapse::perf::{input_lines, module_fallback, read_lines, tidied, tidy_generic, with_module_fallback};
use crate::keyed::{keyed_map, sorted_keys};
use crate::text::{
    chars_of, ends_with, ends_with_chars, find, is_hex_digit, joined, lemma_find_from_bounds,
    lemma_rfind_bounds, occurs_at, push_joined, push_str, replace_char, replaced, rfind,
    rfind_chars, starts_with, starts_with_chars, str_eq, string_from_chars, strs_view,
    trailing_ws_in, trim_end,
};

verus! {

/// What the collapser adds to process names and frame names.
#[derive(Clone, Copy, PartialEq, Eq, Structural, Debug)]
pub struct Opt {
    /// Include the PID with process names.
    pub include_pid: bool,
    /// Include the TID and the PID with process names.
    pub include_tid: bool,
    /// Include raw addresses where symbols cannot be found.
    pub include_addrs: bool,
    /// Annotate JIT functions with `_[j]`.
    pub annotate_jit: bool,
    /// Annotate kernel functions with `_[k]`.
    pub annotate_kernel: bool,
    /// All annotations (kernel and JIT); this collapser reads the two settings above only.
    pub annotate_all: bool,
}

/// A name for the capture groups of the leftmost match of the regular expression `pattern`
/// in `text`, as the `regex` crate reports them (group 0 is the whole match; a group that
/// took no part in the match is `None`); `None` where nothing matches or the pattern is not
/// a valid expression.
pub uninterp spec fn regex_groups(pattern: Seq<char>, text: Seq<char>) -> Option<Seq<Option<Seq<char>>>>;

pub open spec fn groups_view(g: Option<Vec<Option<String>>>) -> Option<Seq<Option<Seq<char>>>> {
    match g {
        Some(v) => Some(v@.map_values(|x: Option<String>| match x {
            Some(s) => Some(s@),
            None => None,
        })),
        None => None,
    }
}

/// `regex::Regex::new` followed by `Regex::captures`: compiles the pattern and gives the
/// capture groups of its leftmost match in `text`, each group as its text; `None` where the
/// pattern does not compile or nothing matches. The contract names the result and states
/// nothing else of it.
#[verifier::external_body]
fn regex_captures(pattern: &str, text: &str) -> (r: Option<Vec<Option<String>>>)
    ensures
        groups_view(r) == regex_groups(pattern@, text@),
{
    let re = regex::Regex::new(pattern).ok()?;
    let caps = re.captures(text)?;
    Some(caps.iter().map(|m| m.map(|m| m.as_str().to_string())).collect())
}

/// An event line: the command (which may hold spaces), then the PID and, after a `/`, the
/// TID, then whitespace.
pub open spec fn event_line_regex() -> Seq<char> {
    "^(\\S.+?)\\s+(\\d+)/*(\\d+)*\\s+"@
}

fn event_line_pattern() -> (p: &'static str)
    ensures
        p@ == event_line_regex(),
{
    "^(\\S.+?)\\s+(\\d+)/*(\\d+)*\\s+"
}

/// A stack line: the address, the function and, in parentheses, the module.
pub open spec fn stack_line_regex() -> Seq<char> {
    "^\\s*(\\w+)\\s*(.+) \\((\\S*)\\)"@
}

fn stack_line_pattern() -> (p: &'static str)
    ensures
        p@ == stack_line_regex(),
{
    "^\\s*(\\w+)\\s*(.+) \\((\\S*)\\)"
}

/// Group `i` of a match, where it took part.
pub open spec fn group_at(g: Seq<Option<Seq<char>>>, i: int) -> Option<Seq<char>> {
    if 0 <= i < g.len() { g[i] } else { None }
}

fn group_of(g: &Vec<Option<String>>, i: usize) -> (r: Option<String>)
    ensures
        match group_at(g@.map_values(|x: Option<String>| match x { Some(s) => Some(s@), None => None }), i as int) {
            Some(s) => r matches Some(t) && t@ == s,
            None => r is None,
        },
{
    if i < g.len() {
        match &g[i] {
            Some(s) => Some(string_from_chars(chars_of(s.as_str()).as_slice())),
            None => None,
        }
    } else {
        None
    }
}

/// The command, PID and TID of an event line; where the line gives no TID, the PID is `?`
/// and the TID is the number given.
pub open spec fn event_fields(line: Seq<char>) -> Option<(Seq<char>, Seq<char>, Seq<char>)> {
    match regex_groups(event_line_regex(), trim_end(line)) {
        Some(g) => match (group_at(g, 1), group_at(g, 2)) {
            (Some(comm), Some(second)) => match group_at(g, 3) {
                Some(tid) => Some((comm, second, tid)),
                None => Some((comm, "?"@, second)),
            },
            _ => None,
        },
        None => None,
    }
}

/// The address, function and module of a stack line.
pub open spec fn stack_fields(line: Seq<char>) -> Option<(Seq<char>, Seq<char>, Seq<char>)> {
    match regex_groups(stack_line_regex(), trim_end(line)) {
        Some(g) => match (group_at(g, 1), group_at(g, 2), group_at(g, 3)) {
            (Some(pc), Some(func), Some(module)) => Some((pc, func, module)),
            _ => None,
        },
        None => None,
    }
}

/// The process name of an event: the command with spaces made `_`, followed by the PID, or
/// the PID and the TID, as the options ask.
pub open spec fn process_name(comm: Seq<char>, pid: Seq<char>, tid: Seq<char>, opt: Opt) -> Seq<char> {
    let base = replace_char(comm, ' ', '_');
    if opt.include_tid {
        base + "-"@ + pid + "/"@ + tid
    } else if opt.include_pid {
        base + "-"@ + pid
    } else {
        base
    }
}

/// A function name without a trailing symbol offset `+0x...` (hexadecimal digits only).
pub open spec fn without_offset(func: Seq<char>) -> Seq<char> {
    match rfind(func, "+0x"@) {
        Some(o) => if forall|i: int| o + 3 <= i < func.len() ==> is_hex_digit(#[trigger] func[i]) {
            func.take(o)
        } else {
            func
        },
        None => func,
    }
}

/// A frame name with the annotations the options ask for: `_[k]` for a kernel module (in
/// brackets, but not `[unknown]`, or a `vmlinux`), `_[j]` for a JIT map `/tmp/perf-*.map`.
pub open spec fn annotated(func: Seq<char>, module: Seq<char>, opt: Opt) -> Seq<char> {
    let k = if opt.annotate_kernel && (starts_with(module, "["@) || ends_with(module, "vmlinux"@))
        && module != "[unknown]"@ {
        func + "_[k]"@
    } else {
        func
    };
    if opt.annotate_jit && starts_with(module, "/tmp/perf-"@) && ends_with(module, ".map"@) {
        k + "_[j]"@
    } else {
        k
    }
}

/// The state of a collapse: whether an event is being read, whether its stack is skipped,
/// the frames read (outermost first), the counts of the stacks ended, the process name of
/// the event, and the options.
pub ghost struct ScriptState {
    pub in_event: bool,
    pub skip_stack: bool,
    pub stack: Seq<Seq<char>>,
    pub occ: Map<Seq<char>, usize>,
    pub pname: Seq<char>,
    pub opt: Opt,
}

/// What an event line does: it starts an event and sets the process name; a line that is
/// not an event line is passed over, outside any event.
pub open spec fn event_step(st: ScriptState, line: Seq<char>) -> ScriptState {
    match event_fields(line) {
        Some((comm, pid, tid)) => ScriptState {
            in_event: true,
            pname: process_name(comm, pid, tid, st.opt),
            ..st
        },
        None => ScriptState { in_event: false, ..st },
    }
}

/// What a stack line does: it puts its frame name in front of the stack; a line that is not
/// a stack line, or whose function starts with `(`, is passed over.
pub open spec fn stack_step(st: ScriptState, line: Seq<char>) -> ScriptState {
    if st.skip_stack {
        st
    } else {
        match stack_fields(line) {
            None => st,
            Some((pc, raw, module)) => {
                let f = without_offset(raw);
                if f.len() > 0 && f[0] == '(' {
                    st
                } else {
                    let func = tidied(module_fallback(module, f, pc, st.opt.include_addrs));
                    ScriptState { stack: seq![annotated(func, module, st.opt)] + st.stack, ..st }
                }
            },
        }
    }
}

/// A line that is not empty: an event line outside an event, a stack line inside one.
pub open spec fn line_step(st: ScriptState, line: Seq<char>) -> ScriptState {
    if !st.in_event { event_step(st, line) } else { stack_step(st, line) }
}

/// The end of an event: the process name and the frames, joined by `;`, are counted once
/// more; `None` where the count would overflow.
pub open spec fn event_end(st: ScriptState) -> Option<ScriptState> {
    let key = joined(seq![st.pname] + st.stack);
    let a = added_count(st.occ, key, 1);
    if a > usize::MAX {
        None
    } else {
        Some(ScriptState {
            in_event: false,
            skip_stack: false,
            stack: Seq::empty(),
            occ: st.occ.insert(key, a as usize),
            ..st
        })
    }
}

/// What one line of input does: comments are passed over, an empty line (but for trailing
/// whitespace) ends the event, any other line is read.
pub open spec fn script_step(st: ScriptState, line: Seq<char>) -> Option<ScriptState> {
    if starts_with(line, "#"@) {
        Some(st)
    } else if trim_end(line).len() == 0 {
        event_end(st)
    } else {
        Some(line_step(st, trim_end(line)))
    }
}

/// The collapser after the first `k` lines; `None` where a count overflows.
pub open spec fn script_run(st: ScriptState, lines: Seq<Seq<char>>, k: int) -> Option<ScriptState>
    decreases k,
{
    if k <= 0 {
        Some(st)
    } else {
        match script_run(st, lines, k - 1) {
            None => None,
            Some(s) => script_step(s, lines[k - 1]),
        }
    }
}

proof fn lemma_script_run_none_stays(st: ScriptState, lines: Seq<Seq<char>>, i: int, k: int)
    requires
        0 <= i <= k,
        script_run(st, lines, i) is None,
    ensures
        script_run(st, lines, k) is None,
    decreases k - i,
{
    if i < k {
        lemma_script_run_none_stays(st, lines, i, k - 1);
    }
}

/// Reads `perf script` output, counting each stack under its process name.
pub struct PerfState {
    in_event: bool,
    skip_stack: bool,
    stack: VecDeque<String>,
    occurrences: Occurrences,
    pname: String,
    opt: Opt,
}

impl View for PerfState {
    type V = ScriptState;

    closed spec fn view(&self) -> ScriptState {
        ScriptState {
            in_event: self.in_event,
            skip_stack: self.skip_stack,
            stack: strs_view(self.stack@),
            occ: self.occurrences@,
            pname: self.pname@,
            opt: self.opt,
        }
    }
}

fn trimmed_end(line: &str) -> (r: String)
    ensures
        r@ == trim_end(line@),
{
    let c = chars_of(line);
    assert(c@.subrange(0, c@.len() as int) =~= line@);
    let hi = c.len() - trailing_ws_in(c.as_slice(), 0, c.len());
    let r = string_from_chars(&c[0..hi]);
    assert(r@ =~= trim_end(line@));
    r
}

fn without_offset_str(func: &str) -> (r: String)
    ensures
        r@ == without_offset(func@),
{
    let c = chars_of(func);
    let pat = chars_of("+0x");
    proof { reveal_strlit("+0x"); }
    assert(pat@ =~= "+0x"@);
    match rfind_chars(c.as_slice(), pat.as_slice()) {
        None => string_from_chars(c.as_slice()),
        Some(o) => {
            proof { lemma_rfind_bounds(c@, pat@); }
            let n = c.len();
            let mut i: usize = o + 3;
            while i < n
                invariant
                    o + 3 <= i <= n == c@.len(),
                    c@ == func@,
                    rfind(func@, "+0x"@) == Some(o as int),
                    forall|j: int| o + 3 <= j < i ==> is_hex_digit(#[trigger] c@[j]),
                decreases n - i,
            {
                let ch = c[i];
                if !(('0' <= ch && ch <= '9') || ('a' <= ch && ch <= 'f') || ('A' <= ch && ch <= 'F')) {
                    assert(!is_hex_digit(c@[i as int]));
                    return string_from_chars(c.as_slice());
                }
                i += 1;
            }
            let r = string_from_chars(&c[0..o]);
            assert(r@ =~= func@.take(o as int));
            r
        },
    }
}

fn process_name_of(comm: &str, pid: &str, tid: &str, opt: Opt) -> (r: String)
    ensures
        r@ == process_name(comm@, pid@, tid@, opt),
{
    let c = chars_of(comm);
    let mut out = replaced(c.as_slice(), ' ', '_');
    if opt.include_tid {
        push_str(&mut out, "-");
        push_str(&mut out, pid);
        push_str(&mut out, "/");
        push_str(&mut out, tid);
    } else if opt.include_pid {
        push_str(&mut out, "-");
        push_str(&mut out, pid);
    }
    string_from_chars(out.as_slice())
}

fn annotated_name(func: String, module: &str, opt: Opt) -> (r: String)
    ensures
        r@ == annotated(func@, module@, opt),
{
    let m = chars_of(module);
    let mut out = chars_of(func.as_str());
    let open_bracket = chars_of("[");
    let vmlinux = chars_of("vmlinux");
    let tmp_perf = chars_of("/tmp/perf-");
    let map = chars_of(".map");
    proof {
        reveal_strlit("[");
        reveal_strlit("vmlinux");
        reveal_strlit("/tmp/perf-");
        reveal_strlit(".map");
    }
    if opt.annotate_kernel
        && (starts_with_chars(m.as_slice(), open_bracket.as_slice()) || ends_with_chars(m.as_slice(), vmlinux.as_slice()))
        && !str_eq(module, "[unknown]")
    {
        push_str(&mut out, "_[k]");
    }
    if opt.annotate_jit && starts_with_chars(m.as_slice(), tmp_perf.as_slice()) && ends_with_chars(m.as_slice(), map.as_slice()) {
        push_str(&mut out, "_[j]");
    }
    string_from_chars(out.as_slice())
}

impl PerfState {
    /// A collapser with the given options that has read nothing yet.
    pub fn from_opt(opt: Opt) -> (s: PerfState)
        ensures
            s@ == (ScriptState {
                in_event: false,
                skip_stack: false,
                stack: Seq::empty(),
                occ: Map::empty(),
                pname: Seq::empty(),
                opt,
            }),
    {
        let s = PerfState {
            in_event: false,
            skip_stack: false,
            stack: VecDeque::new(),
            occurrences: Occurrences::new(),
            pname: String::new(),
            opt,
        };
        assert(s@.stack =~= Seq::<Seq<char>>::empty());
        s
    }

    /// Reads a line that is not empty: an event line outside an event, a stack line inside.
    pub fn on_line(&mut self, line: &str)
        ensures
            final(self)@ == line_step(old(self)@, line@),
    {
        if !self.in_event {
            self.on_event_line(line)
        } else {
            self.on_stack_line(line)
        }
    }

    /// Reads an event line, like `java 25607 4794564.109216: cycles:`.
    pub fn on_event_line(&mut self, line: &str)
        ensures
            final(self)@ == event_step(old(self)@, line@),
    {
        self.in_event = true;
        let t = trimmed_end(line);
        let g = regex_captures(event_line_pattern(), t.as_str());
        match g {
            Some(fields) => {
                let comm = group_of(&fields, 1);
                let second = group_of(&fields, 2);
                let third = group_of(&fields, 3);
                match (comm, second) {
                    (Some(comm), Some(second)) => {
                        let pname = match third {
                            Some(tid) => process_name_of(comm.as_str(), second.as_str(), tid.as_str(), self.opt),
                            None => {
                                proof { reveal_strlit("?"); }
                                process_name_of(comm.as_str(), "?", second.as_str(), self.opt)
                            },
                        };
                        self.pname = pname;
                    },
                    _ => {
                        self.in_event = false;
                    },
                }
            },
            None => {
                self.in_event = false;
            },
        }
    }

    /// Reads a stack line, like `ffffffff8103ce3b native_safe_halt ([kernel.kallsyms])`.
    pub fn on_stack_line(&mut self, line: &str)
        ensures
            final(self)@ == stack_step(old(self)@, line@),
    {
        if self.skip_stack {
            return;
        }
        let t = trimmed_end(line);
        let g = regex_captures(stack_line_pattern(), t.as_str());
        let fields = match g {
            Some(fields) => fields,
            None => return,
        };
        let pc = group_of(&fields, 1);
        let raw = group_of(&fields, 2);
        let module = group_of(&fields, 3);
        match (pc, raw, module) {
            (Some(pc), Some(raw), Some(module)) => {
                let f = without_offset_str(raw.as_str());
                let fc = chars_of(f.as_str());
                if fc.len() > 0 && fc[0] == '(' {
                    return;
                }
                let named = with_module_fallback(module.as_str(), f.as_str(), pc.as_str(), self.opt.include_addrs);
                let func = tidy_generic(named);
                let frame = annotated_name(func, module.as_str(), self.opt);
                let ghost before = self@.stack;
                self.stack.push_front(frame);
                assert(self@.stack =~= seq![frame@] + before);
            },
            _ => {},
        }
    }

    /// Ends an event: counts its stack under the process name. Returns `false` where the
    /// count would overflow.
    pub fn after_event(&mut self) -> (ok: bool)
        ensures
            match event_end(old(self)@) {
                None => !ok,
                Some(st) => ok && final(self)@ == st,
            },
    {
        let mut frames: Vec<String> = Vec::new();
        frames.push(string_from_chars(chars_of(self.pname.as_str()).as_slice()));
        let n = self.stack.len();
        let ghost sv = self@.stack;
        let mut i: usize = 0;
        while i < n
            invariant
                sv == self@.stack,
                n == sv.len(),
                i <= n,
                strs_view(frames@) == seq![self@.pname] + sv.take(i as int),
            decreases n - i,
        {
            assert(sv[i as int] == self.stack@[i as int]@);
            let ghost before = strs_view(frames@);
            let f = string_from_chars(chars_of(self.stack[i].as_str()).as_slice());
            frames.push(f);
            assert(strs_view(frames@) =~= before.push(f@));
            assert(sv.take(i + 1) =~= sv.take(i as int).push(sv[i as int]));
            i += 1;
        }
        assert(sv.take(n as int) =~= sv);
        let mut out: Vec<char> = Vec::new();
        push_joined(&mut out, frames.as_slice());
        let key = string_from_chars(out.as_slice());
        let cur = match self.occurrences.get(key.as_str()) {
            Some(c) => c,
            None => 0,
        };
        if cur == usize::MAX {
            return false;
        }
        self.occurrences.insert_or_add(key, 1);
        self.in_event = false;
        self.skip_stack = false;
        self.stack = VecDeque::new();
        assert(self@.stack =~= Seq::<Seq<char>>::empty());
        true
    }

    /// Reads one line of input. Returns `false` where a count would overflow.
    pub fn on_input_line(&mut self, line: &str) -> (ok: bool)
        ensures
            match script_step(old(self)@, line@) {
                None => !ok,
                Some(st) => ok && final(self)@ == st,
            },
    {
        let c = chars_of(line);
        let hash = chars_of("#");
        proof { reveal_strlit("#"); }
        if starts_with_chars(c.as_slice(), hash.as_slice()) {
            return true;
        }
        let t = trimmed_end(line);
        if t.as_str().is_empty() {
            self.after_event()
        } else {
            self.on_line(t.as_str());
            true
        }
    }

    /// Collapses `perf script` output into folded lines `stack count`, one per distinct
    /// stack, in increasing order of stack; an event that the input does not end with an
    /// empty line is not counted. `None` where a count would overflow.
    pub fn collapse_text(&mut self, text: &str) -> (r: Option<String>)
        ensures
            match script_run(old(self)@, read_lines(text@), read_lines(text@).len() as int) {
                None => r is None,
                Some(st) => {
                    &&& final(self)@ == st
                    &&& r matches Some(out)
                    &&& exists|e: Seq<(Seq<char>, usize)>| {
                        &&& sorted_keys(e)
                        &&& keyed_map(e) == st.occ
                        &&& out@ == count_lines(e)
                    }
                },
            },
    {
        let lines = input_lines(text);
        let ghost lv = read_lines(text@);
        let n = lines.len();
        let mut i: usize = 0;
        while i < n
            invariant
                strs_view(lines@) == lv,
                lv == read_lines(text@),
                i <= n == lines@.len(),
                script_run(old(self)@, lv, i as int) == Some(self@),
            decreases n - i,
        {
            assert(lv[i as int] == lines@[i as int]@);
            if !self.on_input_line(lines[i].as_str()) {
                proof { lemma_script_run_none_stays(old(self)@, lv, i + 1, n as int); }
                return None;
            }
            i += 1;
        }
        Some(self.occurrences.write_sorted())
    }
}

} // verus!
