//! Collapsing the output of `perf script`.
//!
//! The output is a list of events: an event line (`comm pid/tid ... event:`) followed by one
//! stack line per frame, innermost first, and a blank line.
use vstd::prelude::*;
use std::collections::VecDeque;
use crate::collapse::common::{added_count, count_lines, Occurrences};
use crate::keyed::{keyed_map, sorted_keys};
use crate::text::{
    replace_char, replaced, split_at_pattern, split_pattern,
    chars_of, ends_with, ends_with_chars, find, find_chars, is_ascii_digit, lemma_find_from_bounds,
    lemma_rfind_bounds, push_range, push_str, rfind, rfind_chars, split_on, starts_with,
    starts_with_chars, str_eq, string_from_chars, strs_view, trim, trim_bounds, trim_end, trim_start,
    contains, contains_chars,
};

verus! {

// ------------------------------------------------------------------
// Naming frames
// ------------------------------------------------------------------

/// The last part of a path: what follows its last `/`.
pub open spec fn after_last_slash(module: Seq<char>) -> Seq<char> {
    match rfind(module, seq!['/']) {
        Some(i) => module.skip(i + 1),
        None => module,
    }
}

/// The name of a frame, where an unknown function is named after its module.
pub open spec fn module_fallback(module: Seq<char>, func: Seq<char>, pc: Seq<char>, include_addrs: bool) -> Seq<char> {
    if func != "[unknown]"@ {
        func
    } else if module == "[unknown]"@ && !include_addrs {
        func
    } else {
        let f = if module == "[unknown]"@ { "unknown"@ } else { after_last_slash(module) };
        if include_addrs {
            "["@ + f + " <"@ + pc + ">]"@
        } else {
            "["@ + f + "]"@
        }
    }
}

/// The name of a frame: an unknown function takes the last part of its module's path (or
/// `unknown`), in brackets, with its address where `include_addrs` is set.
pub fn with_module_fallback(module: &str, func: &str, pc: &str, include_addrs: bool) -> (r: String)
    ensures
        r@ == module_fallback(module@, func@, pc@, include_addrs),
{
    let unknown = str_eq(module, "[unknown]");
    if !str_eq(func, "[unknown]") || (unknown && !include_addrs) {
        return string_from_chars(chars_of(func).as_slice());
    }
    let mc = chars_of(module);
    let n = mc.len();
    let mut out: Vec<char> = Vec::new();
    push_str(&mut out, "[");
    let ghost start = out@;
    if unknown {
        push_str(&mut out, "unknown");
    } else {
        let slash: [char; 1] = ['/'];
        assert(slash@ =~= seq!['/']);
        proof { lemma_rfind_bounds(mc@, seq!['/']); }
        match rfind_chars(mc.as_slice(), slash.as_slice()) {
            Some(i) => {
                push_range(&mut out, mc.as_slice(), i + 1, n);
                assert(mc@.subrange(i + 1, mc@.len() as int) =~= mc@.skip(i + 1));
            },
            None => {
                push_range(&mut out, mc.as_slice(), 0, mc.len());
                assert(mc@.subrange(0, mc@.len() as int) =~= mc@);
            },
        }
    }
    let ghost f = if unknown { "unknown"@ } else { after_last_slash(module@) };
    assert(out@ == start + f);
    if include_addrs {
        push_str(&mut out, " <");
        push_str(&mut out, pc);
        push_str(&mut out, ">]");
        assert(out@ =~= "["@ + f + " <"@ + pc@ + ">]"@);
    } else {
        push_str(&mut out, "]");
        assert(out@ =~= "["@ + f + "]"@);
    }
    string_from_chars(out.as_slice())
}

/// A function name with `;` made `:` and the argument list cut off: from its first `(`,
/// unless that opens `(anonymous namespace)` or follows a `.` (a Go method); a `(` at the very
/// start follows nothing, so the whole name is cut.
pub open spec fn tidied(func: Seq<char>) -> Seq<char> {
    let f = replace_char(func, ';', ':');
    match find(f, seq!['(']) {
        None => f,
        Some(p) => if starts_with(f.skip(p), "(anonymous namespace)"@) {
            f
        } else if p > 0 && f[p - 1] == '.' {
            f
        } else {
            f.take(p)
        },
    }
}

/// Makes a function name nicer: `;` becomes `:` and the argument list is removed, but not
/// from Go method names like `net/http.(*Client).Do` nor from C++ anonymous namespaces.
pub fn tidy_generic(func: String) -> (r: String)
    ensures
        r@ == tidied(func@),
{
    let c = chars_of(func.as_str());
    let f = replaced(c.as_slice(), ';', ':');
    let paren: [char; 1] = ['('];
    assert(paren@ =~= seq!['(']);
    proof { lemma_find_from_bounds(f@, seq!['('], 0); }
    match find_chars(f.as_slice(), paren.as_slice()) {
        None => string_from_chars(f.as_slice()),
        Some(p) => {
            let anon = chars_of("(anonymous namespace)");
            let tail = &f[p..f.len()];
            assert(tail@ =~= f@.skip(p as int));
            if starts_with_chars(tail, anon.as_slice()) {
                string_from_chars(f.as_slice())
            } else if p > 0 && f[p - 1] == '.' {
                string_from_chars(f.as_slice())
            } else {
                let r = string_from_chars(&f[0..p]);
                assert(r@ =~= f@.take(p as int));
                r
            }
        },
    }
}

/// The text without its `<` and `>` characters.
pub open spec fn without_angles(s: Seq<char>) -> Seq<char>
    decreases s.len(),
{
    if s.len() == 0 {
        s
    } else {
        let p = without_angles(s.drop_last());
        if s.last() == '<' || s.last() == '>' { p } else { p.push(s.last()) }
    }
}

/// A Java frame name: a class name (`Lorg/...`) loses its leading `L`, and the angle brackets
/// of names like `<init>` are removed.
pub open spec fn tidied_java(func: Seq<char>) -> Seq<char> {
    let f = if func.len() > 0 && func[0] == 'L' && contains(func, seq!['/']) { func.skip(1) } else { func };
    without_angles(f)
}

/// Tidies a Java frame name; along with `tidy_generic` it turns
/// `Lorg/mozilla/javascript/MemberBox;.<init>(Ljava/lang/reflect/Method;)V` into
/// `org/mozilla/javascript/MemberBox:.init`.
pub fn tidy_java(func: String) -> (r: String)
    ensures
        r@ == tidied_java(func@),
{
    let c = chars_of(func.as_str());
    let slash: [char; 1] = ['/'];
    assert(slash@ =~= seq!['/']);
    let start: usize = if c.len() > 0 && c[0] == 'L' && contains_chars(c.as_slice(), slash.as_slice()) { 1 } else { 0 };
    let ghost f = if func@.len() > 0 && func@[0] == 'L' && contains(func@, seq!['/']) { func@.skip(1) } else { func@ };
    assert(f =~= c@.subrange(start as int, c@.len() as int));
    let mut out: Vec<char> = Vec::new();
    let mut i: usize = start;
    while i < c.len()
        invariant
            start <= i <= c@.len(),
            f == c@.subrange(start as int, c@.len() as int),
            out@ == without_angles(f.take(i - start)),
        decreases c.len() - i,
    {
        assert(f.take(i - start + 1).drop_last() =~= f.take(i - start));
        assert(f.take(i - start + 1).last() == c@[i as int]);
        if c[i] != '<' && c[i] != '>' {
            out.push(c[i]);
        }
        i += 1;
    }
    assert(f.take(i - start) =~= f);
    string_from_chars(out.as_slice())
}

// ------------------------------------------------------------------
// Event lines and stack lines
// ------------------------------------------------------------------

/// Where the scan of an event line stands: the start of the current word, whether the word
/// has been digits (and `/`) only so far, whether the last character was a space, and the
/// position of a `/` in the current all-digit word.
pub ghost struct EventScan {
    pub word_start: int,
    pub all_digits: bool,
    pub last_was_space: bool,
    pub slash: Option<int>,
}

/// The command, PID and TID of an event line, found at the first word of digits (or
/// `pid/tid`) that a space ends: the command is what precedes that word, trimmed; without a
/// `/`, the PID is `?`.
pub open spec fn event_scan(line: Seq<char>, i: int, st: EventScan) -> Option<(Seq<char>, Seq<char>, Seq<char>)>
    decreases line.len() - i,
{
    if i < 0 || i >= line.len() {
        None
    } else {
        let c = line[i];
        if c == ' ' {
            if st.all_digits && !st.last_was_space {
                let ws = st.word_start;
                let (pid, tid) = match st.slash {
                    Some(sl) => (line.subrange(ws, sl), line.subrange(sl + 1, i)),
                    None => ("?"@, line.subrange(ws, i)),
                };
                Some((trim(line.take(ws - 1)), pid, tid))
            } else {
                event_scan(line, i + 1, EventScan { word_start: i + 1, all_digits: true, last_was_space: true, slash: st.slash })
            }
        } else if c == '/' {
            event_scan(
                line,
                i + 1,
                EventScan { slash: if st.all_digits { Some(i) } else { st.slash }, last_was_space: false, ..st },
            )
        } else if is_ascii_digit(c) {
            event_scan(line, i + 1, EventScan { last_was_space: false, ..st })
        } else {
            event_scan(line, i + 1, EventScan { all_digits: false, slash: None, last_was_space: false, ..st })
        }
    }
}

pub open spec fn event_parts(line: Seq<char>) -> Option<(Seq<char>, Seq<char>, Seq<char>)> {
    event_scan(line, 0, EventScan { word_start: 0, all_digits: false, last_was_space: false, slash: None })
}

pub open spec fn parts_view(r: Option<(String, String, String)>) -> Option<(Seq<char>, Seq<char>, Seq<char>)> {
    match r {
        Some((a, b, c)) => Some((a@, b@, c@)),
        None => None,
    }
}

/// Splits an event line into its command, PID and TID, like
/// `java 24636/25607 [000] 4794564.109216: cycles:` into `java`, `24636`, `25607`.
pub fn event_line_parts(line: &str) -> (r: Option<(String, String, String)>)
    ensures
        parts_view(r) == event_parts(line@),
{
    let c = chars_of(line);
    let n = c.len();
    let mut word_start: usize = 0;
    let mut all_digits = false;
    let mut last_was_space = false;
    let mut slash: Option<usize> = None;
    let mut i: usize = 0;
    while i < n
        invariant
            n == c@.len(),
            c@ == line@,
            i <= n,
            all_digits ==> 1 <= word_start <= i,
            slash matches Some(sl) ==> all_digits && !last_was_space && word_start <= sl < i,
            event_parts(line@) == event_scan(
                line@,
                i as int,
                EventScan {
                    word_start: word_start as int,
                    all_digits,
                    last_was_space,
                    slash: match slash {
                        Some(x) => Some(x as int),
                        None => None,
                    },
                },
            ),
        decreases n - i,
    {
        let ch = c[i];
        if ch == ' ' {
            if all_digits && !last_was_space {
                let (pid, tid) = match slash {
                    Some(sl) => {
                        let p = string_from_chars(&c[word_start..sl]);
                        let t = string_from_chars(&c[sl + 1..i]);
                        (p, t)
                    },
                    None => (string_from_chars(chars_of("?").as_slice()), string_from_chars(&c[word_start..i])),
                };
                let (lo, hi) = trim_bounds(c.as_slice(), 0, word_start - 1);
                assert(c@.subrange(0, word_start - 1) =~= line@.take(word_start - 1));
                let comm = string_from_chars(&c[lo..hi]);
                return Some((comm, pid, tid));
            }
            word_start = i + 1;
            all_digits = true;
            last_was_space = true;
        } else if ch == '/' {
            if all_digits {
                slash = Some(i);
            }
            last_was_space = false;
        } else if '0' <= ch && ch <= '9' {
            last_was_space = false;
        } else {
            all_digits = false;
            slash = None;
            last_was_space = false;
        }
        i += 1;
    }
    None
}

/// The address, function and module of a stack line `pc func (module)`, without the
/// parentheses around the module. `None` where the line has too few spaces.
pub open spec fn stack_parts(line: Seq<char>) -> Option<(Seq<char>, Seq<char>, Seq<char>)> {
    let t = trim_start(line);
    match find(t, seq![' ']) {
        None => None,
        Some(i) => {
            let pc = trim_end(t.take(i));
            let rest = t.skip(i + 1);
            match rfind(rest, seq![' ']) {
                None => None,
                Some(j) => {
                    let module = rest.skip(j + 1);
                    let raw = trim(rest.take(j));
                    Some((pc, if raw.len() == 0 { " "@ } else { raw }, module.subrange(1, module.len() - 1)))
                },
            }
        },
    }
}

/// Whether cutting the parentheses off the module of a stack line cannot be done: the module
/// part has fewer than two characters, or does not start and end with one-byte characters.
pub open spec fn module_cut_fails(line: Seq<char>) -> bool {
    let t = trim_start(line);
    match find(t, seq![' ']) {
        None => false,
        Some(i) => {
            let rest = t.skip(i + 1);
            match rfind(rest, seq![' ']) {
                None => false,
                Some(j) => {
                    let module = rest.skip(j + 1);
                    module.len() < 2 || module[0] as u32 >= 0x80 || module.last() as u32 >= 0x80
                },
            }
        },
    }
}

/// Tests `module_cut_fails`.
pub fn module_cut_fails_on(line: &str) -> (b: bool)
    ensures
        b == module_cut_fails(line@),
{
    let c = chars_of(line);
    let n = c.len();
    let lead = crate::text::leading_ws_in(c.as_slice(), 0, n);
    let t = &c[lead..n];
    assert(c@.subrange(0, n as int) =~= line@);
    assert(t@ =~= trim_start(line@));
    let space: [char; 1] = [' '];
    assert(space@ =~= seq![' ']);
    proof { lemma_find_from_bounds(t@, seq![' '], 0); }
    let i = match find_chars(t, space.as_slice()) {
        None => return false,
        Some(i) => i,
    };
    let tn = t.len();
    let rest = &t[i + 1..tn];
    assert(rest@ =~= t@.skip(i + 1));
    proof { lemma_rfind_bounds(rest@, seq![' ']); }
    let j = match rfind_chars(rest, space.as_slice()) {
        None => return false,
        Some(j) => j,
    };
    let rn = rest.len();
    let module = &rest[j + 1..rn];
    assert(module@ =~= rest@.skip(j + 1));
    let mn = module.len();
    mn < 2 || module[0] as u32 >= 0x80 || module[mn - 1] as u32 >= 0x80
}

/// Splits a stack line `pc func (module)` into its parts, without the parentheses around the
/// module. A function part that is empty (two spaces before the module) is given as `" "`.
pub fn stack_line_parts(line: &str) -> (r: Option<(String, String, String)>)
    requires
        !module_cut_fails(line@),
    ensures
        parts_view(r) == stack_parts(line@),
{
    let c = chars_of(line);
    let n = c.len();
    let lead = crate::text::leading_ws_in(c.as_slice(), 0, n);
    let t = &c[lead..n];
    assert(c@.subrange(0, n as int) =~= line@);
    assert(t@ =~= trim_start(line@));
    let space: [char; 1] = [' '];
    assert(space@ =~= seq![' ']);
    proof { lemma_find_from_bounds(t@, seq![' '], 0); }
    let i = match find_chars(t, space.as_slice()) {
        None => return None,
        Some(i) => i,
    };
    let head = &t[0..i];
    let back = crate::text::trailing_ws_in(head, 0, i);
    assert(head@.subrange(0, i as int) =~= t@.take(i as int));
    let pc = string_from_chars(&head[0..i - back]);
    assert(pc@ =~= trim_end(t@.take(i as int)));
    let tn = t.len();
    let rest = &t[i + 1..tn];
    assert(rest@ =~= t@.skip(i + 1));
    proof { lemma_rfind_bounds(rest@, seq![' ']); }
    let j = match rfind_chars(rest, space.as_slice()) {
        None => return None,
        Some(j) => j,
    };
    let rn = rest.len();
    let module = &rest[j + 1..rn];
    assert(module@ =~= rest@.skip(j + 1));
    let mn = module.len();
    let m = string_from_chars(&module[1..mn - 1]);
    assert(m@ =~= module@.subrange(1, mn - 1));
    let (a, b) = trim_bounds(rest, 0, j);
    assert(rest@.subrange(0, j as int) =~= rest@.take(j as int));
    let raw = if a == b {
        string_from_chars(chars_of(" ").as_slice())
    } else {
        string_from_chars(&rest[a..b])
    };
    Some((pc, raw, m))
}

// ------------------------------------------------------------------
// Splitting at a pattern, symbol offsets
// ------------------------------------------------------------------

pub open spec fn is_hex_char(c: char) -> bool {
    ('0' <= c <= '9') || ('a' <= c <= 'f') || ('A' <= c <= 'F')
}

pub open spec fn all_hex(s: Seq<char>) -> bool {
    forall|i: int| 0 <= i < s.len() ==> is_hex_char(#[trigger] s[i])
}

/// A function name without a symbol offset `+0x...` at its end.
pub open spec fn without_offset(raw: Seq<char>) -> Seq<char> {
    match rfind(raw, "+0x"@) {
        Some(o) => if all_hex(raw.skip(o + 3)) { raw.take(o) } else { raw },
        None => raw,
    }
}

fn is_hex(c: char) -> (b: bool)
    ensures
        b == is_hex_char(c),
{
    ('0' <= c && c <= '9') || ('a' <= c && c <= 'f') || ('A' <= c && c <= 'F')
}

fn strip_offset(raw: &[char]) -> (r: Vec<char>)
    ensures
        r@ == without_offset(raw@),
{
    let pat = chars_of("+0x");
    proof { reveal_strlit("+0x"); }
    assert(pat@.len() == 3);
    let n = raw.len();
    proof { lemma_rfind_bounds(raw@, "+0x"@); }
    let keep = match rfind_chars(raw, pat.as_slice()) {
        Some(o) => {
            let mut k = o + 3;
            while k < n && is_hex(raw[k])
                invariant
                    o + 3 <= k <= n == raw@.len(),
                    forall|j: int| o + 3 <= j < k ==> is_hex_char(#[trigger] raw@[j]),
                decreases n - k,
            {
                k += 1;
            }
            if k == n {
                assert(all_hex(raw@.skip(o + 3))) by {
                    assert forall|j: int| 0 <= j < raw@.skip(o + 3).len() implies is_hex_char(#[trigger] raw@.skip(o + 3)[j]) by {
                        assert(raw@.skip(o + 3)[j] == raw@[o + 3 + j]);
                    }
                }
                o
            } else {
                assert(raw@.skip(o + 3)[k - o - 3] == raw@[k as int]);
                n
            }
        },
        None => n,
    };
    let mut out: Vec<char> = Vec::new();
    push_range(&mut out, raw, 0, keep);
    assert(out@ =~= without_offset(raw@));
    out
}

// ------------------------------------------------------------------
// The collapser
// ------------------------------------------------------------------

/// Settings that change how frames are named from the incoming stack traces.
pub struct Options {
    /// Annotate JIT functions with a `_[j]` suffix.
    pub annotate_jit: bool,
    /// Annotate kernel functions with a `_[k]` suffix.
    pub annotate_kernel: bool,
    /// Only consider samples of the given event type; if `None`, the type of the first event.
    pub event_filter: Option<String>,
    /// Include raw addresses (e.g., `0xbfff0836`) where symbols can't be found.
    pub include_addrs: bool,
    /// Include the PID in the root frame.
    pub include_pid: bool,
    /// Include the TID and the PID in the root frame; implies `include_pid`.
    pub include_tid: bool,
    /// The number of threads to use.
    pub nthreads: usize,
}

/// `num_cpus::get`: the number of CPUs available to this process, which depends on the
/// machine; nothing is stated of it.
#[verifier::external_body]
fn cpus() -> usize {
    num_cpus::get()
}

impl Default for Options {
    fn default() -> (o: Options)
        ensures
            !o.annotate_jit && !o.annotate_kernel && !o.include_addrs && !o.include_pid && !o.include_tid,
            o.event_filter is None,
    {
        Options {
            annotate_jit: false,
            annotate_kernel: false,
            event_filter: None,
            include_addrs: false,
            include_pid: false,
            include_tid: false,
            nthreads: cpus(),
        }
    }
}

/// The state of collapsing `perf script` output.
pub ghost struct PerfState {
    /// The event type that samples are kept for.
    pub event_filter: Option<Seq<char>>,
    /// Whether the lines until the next empty line are stack lines.
    pub in_event: bool,
    /// The root frame of the current event: the command name, maybe with PID and TID.
    pub pname: Seq<char>,
    /// Whether the stack lines of the current event are skipped.
    pub skip_stack: bool,
    /// The frames of the current event, outermost first.
    pub stack: Seq<Seq<char>>,
    /// How many events each stack was seen in.
    pub occ: Map<Seq<char>, usize>,
    pub annotate_jit: bool,
    pub annotate_kernel: bool,
    pub include_addrs: bool,
    pub include_pid: bool,
    pub include_tid: bool,
}

/// A stack collapser for the output of `perf script`.
pub struct Folder {
    event_filter: Option<String>,
    in_event: bool,
    occurrences: Occurrences,
    pname: String,
    skip_stack: bool,
    stack: VecDeque<String>,
    opt: Options,
}

pub open spec fn opt_seq(o: Option<String>) -> Option<Seq<char>> {
    match o {
        Some(s) => Some(s@),
        None => None,
    }
}

pub open spec fn deque_view(q: VecDeque<String>) -> Seq<Seq<char>> {
    q@.map_values(|s: String| s@)
}

impl View for Folder {
    type V = PerfState;

    closed spec fn view(&self) -> PerfState {
        PerfState {
            event_filter: opt_seq(self.event_filter),
            in_event: self.in_event,
            pname: self.pname@,
            skip_stack: self.skip_stack,
            stack: deque_view(self.stack),
            occ: self.occurrences@,
            annotate_jit: self.opt.annotate_jit,
            annotate_kernel: self.opt.annotate_kernel,
            include_addrs: self.opt.include_addrs,
            include_pid: self.opt.include_pid,
            include_tid: self.opt.include_tid,
        }
    }
}

/// The event type of an event line: its last word.
pub open spec fn event_of(line: Seq<char>) -> Seq<char> {
    match rfind(line, seq![' ']) {
        Some(i) => line.skip(i + 1),
        None => line,
    }
}

/// The root frame of an event: the command with `_` for spaces, then `-pid/tid` or `-pid`.
pub open spec fn root_frame(st: PerfState, comm: Seq<char>, pid: Seq<char>, tid: Seq<char>) -> Seq<char> {
    let base = replace_char(comm, ' ', '_');
    if st.include_tid {
        base + "-"@ + pid + "/"@ + tid
    } else if st.include_pid {
        base + "-"@ + pid
    } else {
        base
    }
}

pub open spec fn with_root(st: PerfState, comm: Seq<char>, pid: Seq<char>, tid: Seq<char>) -> PerfState {
    PerfState { pname: root_frame(st, comm, pid, tid), ..st }
}

/// What an event line does.
pub open spec fn on_event(st: PerfState, line: Seq<char>) -> PerfState {
    match event_parts(line) {
        None => PerfState { in_event: false, ..st },
        Some((comm, pid, tid)) => {
            let st1 = PerfState { in_event: true, ..st };
            let ev = event_of(line);
            if ends_with(ev, seq![':']) {
                let e = ev.drop_last();
                match st.event_filter {
                    None => with_root(PerfState { event_filter: Some(e), ..st1 }, comm, pid, tid),
                    Some(f) => if e != f {
                        PerfState { skip_stack: true, ..st1 }
                    } else {
                        with_root(st1, comm, pid, tid)
                    },
                }
            } else {
                with_root(st1, comm, pid, tid)
            }
        },
    }
}

/// The annotation of a frame: `_[i]` after the first frame of a line (inlined), else `_[k]`
/// for a kernel module or `_[j]` for a JIT map, where asked for.
pub open spec fn annotation(st: PerfState, module: Seq<char>, first: bool) -> Seq<char> {
    if !first {
        "_[i]"@
    } else if st.annotate_kernel && (starts_with(module, seq!['[']) || ends_with(module, "vmlinux"@)) && module
        != "[unknown]"@ {
        "_[k]"@
    } else if st.annotate_jit && starts_with(module, "/tmp/perf-"@) && ends_with(module, ".map"@) {
        "_[j]"@
    } else {
        Seq::empty()
    }
}

/// The name of one frame of a stack line.
pub open spec fn frame_name(st: PerfState, piece: Seq<char>, module: Seq<char>, pc: Seq<char>, first: bool) -> Option<Seq<char>> {
    let f = tidied(module_fallback(module, piece, pc, st.include_addrs));
    Some((if st.pname == "java"@ { tidied_java(f) } else { f }) + annotation(st, module, first))
}

/// The names of the frames `pieces[..k]` of a stack line.
pub open spec fn frame_names(st: PerfState, pieces: Seq<Seq<char>>, module: Seq<char>, pc: Seq<char>, k: int) -> Option<Seq<Seq<char>>>
    decreases k,
{
    if k <= 0 {
        Some(Seq::empty())
    } else {
        match frame_names(st, pieces, module, pc, k - 1) {
            None => None,
            Some(names) => match frame_name(st, pieces[k - 1], module, pc, k == 1) {
                None => None,
                Some(f) => Some(names.push(f)),
            },
        }
    }
}

/// What a stack line does; `None` where its module cannot be cut.
pub open spec fn on_stack(st: PerfState, line: Seq<char>) -> Option<PerfState> {
    if st.skip_stack {
        Some(st)
    } else if module_cut_fails(line) {
        None
    } else {
        match stack_parts(line) {
            None => Some(st),
            Some((pc, raw0, module)) => {
                let raw = without_offset(raw0);
                if starts_with(raw, seq!['(']) {
                    Some(st)
                } else {
                    let pieces = split_at_pattern(raw, "->"@);
                    match frame_names(st, pieces, module, pc, pieces.len() as int) {
                        None => None,
                        Some(names) => Some(PerfState { stack: names + st.stack, ..st }),
                    }
                }
            },
        }
    }
}

/// The folded stack of an event: the root frame, then the frames, joined by `;`.
pub open spec fn stack_text(pname: Seq<char>, stack: Seq<Seq<char>>) -> Seq<char>
    decreases stack.len(),
{
    if stack.len() == 0 {
        pname
    } else {
        stack_text(pname, stack.drop_last()) + seq![';'] + stack.last()
    }
}

/// The end of an event (an empty line): its stack is counted, unless skipped. `None` where
/// the count would overflow.
pub open spec fn after_event(st: PerfState) -> Option<PerfState> {
    let s = stack_text(st.pname, st.stack);
    if !st.skip_stack && added_count(st.occ, s, 1) > usize::MAX {
        None
    } else {
        let occ = if st.skip_stack { st.occ } else { st.occ.insert(s, added_count(st.occ, s, 1) as usize) };
        Some(PerfState { occ, in_event: false, skip_stack: false, stack: Seq::empty(), ..st })
    }
}

/// What one line of input does; `None` where a stack line cannot be cut or a count would
/// overflow.
pub open spec fn perf_step(st: PerfState, line: Seq<char>) -> Option<PerfState> {
    if starts_with(line, seq!['#']) {
        Some(st)
    } else {
        let l = trim_end(line);
        if l.len() == 0 {
            after_event(st)
        } else if st.in_event {
            on_stack(st, l)
        } else {
            Some(on_event(st, l))
        }
    }
}

impl Folder {
    /// A collapser with the given options; `include_tid` implies `include_pid`.
    pub fn from_options(opt: Options) -> (f: Folder)
        ensures
            f@.event_filter == opt_seq(opt.event_filter),
            !f@.in_event,
            f@.pname == Seq::<char>::empty(),
            !f@.skip_stack,
            f@.stack == Seq::<Seq<char>>::empty(),
            f@.occ == Map::<Seq<char>, usize>::empty(),
            f@.annotate_jit == opt.annotate_jit,
            f@.annotate_kernel == opt.annotate_kernel,
            f@.include_addrs == opt.include_addrs,
            f@.include_pid == (opt.include_pid || opt.include_tid),
            f@.include_tid == opt.include_tid,
    {
        let mut opt = opt;
        opt.include_pid = opt.include_pid || opt.include_tid;
        let event_filter = match &opt.event_filter {
            Some(e) => Some(string_from_chars(chars_of(e.as_str()).as_slice())),
            None => None,
        };
        let f = Folder {
            event_filter,
            in_event: false,
            occurrences: Occurrences::new(),
            pname: String::new(),
            skip_stack: false,
            stack: VecDeque::new(),
            opt,
        };
        assert(deque_view(f.stack) =~= Seq::<Seq<char>>::empty());
        f
    }

    /// The number of threads the collapser may use.
    pub closed spec fn threads(&self) -> usize {
        self.opt.nthreads
    }

    /// The number of threads the collapser may use.
    pub fn nthreads(&self) -> (n: usize)
        ensures
            n == self.threads(),
    {
        self.opt.nthreads
    }

    /// Sets the number of threads the collapser may use.
    pub fn set_nthreads(&mut self, n: usize)
        ensures
            final(self)@ == old(self)@,
            final(self).threads() == n,
    {
        self.opt.nthreads = n;
    }

    /// A collapser for one job of a collapse in jobs: the same naming settings, nothing read
    /// yet, keeping the samples of the given event type.
    pub fn job_folder(&self, event_filter: Option<String>) -> (f: Folder)
        ensures
            f@ == (PerfState {
                event_filter: opt_seq(event_filter),
                in_event: false,
                pname: Seq::empty(),
                skip_stack: false,
                stack: Seq::empty(),
                occ: Map::empty(),
                ..self@
            }),
            f.threads() == 1,
    {
        let opt = Options {
            annotate_jit: self.opt.annotate_jit,
            annotate_kernel: self.opt.annotate_kernel,
            event_filter: None,
            include_addrs: self.opt.include_addrs,
            include_pid: self.opt.include_pid,
            include_tid: self.opt.include_tid,
            nthreads: 1,
        };
        let f = Folder {
            event_filter,
            in_event: false,
            occurrences: Occurrences::new(),
            pname: String::new(),
            skip_stack: false,
            stack: VecDeque::new(),
            opt,
        };
        assert(deque_view(f.stack) =~= Seq::<Seq<char>>::empty());
        f
    }

    /// Reads an event line, like `java 24636/25607 [000] 4794564.109216: cycles:`.
    #[verifier::rlimit(40)]
    pub fn on_event_line(&mut self, line: &str)
        ensures
            final(self)@ == on_event(old(self)@, line@),
    {
        match event_line_parts(line) {
            None => {
                self.in_event = false;
            },
            Some((comm, pid, tid)) => {
                self.in_event = true;
                let c = chars_of(line);
                let space: [char; 1] = [' '];
                assert(space@ =~= seq![' ']);
                proof { lemma_rfind_bounds(c@, seq![' ']); }
                let n = c.len();
                let ev_start = match rfind_chars(c.as_slice(), space.as_slice()) {
                    Some(i) => i + 1,
                    None => 0,
                };
                let ev = &c[ev_start..n];
                assert(ev@ =~= event_of(line@));
                let en = ev.len();
                assert(ends_with(ev@, seq![':']) == (en > 0 && ev@[en - 1] == ':')) by {
                    if en > 0 {
                        assert(ev@.subrange(en - 1, en as int)[0] == ev@[en - 1]);
                        if ev@[en - 1] == ':' {
                            assert(ev@.subrange(en - 1, en as int) =~= seq![':']);
                        }
                    }
                }
                if en > 0 && ev[en - 1] == ':' {
                    let e = string_from_chars(&ev[0..en - 1]);
                    assert(e@ =~= ev@.drop_last());
                    let keep = match &self.event_filter {
                        None => {
                            self.event_filter = Some(e);
                            true
                        },
                        Some(f) => str_eq(e.as_str(), f.as_str()),
                    };
                    if !keep {
                        self.skip_stack = true;
                        return;
                    }
                }
                let cc = chars_of(comm.as_str());
                let mut name = replaced(cc.as_slice(), ' ', '_');
                if self.opt.include_tid {
                    push_str(&mut name, "-");
                    push_str(&mut name, pid.as_str());
                    push_str(&mut name, "/");
                    push_str(&mut name, tid.as_str());
                } else if self.opt.include_pid {
                    push_str(&mut name, "-");
                    push_str(&mut name, pid.as_str());
                }
                self.pname = string_from_chars(name.as_slice());
            },
        }
    }

    /// Reads a stack line, like `7f533952bc77 _dl_check_map_versions+0x597 (/usr/lib/ld-2.28.so)`.
    /// Returns `false` where the line's module cannot be cut.
    pub fn on_stack_line(&mut self, line: &str) -> (ok: bool)
        ensures
            match on_stack(old(self)@, line@) {
                None => !ok,
                Some(st) => ok && final(self)@ == st,
            },
    {
        if self.skip_stack {
            return true;
        }
        if module_cut_fails_on(line) {
            return false;
        }
        let (pc, raw0, module) = match stack_line_parts(line) {
            None => return true,
            Some(x) => x,
        };
        let raw = strip_offset(chars_of(raw0.as_str()).as_slice());
        if raw.len() > 0 && raw[0] == '(' {
            assert(raw@.subrange(0, 1) =~= seq!['(']);
            return true;
        }
        assert(!starts_with(raw@, seq!['('])) by {
            if raw@.len() > 0 {
                assert(raw@.subrange(0, 1)[0] == raw@[0]);
            }
        }
        let arrow = chars_of("->");
        proof { reveal_strlit("->"); }
        let pieces = split_pattern(raw.as_slice(), arrow.as_slice());
        let ghost st = self@;
        let ghost pv = split_at_pattern(raw@, "->"@);
        let is_java = str_eq(self.pname.as_str(), "java");
        let mut names: Vec<String> = Vec::new();
        let mut k: usize = 0;
        while k < pieces.len()
            invariant
                st == self@,
                st == old(self)@,
                pv == split_at_pattern(without_offset(stack_parts(line@)->Some_0.1), "->"@),
                stack_parts(line@) == Some((pc@, raw0@, module@)),
                on_stack(old(self)@, line@) == match frame_names(st, pv, module@, pc@, pv.len() as int) {
                    None => None,
                    Some(names) => Some(PerfState { stack: names + st.stack, ..st }),
                },
                strs_view(pieces@) == pv,
                is_java == (st.pname == "java"@),
                k <= pieces@.len(),
                frame_names(st, pv, module@, pc@, k as int) == Some(strs_view(names@)),
            decreases pieces.len() - k,
        {
            proof { reveal_strlit("["); }
            assert(pv[k as int] == pieces@[k as int]@);
            let f0 = with_module_fallback(module.as_str(), pieces[k].as_str(), pc.as_str(), self.opt.include_addrs);
            let f1 = tidy_generic(f0);
            let f2 = if is_java { tidy_java(f1) } else { f1 };
            let mut f = chars_of(f2.as_str());
            let mc = chars_of(module.as_str());
            if k > 0 {
                push_str(&mut f, "_[i]");
            } else if self.opt.annotate_kernel && (starts_with_chars(mc.as_slice(), chars_of("[").as_slice())
                || ends_with_chars(mc.as_slice(), chars_of("vmlinux").as_slice())) && !str_eq(module.as_str(), "[unknown]") {
                proof { reveal_strlit("["); }
                push_str(&mut f, "_[k]");
            } else if self.opt.annotate_jit && starts_with_chars(mc.as_slice(), chars_of("/tmp/perf-").as_slice())
                && ends_with_chars(mc.as_slice(), chars_of(".map").as_slice()) {
                push_str(&mut f, "_[j]");
            } else {
                proof { reveal_strlit("["); }
            }
            let ghost before = strs_view(names@);
            names.push(string_from_chars(f.as_slice()));
            assert(strs_view(names@) =~= before.push(f@));
            k += 1;
        }
        let ghost newv = strs_view(names@);
        let ghost old_stack = deque_view(self.stack);
        while names.len() > 0
            invariant
                st.stack == old_stack,
                deque_view(self.stack) == newv.subrange(names@.len() as int, newv.len() as int) + old_stack,
                strs_view(names@) == newv.take(names@.len() as int),
                names@.len() <= newv.len(),
                self@ == (PerfState { stack: deque_view(self.stack), ..st }),
            decreases names.len(),
        {
            let ghost before = deque_view(self.stack);
            let ghost nl = names@.len();
            let ghost nb = names@;
            let f = names.pop().unwrap();
            assert(f == nb[nl - 1]);
            assert(strs_view(nb)[nl - 1] == nb[nl - 1]@);
            assert(f@ == newv[nl - 1]);
            self.stack.push_front(f);
            assert(deque_view(self.stack) =~= seq![f@] + before);
            assert(newv.subrange(nl - 1, newv.len() as int) =~= seq![newv[nl - 1]] + newv.subrange(nl as int, newv.len() as int));
            assert(strs_view(names@) =~= newv.take(names@.len() as int));
        }
        assert(deque_view(self.stack) =~= newv + old_stack);
        true
    }

    /// Ends an event: its stack is counted (unless skipped) and the state is reset. Returns
    /// `false` where the count would overflow.
    pub fn after_event(&mut self) -> (ok: bool)
        ensures
            match after_event(old(self)@) {
                None => !ok,
                Some(st) => ok && final(self)@ == st,
            },
    {
        if !self.skip_stack {
            let mut s = chars_of(self.pname.as_str());
            let ghost sv = deque_view(self.stack);
            let mut i: usize = 0;
            while i < self.stack.len()
                invariant
                    sv == deque_view(self.stack),
                    i <= sv.len(),
                    s@ == stack_text(self.pname@, sv.take(i as int)),
                decreases self.stack.len() - i,
            {
                s.push(';');
                push_str(&mut s, self.stack[i].as_str());
                assert(sv.take(i + 1).drop_last() =~= sv.take(i as int));
                i += 1;
            }
            assert(sv.take(sv.len() as int) =~= sv);
            let key = string_from_chars(s.as_slice());
            let cur = match self.occurrences.get(key.as_str()) {
                Some(c) => c,
                None => 0,
            };
            if cur == usize::MAX {
                return false;
            }
            self.occurrences.insert_or_add(key, 1);
        }
        self.in_event = false;
        self.skip_stack = false;
        self.stack = VecDeque::new();
        assert(deque_view(self.stack) =~= Seq::<Seq<char>>::empty());
        true
    }
}

/// The lines that reading the input gives: its pieces between `\n`, without the empty piece
/// after a final `\n`.
pub open spec fn read_lines(text: Seq<char>) -> Seq<Seq<char>> {
    let p = split_on(text, '\n');
    if p.last().len() == 0 { p.drop_last() } else { p }
}

/// The collapser after the first `k` lines; `None` where a line stops it.
pub open spec fn perf_run(st: PerfState, lines: Seq<Seq<char>>, k: int) -> Option<PerfState>
    decreases k,
{
    if k <= 0 {
        Some(st)
    } else {
        match perf_run(st, lines, k - 1) {
            None => None,
            Some(s) => perf_step(s, lines[k - 1]),
        }
    }
}

proof fn lemma_perf_run_none_stays(st: PerfState, lines: Seq<Seq<char>>, i: int, k: int)
    requires
        0 <= i <= k,
        perf_run(st, lines, i) is None,
    ensures
        perf_run(st, lines, k) is None,
    decreases k - i,
{
    if i < k {
        lemma_perf_run_none_stays(st, lines, i, k - 1);
    }
}

/// Splits the input into the lines that reading it gives.
pub fn input_lines(text: &str) -> (r: Vec<String>)
    ensures
        strs_view(r@) == read_lines(text@),
{
    let c = chars_of(text);
    let mut pieces = crate::text::split_chars(c.as_slice(), '\n');
    proof { crate::text::lemma_split_on_nonempty(text@, '\n'); }
    let n = pieces.len();
    if pieces[n - 1].as_str().is_empty() {
        let ghost before = strs_view(pieces@);
        pieces.pop();
        assert(strs_view(pieces@) =~= before.drop_last());
    }
    pieces
}

impl Folder {
    /// Reads one line of input. Returns `false` where the line stops the collapse.
    pub fn on_line(&mut self, line: &str) -> (ok: bool)
        ensures
            match perf_step(old(self)@, line@) {
                None => !ok,
                Some(st) => ok && final(self)@ == st,
            },
    {
        let c = chars_of(line);
        if c.len() > 0 && c[0] == '#' {
            assert(c@.subrange(0, 1) =~= seq!['#']);
            return true;
        }
        assert(!starts_with(line@, seq!['#'])) by {
            if c@.len() > 0 {
                assert(c@.subrange(0, 1)[0] == c@[0]);
            }
        }
        let n = c.len();
        let back = crate::text::trailing_ws_in(c.as_slice(), 0, n);
        assert(c@.subrange(0, n as int) =~= line@);
        let l = string_from_chars(&c[0..n - back]);
        assert(l@ =~= trim_end(line@));
        if n - back == 0 {
            self.after_event()
        } else if self.in_event {
            self.on_stack_line(l.as_str())
        } else {
            self.on_event_line(l.as_str());
            true
        }
    }

    /// Collapses `perf script` output into folded lines `stack count`, one per distinct stack,
    /// in increasing order of stack. `None` where a line stops the collapse (a stack line whose
    /// module cannot be cut, or a count that would overflow).
    pub fn collapse_text(&mut self, text: &str) -> (r: Option<String>)
        ensures
            match perf_run(old(self)@, read_lines(text@), read_lines(text@).len() as int) {
                None => r is None,
                Some(st) => r matches Some(out) && final(self)@ == (PerfState { occ: Map::empty(), ..st })
                    && exists|e: Seq<(Seq<char>, usize)>| {
                    &&& sorted_keys(e)
                    &&& keyed_map(e) == st.occ
                    &&& out@ == count_lines(e)
                },
            },
    {
        let lines = input_lines(text);
        self.collapse_lines(lines.as_slice())
    }

    /// Collapses the given lines, as `collapse_text` does with the lines of a text.
    pub fn collapse_lines(&mut self, lines: &[String]) -> (r: Option<String>)
        ensures
            match perf_run(old(self)@, strs_view(lines@), lines@.len() as int) {
                None => r is None,
                Some(st) => r matches Some(out) && final(self)@ == (PerfState { occ: Map::empty(), ..st })
                    && exists|e: Seq<(Seq<char>, usize)>| {
                    &&& sorted_keys(e)
                    &&& keyed_map(e) == st.occ
                    &&& out@ == count_lines(e)
                },
            },
    {
        let ghost lv = strs_view(lines@);
        let mut i: usize = 0;
        while i < lines.len()
            invariant
                strs_view(lines@) == lv,
                i <= lines@.len(),
                perf_run(old(self)@, lv, i as int) == Some(self@),
            decreases lines.len() - i,
        {
            assert(lv[i as int] == lines@[i as int]@);
            if !self.on_line(lines[i].as_str()) {
                proof { lemma_perf_run_none_stays(old(self)@, lv, i + 1, lv.len() as int); }
                return None;
            }
            i += 1;
        }
        let out = self.occurrences.write_and_clear();
        Some(out)
    }
}

/// What deciding whether the input is `perf script` output finds after line `i`: `None`
/// where the decisive stack line cannot be cut; `Some(None)` where the input ends first.
pub open spec fn applicable_scan(lines: Seq<Seq<char>>, i: int, last_was_event: bool) -> Option<Option<bool>>
    decreases lines.len() - i,
{
    if i < 0 || i >= lines.len() {
        Some(None)
    } else {
        let l = trim(lines[i]);
        if starts_with(l, seq!['#']) {
            applicable_scan(lines, i + 1, last_was_event)
        } else if l.len() == 0 {
            applicable_scan(lines, i + 1, false)
        } else if last_was_event {
            if module_cut_fails(l) {
                None
            } else {
                Some(Some(stack_parts(l) is Some))
            }
        } else if event_parts(l) is None {
            Some(Some(false))
        } else {
            applicable_scan(lines, i + 1, true)
        }
    }
}

/// What deciding whether the input is `perf script` output finds: `None` where the decisive
/// stack line cannot be cut, else the answer of `is_applicable`.
pub fn applicability(input: &str) -> (r: Option<Option<bool>>)
    ensures
        r == applicable_scan(read_lines(input@), 0, false),
{
    let lines = input_lines(input);
    let ghost lv = read_lines(input@);
    let mut last_was_event = false;
    let mut i: usize = 0;
    while i < lines.len()
        invariant
            strs_view(lines@) == lv,
            lv == read_lines(input@),
            i <= lines@.len(),
            applicable_scan(lv, 0, false) == applicable_scan(lv, i as int, last_was_event),
        decreases lines.len() - i,
    {
        assert(lv[i as int] == lines@[i as int]@);
        let c = chars_of(lines[i].as_str());
        let (lo, hi) = trim_bounds(c.as_slice(), 0, c.len());
        assert(c@.subrange(0, c@.len() as int) =~= lv[i as int]);
        let l = string_from_chars(&c[lo..hi]);
        assert(l@ == trim(lv[i as int]));
        let lc = chars_of(l.as_str());
        if lc.len() > 0 && lc[0] == '#' {
            assert(lc@.subrange(0, 1) =~= seq!['#']);
            i += 1;
            continue;
        }
        assert(!starts_with(lc@, seq!['#'])) by {
            if lc@.len() > 0 {
                assert(lc@.subrange(0, 1)[0] == lc@[0]);
            }
        }
        if lc.len() == 0 {
            last_was_event = false;
            i += 1;
            continue;
        }
        if last_was_event {
            if module_cut_fails_on(l.as_str()) {
                return None;
            }
            return Some(Some(stack_line_parts(l.as_str()).is_some()));
        }
        if event_line_parts(l.as_str()).is_none() {
            return Some(Some(false));
        }
        last_was_event = true;
        i += 1;
    }
    Some(None)
}

impl Folder {
    /// Whether the input is `perf script` output: an event line followed by a stack line
    /// (`Some(true)`), something else first (`Some(false)`), or not known yet (`None`).
    pub fn is_applicable(&mut self, input: &str) -> (r: Option<bool>)
        requires
            applicable_scan(read_lines(input@), 0, false) is Some,
        ensures
            final(self)@ == old(self)@,
            Some(r) == applicable_scan(read_lines(input@), 0, false),
    {
        match applicability(input) {
            Some(r) => r,
            None => None,
        }
    }
}

/// Whether deciding if the input is `perf script` output stops on a stack line whose module
/// cannot be cut, as [`Folder::is_applicable`] needs to know.
pub fn applicability_fails(input: &str) -> (b: bool)
    ensures
        b == (applicable_scan(read_lines(input@), 0, false) is None),
{
    applicability(input).is_none()
}

impl Default for Folder {
    fn default() -> (f: Folder)
        ensures
            f@.event_filter is None,
            !f@.in_event,
            f@.stack == Seq::<Seq<char>>::empty(),
            f@.occ == Map::<Seq<char>, usize>::empty(),
            !f@.annotate_jit && !f@.annotate_kernel && !f@.include_addrs && !f@.include_pid && !f@.include_tid,
    {
        Folder::from_options(Options::default())
    }
}


/// The event type that a collapse in jobs keeps samples for: from the first non-empty line
/// (but for trailing whitespace) whose last word ends with `:`, that word without the `:`.
pub open spec fn first_event_type(lines: Seq<Seq<char>>, i: int) -> Option<Seq<char>>
    decreases lines.len() - i,
{
    if i < 0 || i >= lines.len() {
        None
    } else {
        let l = trim_end(lines[i]);
        let ev = event_of(l);
        if l.len() > 0 && ends_with(ev, seq![':']) {
            Some(ev.drop_last())
        } else {
            first_event_type(lines, i + 1)
        }
    }
}

/// Finds the event type that a collapse in jobs keeps samples for; see `first_event_type`.
pub fn detect_event_filter(lines: &[String]) -> (r: Option<String>)
    ensures
        opt_seq(r) == first_event_type(strs_view(lines@), 0),
{
    let ghost lv = strs_view(lines@);
    let mut i: usize = 0;
    while i < lines.len()
        invariant
            lv == strs_view(lines@),
            i <= lines@.len(),
            first_event_type(lv, 0) == first_event_type(lv, i as int),
        decreases lines.len() - i,
    {
        assert(lv[i as int] == lines@[i as int]@);
        let c = chars_of(lines[i].as_str());
        let k = crate::text::trailing_ws_in(c.as_slice(), 0, c.len());
        assert(c@.subrange(0, c@.len() as int) =~= c@);
        let l = &c[0..c.len() - k];
        assert(l@ =~= trim_end(lv[i as int]));
        if l.len() > 0 {
            let space: [char; 1] = [' '];
            assert(space@ =~= seq![' ']);
            proof { crate::text::lemma_rfind_bounds(l@, seq![' ']); }
            let start = match crate::text::rfind_chars(l, space.as_slice()) {
                Some(j) => j + 1,
                None => 0,
            };
            let ev = &l[start..l.len()];
            assert(ev@ =~= event_of(l@));
            if ev.len() > 0 && ev[ev.len() - 1] == ':' {
                assert(ends_with(ev@, seq![':'])) by {
                    assert(ev@.subrange(ev@.len() - 1, ev@.len() as int) =~= seq![':']);
                }
                let name = string_from_chars(&ev[0..ev.len() - 1]);
                assert(name@ =~= ev@.drop_last());
                return Some(name);
            }
            assert(!ends_with(ev@, seq![':'])) by {
                if ev@.len() > 0 {
                    assert(ev@.subrange(ev@.len() - 1, ev@.len() as int)[0] == ev@[ev@.len() - 1]);
                }
            }
        }
        i += 1;
    }
    None
}

/// With the PID asked for but not the TID, the root frame of an event is the one written with
/// both, cut before its `/`: the command, `-` and the PID. Said over two collapsers that
/// differ only in these settings and meet the same event line (with no event filter set yet,
/// so that the line names the root frame): the one written with the TID is the other
/// followed by `/` and the TID of the line.
pub proof fn pid_root_is_tid_root_cut_before_slash(st: PerfState, line: Seq<char>)
    requires
        st.event_filter is None,
        event_parts(line) is Some,
    ensures
        ({
            let with_pid = on_event(PerfState { include_pid: true, include_tid: false, ..st }, line);
            let with_tid = on_event(PerfState { include_pid: true, include_tid: true, ..st }, line);
            let tid = (event_parts(line)->0).2;
            with_tid.pname == with_pid.pname + "/"@ + tid
        }),
{
    let (comm, pid, tid) = event_parts(line)->0;
    let base = replace_char(comm, ' ', '_');
    assert(base + "-"@ + pid + "/"@ + tid =~= (base + "-"@ + pid) + "/"@ + tid);
}

} // verus!
