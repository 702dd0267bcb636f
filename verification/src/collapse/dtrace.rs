//! Collapsing the output of DTrace `ustack()`: after a header ended by an empty line, each
//! stack is one frame per line, innermost first, followed by a line with its count.
use vstd::prelude::*;
use std::collections::VecDeque;
use crate::collapse::common::{added_count, count_lines, Occurrences};
use crate::collapse::perf::{input_lines, read_lines};
use crate::keyed::{keyed_map, sorted_keys};
use crate::text::{
    parse_usize_str, parse_usize_text, chars_of, contains, contains_chars, find, find_chars, lemma_find_from_bounds, parse_u64_str,
    parse_u64_text, push_range, push_str, hex_usize_ok, hex_usize_text_ok, occurs_at, replace_char, replaced, split_at_pattern, split_pattern,
    starts_with, starts_with_chars, string_from_chars, strs_view, trim, trim_bounds, joined,
};

verus! {

/// Settings that change how frames are named.
#[derive(Clone, Copy, PartialEq, Eq, Structural, Debug)]
pub struct Options {
    /// Include function offsets (except on leaves).
    pub includeoffset: bool,
}

impl Default for Options {
    fn default() -> (o: Options)
        ensures
            !o.includeoffset,
    {
        Options { includeoffset: false }
    }
}

/// The position of the last `(` or `<` among the first `k` characters.
pub open spec fn last_open_before(s: Seq<char>, k: int) -> Option<int>
    decreases k,
{
    if k <= 0 || k > s.len() {
        None
    } else if s[k - 1] == '(' || s[k - 1] == '<' {
        Some(k - 1)
    } else {
        last_open_before(s, k - 1)
    }
}

/// A probe name without what follows its last `(` or `<` after its first `::`.
pub open spec fn uncpp_text(probe: Seq<char>) -> Seq<char> {
    match find(probe, seq![':', ':']) {
        Some(scope) => {
            let rest = probe.skip(scope + 2);
            match last_open_before(rest, rest.len() as int) {
                Some(o) => probe.take(scope + 2 + o),
                None => probe,
            }
        },
        None => probe,
    }
}

/// Approximates the substitution `s/(::.*)[(<].*/$1/`: cuts a C++ probe name at the last `(`
/// or `<` after its first `::`.
pub fn uncpp(probe: &str) -> (r: String)
    ensures
        r@ == uncpp_text(probe@),
{
    let c = chars_of(probe);
    let scope_pat: [char; 2] = [':', ':'];
    assert(scope_pat@ =~= seq![':', ':']);
    proof { lemma_find_from_bounds(c@, seq![':', ':'], 0); }
    match find_chars(c.as_slice(), scope_pat.as_slice()) {
        Some(scope) => {
            let n = c.len();
            let rest = &c[scope + 2..n];
            assert(rest@ =~= c@.skip(scope + 2));
            let mut k = rest.len();
            while k > 0 && rest[k - 1] != '(' && rest[k - 1] != '<'
                invariant
                    k <= rest@.len(),
                    last_open_before(rest@, rest@.len() as int) == last_open_before(rest@, k as int),
                decreases k,
            {
                k -= 1;
            }
            if k == 0 {
                string_from_chars(c.as_slice())
            } else {
                let r = string_from_chars(&c[0..scope + 2 + (k - 1)]);
                assert(r@ =~= c@.take(scope + 2 + (k - 1)));
                r
            }
        },
        None => string_from_chars(c.as_slice()),
    }
}

pub open spec fn has_pair(s: Seq<char>, a: char, b: char) -> bool {
    exists|i: int| 1 <= i < s.len() && s[i - 1] == a && #[trigger] s[i] == b
}

pub open spec fn has_char(s: Seq<char>, c: char) -> bool {
    exists|i: int| 0 <= i < s.len() && #[trigger] s[i] == c
}

/// The position of the last `c` among the first `k` characters.
pub open spec fn last_index_before(s: Seq<char>, c: char, k: int) -> Option<int>
    decreases k,
{
    if k <= 0 || k > s.len() {
        None
    } else if s[k - 1] == c {
        Some(k - 1)
    } else {
        last_index_before(s, c, k - 1)
    }
}

/// Whether the frame has inlined functions (`->`), may be C++ (`::`) or has a `;`, and the
/// frame up to its last `+` (its offset), where it has one.
pub open spec fn offset_removed(s: Seq<char>) -> (bool, bool, bool, Seq<char>) {
    (
        has_pair(s, '-', '>'),
        has_pair(s, ':', ':'),
        has_char(s, ';'),
        match last_index_before(s, '+', s.len() as int) {
            Some(i) => s.take(i),
            None => s,
        },
    )
}

/// Scans a frame for `->`, `::` and `;`, and cuts off its offset (from its last `+` on).
pub fn remove_offset(line: &str) -> (r: (bool, bool, bool, String))
    ensures
        (r.0, r.1, r.2, r.3@) == offset_removed(line@),
{
    let c = chars_of(line);
    let n = c.len();
    let mut has_inlines = false;
    let mut could_be_cpp = false;
    let mut has_semicolon = false;
    let mut last_offset = n;
    let mut i: usize = 0;
    while i < n
        invariant
            i <= n == c@.len(),
            c@ == line@,
            has_inlines == has_pair(c@.take(i as int), '-', '>'),
            could_be_cpp == has_pair(c@.take(i as int), ':', ':'),
            has_semicolon == has_char(c@.take(i as int), ';'),
            match last_index_before(c@, '+', i as int) {
                Some(k) => last_offset == k,
                None => last_offset == n,
            },
            last_offset <= n,
        decreases n - i,
    {
        let ghost p = c@.take(i as int);
        let ghost q = c@.take(i + 1);
        assert(q.drop_last() =~= p);
        let ch = c[i];
        if ch == '>' && i > 0 && c[i - 1] == '-' {
            has_inlines = true;
            assert(q[i as int] == '>' && q[i - 1] == '-');
        }
        if ch == ':' && i > 0 && c[i - 1] == ':' {
            could_be_cpp = true;
            assert(q[i as int] == ':' && q[i - 1] == ':');
        }
        if ch == ';' {
            has_semicolon = true;
            assert(q[i as int] == ';');
        }
        if ch == '+' {
            last_offset = i;
        }
        proof {
            assert forall|j: int| 1 <= j < q.len() && q[j - 1] == '-' && #[trigger] q[j] == '>' implies j == i
                || has_pair(p, '-', '>') by {
                if j < i {
                    assert(p[j] == q[j] && p[j - 1] == q[j - 1]);
                }
            }
            assert forall|j: int| 1 <= j < q.len() && q[j - 1] == ':' && #[trigger] q[j] == ':' implies j == i
                || has_pair(p, ':', ':') by {
                if j < i {
                    assert(p[j] == q[j] && p[j - 1] == q[j - 1]);
                }
            }
            assert forall|j: int| 0 <= j < q.len() && #[trigger] q[j] == ';' implies j == i || has_char(p, ';') by {
                if j < i {
                    assert(p[j] == q[j]);
                }
            }
            if has_pair(p, '-', '>') {
                let j = choose|j: int| 1 <= j < p.len() && p[j - 1] == '-' && #[trigger] p[j] == '>';
                assert(q[j] == p[j] && q[j - 1] == p[j - 1]);
            }
            if has_pair(p, ':', ':') {
                let j = choose|j: int| 1 <= j < p.len() && p[j - 1] == ':' && #[trigger] p[j] == ':';
                assert(q[j] == p[j] && q[j - 1] == p[j - 1]);
            }
            if has_char(p, ';') {
                let j = choose|j: int| 0 <= j < p.len() && #[trigger] p[j] == ';';
                assert(q[j] == p[j]);
            }
        }
        i += 1;
    }
    assert(c@.take(n as int) =~= c@);
    let prefix = string_from_chars(&c[0..last_offset]);
    proof {
        match last_index_before(line@, '+', line@.len() as int) {
            Some(k) => {
                assert(prefix@ =~= line@.take(k));
            },
            None => {
                assert(prefix@ =~= line@);
            },
        }
    }
    (has_inlines, could_be_cpp, has_semicolon, prefix)
}

/// `s` without its leading `c`s.
pub open spec fn strip_leading(s: Seq<char>, c: char) -> Seq<char>
    decreases s.len(),
{
    if s.len() > 0 && s[0] == c { strip_leading(s.skip(1), c) } else { s }
}

fn trim_start_matches(s: &[char], c: char) -> (r: Vec<char>)
    ensures
        r@ == strip_leading(s@, c),
{
    let n = s.len();
    let mut k: usize = 0;
    assert(s@.skip(0) =~= s@);
    while k < n && s[k] == c
        invariant
            k <= n == s@.len(),
            strip_leading(s@, c) == strip_leading(s@.skip(k as int), c),
        decreases n - k,
    {
        assert(s@.skip(k as int).skip(1) =~= s@.skip(k + 1));
        k += 1;
    }
    let mut out: Vec<char> = Vec::new();
    push_range(&mut out, s, k, n);
    assert(out@ =~= s@.skip(k as int));
    out
}

// ------------------------------------------------------------------
// The collapser
// ------------------------------------------------------------------

/// The state of a collapse: the frames of the stack being read (outermost first) and the
/// counts of the stacks read.
pub ghost struct DtraceState {
    pub stack: Seq<Seq<char>>,
    pub occ: Map<Seq<char>, usize>,
    pub includeoffset: bool,
}

/// A stack collapser for the output of DTrace `ustack()`.
pub struct Folder {
    occurrences: Occurrences,
    stack: VecDeque<String>,
    opt: Options,
}

impl View for Folder {
    type V = DtraceState;

    closed spec fn view(&self) -> DtraceState {
        DtraceState {
            stack: self.stack@.map_values(|s: String| s@),
            occ: self.occurrences@,
            includeoffset: self.opt.includeoffset,
        }
    }
}

/// The name of one function of a frame with inlined functions: without leading `L`s, with
/// `;` made `:` where the frame has one, and `_[i]` after every function but the first.
pub open spec fn inline_name(p: Seq<char>, semi: bool, inlined: bool) -> Seq<char> {
    let q = strip_leading(p, 'L');
    let q2 = if semi { replace_char(q, ';', ':') } else { q };
    if inlined { q2 + "_[i]"@ } else { q2 }
}

pub open spec fn inline_names(pieces: Seq<Seq<char>>, semi: bool, k: int) -> Seq<Seq<char>>
    decreases k,
{
    if k <= 0 {
        Seq::empty()
    } else {
        inline_names(pieces, semi, k - 1).push(inline_name(pieces[k - 1], semi, k > 1))
    }
}

/// The names that a stack line adds in front of the stack.
pub open spec fn frame_names(includeoffset: bool, line: Seq<char>) -> Seq<Seq<char>> {
    let (inl, cpp, semi, f0) = if includeoffset { (true, true, true, line) } else { offset_removed(line) };
    let f1 = if cpp { uncpp_text(f0) } else { f0 };
    let frame = if f1.len() == 0 { "-"@ } else { f1 };
    if inl {
        let p = split_at_pattern(frame, "->"@);
        inline_names(p, semi, p.len() as int)
    } else if semi {
        seq![replace_char(frame, ';', ':')]
    } else {
        seq![frame]
    }
}

/// The folded stack: the frames joined by `;`, with the offset cut off the leaf where
/// offsets are kept.
pub open spec fn stack_key(st: DtraceState) -> Seq<char> {
    let n = st.stack.len();
    let leaf = if st.includeoffset { offset_removed(st.stack[n - 1]).3 } else { st.stack[n - 1] };
    joined(st.stack.update(n - 1, leaf))
}

/// A count line ends a stack; `None` where there is no stack or the count would overflow.
pub open spec fn stack_end(st: DtraceState, count: usize) -> Option<DtraceState> {
    if st.stack.len() == 0 {
        None
    } else {
        let k = stack_key(st);
        let a = added_count(st.occ, k, count);
        if a > usize::MAX {
            None
        } else {
            Some(DtraceState { occ: st.occ.insert(k, a as usize), stack: Seq::empty(), ..st })
        }
    }
}

/// What one line after the header does.
pub open spec fn dtrace_step(st: DtraceState, line: Seq<char>) -> Option<DtraceState> {
    let t = trim(line);
    if t.len() == 0 {
        Some(st)
    } else {
        match parse_usize_text(t) {
            Some(c) => stack_end(st, c),
            None => Some(DtraceState { stack: frame_names(st.includeoffset, t) + st.stack, ..st }),
        }
    }
}

/// The collapser after the lines `lines[from..k]`.
pub open spec fn dtrace_run(st: DtraceState, lines: Seq<Seq<char>>, from: int, k: int) -> Option<DtraceState>
    decreases k - from,
{
    if k <= from {
        Some(st)
    } else {
        match dtrace_run(st, lines, from, k - 1) {
            None => None,
            Some(s) => dtrace_step(s, lines[k - 1]),
        }
    }
}

/// The position of the empty line that ends the header, looking from line `i` on.
pub open spec fn header_end(lines: Seq<Seq<char>>, i: int) -> Option<int>
    decreases lines.len() - i,
{
    if i < 0 || i >= lines.len() {
        None
    } else if trim(lines[i]).len() == 0 {
        Some(i)
    } else {
        header_end(lines, i + 1)
    }
}

proof fn lemma_dtrace_run_none_stays(st: DtraceState, lines: Seq<Seq<char>>, from: int, i: int, k: int)
    requires
        from <= i <= k,
        dtrace_run(st, lines, from, i) is None,
    ensures
        dtrace_run(st, lines, from, k) is None,
    decreases k - i,
{
    if i < k {
        lemma_dtrace_run_none_stays(st, lines, from, i, k - 1);
    }
}

/// Puts the frames named by a stack line, like `genunix`syscall_mstate+0x5d`, in front of
/// `stack`.
pub fn push_frame_names(stack: &mut VecDeque<String>, includeoffset: bool, line: &str)
ensures
    strs_view(final(stack)@) == frame_names(includeoffset, line@) + strs_view(old(stack)@),
{
    let (inl, cpp, semi, f0) = if includeoffset {
        (true, true, true, string_from_chars(chars_of(line).as_slice()))
    } else {
        remove_offset(line)
    };
    let f1 = if cpp { uncpp(f0.as_str()) } else { f0 };
    let frame = if f1.as_str().is_empty() { string_from_chars(chars_of("-").as_slice()) } else { f1 };
    let ghost sv = strs_view(stack@);
    let mut names: Vec<String> = Vec::new();
    if inl {
        let fc = chars_of(frame.as_str());
        let arrow = chars_of("->");
        proof { reveal_strlit("->"); }
        let pieces = split_pattern(fc.as_slice(), arrow.as_slice());
        let ghost pv = split_at_pattern(frame@, "->"@);
        let mut k: usize = 0;
        while k < pieces.len()
            invariant
                strs_view(pieces@) == pv,
                k <= pieces@.len(),
                strs_view(names@) == inline_names(pv, semi, k as int),
            decreases pieces.len() - k,
        {
            assert(pv[k as int] == pieces@[k as int]@);
            let pc = chars_of(pieces[k].as_str());
            let q = trim_start_matches(pc.as_slice(), 'L');
            let mut q2 = if semi { replaced(q.as_slice(), ';', ':') } else { q };
            if k > 0 {
                push_str(&mut q2, "_[i]");
            }
            let ghost before = strs_view(names@);
            names.push(string_from_chars(q2.as_slice()));
            assert(strs_view(names@) =~= before.push(q2@));
            k += 1;
        }
    } else if semi {
        let fc = chars_of(frame.as_str());
        names.push(string_from_chars(replaced(fc.as_slice(), ';', ':').as_slice()));
        assert(strs_view(names@) =~= seq![replace_char(frame@, ';', ':')]);
    } else {
        names.push(frame);
        assert(strs_view(names@) =~= seq![frame@]);
    }
    let ghost newv = strs_view(names@);
    assert(newv == frame_names(includeoffset, line@));
    while names.len() > 0
        invariant
            strs_view(stack@) == newv.subrange(names@.len() as int, newv.len() as int) + sv,
            strs_view(names@) == newv.take(names@.len() as int),
            names@.len() <= newv.len(),
            sv == strs_view(old(stack)@),
        decreases names.len(),
    {
        let ghost nl = names@.len();
        let ghost nb = names@;
        let ghost before = strs_view(stack@);
        let f = names.pop().unwrap();
        assert(f == nb[nl - 1]);
        assert(strs_view(nb)[nl - 1] == nb[nl - 1]@);
        stack.push_front(f);
        assert(strs_view(stack@) =~= seq![f@] + before);
        assert(newv.subrange(nl - 1, newv.len() as int) =~= seq![newv[nl - 1]] + newv.subrange(nl as int, newv.len() as int));
        assert(strs_view(names@) =~= newv.take(names@.len() as int));
    }
    assert(newv.subrange(0, newv.len() as int) =~= newv);
}


impl Folder {
    /// A collapser with the given options that has read nothing yet.
    pub fn from_options(opt: Options) -> (f: Folder)
        ensures
            f@.stack == Seq::<Seq<char>>::empty(),
            f@.occ == Map::<Seq<char>, usize>::empty(),
            f@.includeoffset == opt.includeoffset,
    {
        let f = Folder { occurrences: Occurrences::new(), stack: VecDeque::new(), opt };
        assert(f@.stack =~= Seq::<Seq<char>>::empty());
        f
    }

    /// Reads a stack line, like `genunix`syscall_mstate+0x5d`.
    pub fn on_stack_line(&mut self, line: &str)
        ensures
            final(self)@ == (DtraceState { stack: frame_names(old(self)@.includeoffset, line@) + old(self)@.stack, ..old(self)@ }),
    {
        push_frame_names(&mut self.stack, self.opt.includeoffset, line);
    }

    /// Ends a stack with its count. Returns `false` where there is no stack or the count
    /// would overflow.
    pub fn on_stack_end(&mut self, count: usize) -> (ok: bool)
        ensures
            match stack_end(old(self)@, count) {
                None => !ok,
                Some(st) => ok && final(self)@ == st,
            },
    {
        let n = self.stack.len();
        if n == 0 {
            return false;
        }
        let ghost sv = self@.stack;
        let ghost leafed = sv.update(n - 1, if self@.includeoffset { offset_removed(sv[n - 1]).3 } else { sv[n - 1] });
        let mut out: Vec<char> = Vec::new();
        let mut i: usize = 0;
        while i < n
            invariant
                n == sv.len(),
                sv == self@.stack,
                i <= n,
                leafed == sv.update(n - 1, if self@.includeoffset { offset_removed(sv[n - 1]).3 } else { sv[n - 1] }),
                out@ == joined(leafed.take(i as int)),
            decreases n - i,
        {
            if i > 0 {
                out.push(';');
            }
            assert(sv[i as int] == self.stack@[i as int]@);
            if self.opt.includeoffset && i == n - 1 {
                let (_, _, _, leaf) = remove_offset(self.stack[i].as_str());
                push_str(&mut out, leaf.as_str());
            } else {
                push_str(&mut out, self.stack[i].as_str());
            }
            proof {
                assert(leafed.take(i + 1).drop_last() =~= leafed.take(i as int));
                if i == 0 {
                    assert(leafed.take(1) =~= seq![leafed[0]]);
                }
            }
            i += 1;
        }
        assert(leafed.take(n as int) =~= leafed);
        let key = string_from_chars(out.as_slice());
        let cur = match self.occurrences.get(key.as_str()) {
            Some(c) => c,
            None => 0,
        };
        if cur > usize::MAX - count {
            return false;
        }
        self.occurrences.insert_or_add(key, count);
        self.stack = VecDeque::new();
        assert(self@.stack =~= Seq::<Seq<char>>::empty());
        true
    }

    /// Reads one line after the header. Returns `false` where the line stops the collapse.
    pub fn on_line(&mut self, line: &str) -> (ok: bool)
        ensures
            match dtrace_step(old(self)@, line@) {
                None => !ok,
                Some(st) => ok && final(self)@ == st,
            },
    {
        let c = chars_of(line);
        let (lo, hi) = trim_bounds(c.as_slice(), 0, c.len());
        assert(c@.subrange(0, c@.len() as int) =~= line@);
        let t = string_from_chars(&c[lo..hi]);
        if lo == hi {
            return true;
        }
        match parse_usize_str(t.as_str()) {
            Some(count) => self.on_stack_end(count),
            None => {
                self.on_stack_line(t.as_str());
                true
            },
        }
    }

    /// Collapses DTrace output into folded lines `stack count`, one per distinct stack, in
    /// increasing order of stack. Without the empty line that ends the header, nothing is
    /// written. `None` where a count comes without a stack or a count would overflow.
    pub fn collapse_text(&mut self, text: &str) -> (r: Option<String>)
        ensures
            match header_end(read_lines(text@), 0) {
                None => {
                    &&& final(self)@ == old(self)@
                    &&& r matches Some(out) && out@ == Seq::<char>::empty()
                },
                Some(h) => match dtrace_run(old(self)@, read_lines(text@), h + 1, read_lines(text@).len() as int) {
                    None => r is None,
                    Some(st) => {
                        &&& final(self)@ == st
                        &&& r matches Some(out)
                        &&& exists|e: Seq<(Seq<char>, usize)>| {
                            &&& sorted_keys(e)
                            &&& keyed_map(e) == st.occ
                            &&& out@ == count_lines(e)
                        }
                    },
                },
            },
    {
        let lines = input_lines(text);
        let ghost lv = read_lines(text@);
        let n = lines.len();
        let mut h: usize = 0;
        while h < n && !is_blank(lines[h].as_str())
            invariant
                strs_view(lines@) == lv,
                lv == read_lines(text@),
                h <= n == lines@.len(),
                header_end(lv, 0) == header_end(lv, h as int),
            decreases n - h,
        {
            assert(lv[h as int] == lines@[h as int]@);
            h += 1;
        }
        if h == n {
            let empty = String::new();
            assert(empty@ == Seq::<char>::empty());
            return Some(empty);
        }
        assert(lv[h as int] == lines@[h as int]@);
        let mut i: usize = h + 1;
        while i < n
            invariant
                strs_view(lines@) == lv,
                lv == read_lines(text@),
                h < i <= n == lines@.len(),
                header_end(lv, 0) == Some(h as int),
                dtrace_run(old(self)@, lv, h + 1, i as int) == Some(self@),
            decreases n - i,
        {
            assert(lv[i as int] == lines@[i as int]@);
            if !self.on_line(lines[i].as_str()) {
                proof { lemma_dtrace_run_none_stays(old(self)@, lv, h + 1, i + 1, n as int); }
                return None;
            }
            i += 1;
        }
        Some(self.occurrences.write_sorted())
    }
}

/// Whether a line is empty but for whitespace.
pub fn is_blank(line: &str) -> (b: bool)
    ensures
        b == (trim(line@).len() == 0),
{
    let c = chars_of(line);
    let (lo, hi) = trim_bounds(c.as_slice(), 0, c.len());
    assert(c@.subrange(0, c@.len() as int) =~= line@);
    lo == hi
}

impl Default for Folder {
    fn default() -> (f: Folder)
        ensures
            f@.stack == Seq::<Seq<char>>::empty(),
            f@.occ == Map::<Seq<char>, usize>::empty(),
            !f@.includeoffset,
    {
        Folder::from_options(Options::default())
    }
}


/// Whether a line after the header can be a stack line: it names a module (holds a
/// backquote) or is a hexadecimal address.
pub open spec fn looks_like_frame(t: Seq<char>) -> bool {
    has_char(t, '`') || (starts_with(t, "0x"@) && hex_usize_text_ok(t.skip(2)))
}

/// What the lines from `i` on tell of whether the input is DTrace output, given whether an
/// empty line and a stack line were seen before.
pub open spec fn applicable_from(lines: Seq<Seq<char>>, i: int, found_empty: bool, found_stack: bool) -> Option<bool>
    decreases lines.len() - i,
{
    if i < 0 || i >= lines.len() {
        None
    } else {
        let t = trim(lines[i]);
        if t.len() == 0 {
            applicable_from(lines, i + 1, true, found_stack)
        } else if !found_empty {
            applicable_from(lines, i + 1, found_empty, found_stack)
        } else if parse_usize_text(t) is Some {
            Some(found_stack)
        } else if looks_like_frame(t) {
            applicable_from(lines, i + 1, found_empty, true)
        } else {
            Some(false)
        }
    }
}

fn looks_like_frame_str(t: &str) -> (b: bool)
    ensures
        b == looks_like_frame(t@),
{
    let c = chars_of(t);
    let tick: [char; 1] = ['`'];
    let hex_prefix: [char; 2] = ['0', 'x'];
    assert(hex_prefix@ =~= "0x"@) by { reveal_strlit("0x"); }
    if contains_chars(c.as_slice(), tick.as_slice()) {
        proof {
            let i = choose|i: int| 0 <= i <= c@.len() - 1 && occurs_at(c@, tick@, i);
            assert(c@[i] == tick@[0]);
        }
        return true;
    }
    proof {
        assert forall|i: int| 0 <= i < c@.len() && #[trigger] c@[i] == '`' implies false by {
            assert(occurs_at(c@, tick@, i)) by {
                assert(c@.subrange(i, i + 1) =~= tick@);
            }
        }
    }
    if starts_with_chars(c.as_slice(), hex_prefix.as_slice()) {
        let n = c.len();
        let rest = &c[2..n];
        assert(rest@ =~= t@.skip(2));
        hex_usize_ok(rest)
    } else {
        false
    }
}

/// Whether the input looks like DTrace output: after an empty line, stack lines (with a
/// backquote, or a hexadecimal address) up to a count give `Some(true)`; a count with no stack
/// line before it, or any other line, gives `Some(false)`; an input that ends before either
/// gives `None` (not sure).
pub fn applicable(input: &str) -> (r: Option<bool>)
    ensures
        r == applicable_from(read_lines(input@), 0, false, false),
{
    let lines = input_lines(input);
    let ghost lv = read_lines(input@);
    let n = lines.len();
    let mut found_empty = false;
    let mut found_stack = false;
    let mut i: usize = 0;
    while i < n
        invariant
            strs_view(lines@) == lv,
            lv == read_lines(input@),
            i <= n == lines@.len(),
            applicable_from(lv, 0, false, false) == applicable_from(lv, i as int, found_empty, found_stack),
        decreases n - i,
    {
        assert(lv[i as int] == lines@[i as int]@);
        let c = chars_of(lines[i].as_str());
        let (lo, hi) = trim_bounds(c.as_slice(), 0, c.len());
        assert(c@.subrange(0, c@.len() as int) =~= lv[i as int]);
        let t = string_from_chars(&c[lo..hi]);
        if lo == hi {
            found_empty = true;
        } else if found_empty {
            if parse_usize_str(t.as_str()).is_some() {
                return Some(found_stack);
            } else if looks_like_frame_str(t.as_str()) {
                found_stack = true;
            } else {
                return Some(false);
            }
        }
        i += 1;
    }
    None
}

impl Folder {
    /// Whether the input looks like DTrace output (see [`applicable`]).
    pub fn is_applicable(&mut self, input: &str) -> (r: Option<bool>)
        ensures
            final(self)@ == old(self)@,
            r == applicable_from(read_lines(input@), 0, false, false),
    {
        applicable(input)
    }
}

} // verus!
