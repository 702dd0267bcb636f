//! Collapsing the call graphs that the Xdebug profiler writes.
//!
//! A trace is read line by line: [`Folder::collapse_text`] runs the line machine of
//! [`xdebug_step`] over the lines and folds the stacks of the `{main}` function.
use vstd::prelude::*;
use vstd::string::StringSliceAdditionalSpecFns;
use vstd::utf8::{encode_utf8, is_char_boundary};
use std::collections::{HashMap, HashSet, VecDeque};
use crate::collapse::common::{added_count, count_lines, Occurrences};
use crate::keyed::{keyed_map, sorted_keys};
use crate::text::{
    parse_usize_str, parse_usize_text,
    push_range, chars_of, ends_with, ends_with_chars, find, find_chars, lemma_find_from_bounds, parse_u64_str,
    parse_u64_text, push_str, split_chars, split_on, starts_with, starts_with_chars, str_eq,
    string_from_chars, strs_view, trim, trim_bounds,
};

verus! {

// ------------------------------------------------------------------
// Numbers in ids and stats lines
// ------------------------------------------------------------------

pub open spec fn is_digit_byte(b: u8) -> bool {
    48 <= b <= 57
}

/// The value of a string of ASCII digit bytes.
pub open spec fn bytes_value(b: Seq<u8>) -> nat
    decreases b.len(),
{
    if b.len() == 0 {
        0
    } else {
        bytes_value(b.drop_last()) * 10 + (b.last() - 48) as nat
    }
}

pub open spec fn all_digit_bytes(d: Seq<u8>) -> bool {
    forall|i: int| 0 <= i < d.len() ==> is_digit_byte(#[trigger] d[i])
}

/// What `str::parse::<usize>` gives for the text with these UTF-8 bytes: an optional `+`
/// followed by at least one decimal digit, worth at most `usize::MAX`.
pub open spec fn parse_usize_bytes(b: Seq<u8>) -> Option<usize> {
    let d = if b.len() > 0 && b[0] == 43 { b.skip(1) } else { b };
    if d.len() > 0 && all_digit_bytes(d) && bytes_value(d) <= usize::MAX {
        Some(bytes_value(d) as usize)
    } else {
        None
    }
}

proof fn lemma_bytes_value_prefix(d: Seq<u8>, k: int)
    requires
        0 <= k <= d.len(),
        forall|i: int| 0 <= i < d.len() ==> is_digit_byte(#[trigger] d[i]),
    ensures
        bytes_value(d.take(k)) <= bytes_value(d),
    decreases d.len() - k,
{
    if k < d.len() {
        lemma_bytes_value_prefix(d, k + 1);
        assert(d.take(k + 1).drop_last() =~= d.take(k));
    } else {
        assert(d.take(k) =~= d);
    }
}

/// Parses `b[lo..hi]` as `str::parse::<usize>` does.
fn parse_usize_in(b: &[u8], lo: usize, hi: usize) -> (r: Option<usize>)
    requires
        lo <= hi <= b@.len(),
    ensures
        r == parse_usize_bytes(b@.subrange(lo as int, hi as int)),
{
    let ghost t = b@.subrange(lo as int, hi as int);
    let start = if lo < hi && b[lo] == 43 { lo + 1 } else { lo };
    let ghost d = b@.subrange(start as int, hi as int);
    assert(d =~= (if t.len() > 0 && t[0] == 43 { t.skip(1) } else { t }));
    if start == hi {
        return None;
    }
    let mut v: usize = 0;
    let mut i = start;
    while i < hi
        invariant
            lo <= start <= i <= hi <= b@.len(),
            t == b@.subrange(lo as int, hi as int),
            d == b@.subrange(start as int, hi as int),
            d == (if t.len() > 0 && t[0] == 43 { t.skip(1) } else { t }),
            d.len() > 0,
            forall|j: int| 0 <= j < i - start ==> is_digit_byte(#[trigger] d[j]),
            v as nat == bytes_value(d.take(i - start)),
        decreases hi - i,
    {
        let c = b[i];
        assert(d[i - start] == c);
        if c < 48 || c > 57 {
            assert(!is_digit_byte(d[i - start]));
            assert(!all_digit_bytes(d));
            return None;
        }
        let dv = (c - 48) as usize;
        assert(d.take(i + 1 - start).drop_last() =~= d.take(i - start));
        assert(d.take(i + 1 - start).last() == c);
        assert(bytes_value(d.take(i + 1 - start)) == v * 10 + dv);
        if v > (usize::MAX - dv) / 10 {
            assert(v * 10 + dv > usize::MAX) by (nonlinear_arith)
                requires
                    v > (usize::MAX - dv) / 10,
                    dv <= 9,
            ;
            proof {
                if all_digit_bytes(d) {
                    lemma_bytes_value_prefix(d, i + 1 - start);
                }
            }
            return None;
        }
        v = v * 10 + dv;
        i += 1;
    }
    assert(d.take(d.len() as int) =~= d);
    Some(v)
}

/// The id in `{prefix}=({id})`: the bytes between the prefix with two more bytes and the
/// last byte. `None` where cutting out those bytes or reading the number fails.
pub open spec fn prefixed_id(s: Seq<char>, prefix: Seq<char>) -> Option<usize> {
    let b = encode_utf8(s);
    let lo: int = encode_utf8(prefix).len() as int + 2;
    let hi: int = b.len() - 1;
    if lo <= hi && is_char_boundary(b, lo) && is_char_boundary(b, hi) {
        parse_usize_bytes(b.subrange(lo, hi))
    } else {
        None
    }
}

/// Reads the id out of `{prefix}=({id})`, or `None` where that fails.
fn parse_prefixed_id(s: &str, prefix: &str) -> (r: Option<usize>)
    ensures
        r == prefixed_id(s@, prefix@),
{
    let b = s.as_bytes();
    let pb = prefix.as_bytes();
    assert(pb@ == encode_utf8(prefix@));
    assert(b@ == encode_utf8(s@));
    let n = b.len();
    let p = pb.len();
    if n == 0 || p > n || n - p < 3 {
        return None;
    }
    let hi = n - 1;
    let lo = p + 2;
    if !s.is_char_boundary(lo) || !s.is_char_boundary(hi) {
        return None;
    }
    parse_usize_in(b, lo, hi)
}

/// Gets the id out of `{prefix}=({id})`.
fn get_prefixed_id(s: &str, prefix: &str) -> (r: usize)
    requires
        prefixed_id(s@, prefix@) is Some,
    ensures
        prefixed_id(s@, prefix@) == Some(r),
{
    match parse_prefixed_id(s, prefix) {
        Some(v) => v,
        None => {
            assert(false);
            0
        },
    }
}

/// `s` without the suffix `suf`, where it ends in it.
pub open spec fn strip_suffix_or_keep(s: Seq<char>, suf: Seq<char>) -> Seq<char> {
    if ends_with(s, suf) { s.take(s.len() - suf.len()) } else { s }
}

/// The id and the optional name of a line `{prefix}=({id}) {name}`; a line without the
/// prefix gives id 0 and no name. `None` where the id cannot be read.
pub open spec fn index_and_name(line: Seq<char>, prefix: Seq<char>, strip: Option<Seq<char>>) -> Option<
    (usize, Option<Seq<char>>),
> {
    if !starts_with(line, prefix) {
        Some((0, None))
    } else {
        let t = trim(line);
        match find(t, seq![' ']) {
            Some(i) => match prefixed_id(t.take(i), prefix) {
                None => None,
                Some(id) => {
                    let b = t.skip(i + 1);
                    Some(
                        (
                            id,
                            Some(
                                match strip {
                                    Some(x) => strip_suffix_or_keep(b, seq![':'] + x),
                                    None => b,
                                },
                            ),
                        ),
                    )
                },
            },
            None => match prefixed_id(t, prefix) {
                None => None,
                Some(id) => Some((id, None)),
            },
        }
    }
}

pub open spec fn opt_view(o: Option<String>) -> Option<Seq<char>> {
    match o {
        Some(s) => Some(s@),
        None => None,
    }
}

pub open spec fn opt_strip(o: Option<&str>) -> Option<Seq<char>> {
    match o {
        Some(x) => Some(x@),
        None => None,
    }
}

pub open spec fn id_name_view(r: (usize, Option<String>)) -> (usize, Option<Seq<char>>) {
    (r.0, opt_view(r.1))
}

/// Reads `{prefix}=({id}) {name}` as [`get_index_and_optional_name`] does, or `None` where
/// reading the id fails.
fn index_and_name_of(line: &str, expected_prefix: &str, strip_suffix: Option<&str>) -> (r: Option<(usize, Option<String>)>)
    ensures
        match r {
            Some(x) => index_and_name(line@, expected_prefix@, opt_strip(strip_suffix)) == Some(id_name_view(x)),
            None => index_and_name(line@, expected_prefix@, opt_strip(strip_suffix)) is None,
        },
{
    let lc = chars_of(line);
    let pc = chars_of(expected_prefix);
    if !starts_with_chars(lc.as_slice(), pc.as_slice()) {
        return Some((0, None));
    }
    let (lo, hi) = trim_bounds(lc.as_slice(), 0, lc.len());
    assert(lc@.subrange(0, lc@.len() as int) =~= lc@);
    let t = &lc[lo..hi];
    let space: [char; 1] = [' '];
    assert(space@ =~= seq![' ']);
    proof { lemma_find_from_bounds(t@, seq![' '], 0); }
    match find_chars(t, space.as_slice()) {
        Some(i) => {
            let a = string_from_chars(&t[0..i]);
            assert(a@ =~= t@.take(i as int));
            let id = match parse_prefixed_id(a.as_str(), expected_prefix) {
                Some(id) => id,
                None => return None,
            };
            let rest = &t[i + 1..t.len()];
            assert(rest@ =~= t@.skip(i + 1));
            let name = match strip_suffix {
                Some(x) => {
                    let mut suf: Vec<char> = Vec::new();
                    suf.push(':');
                    push_str(&mut suf, x);
                    assert(suf@ =~= seq![':'] + x@);
                    if ends_with_chars(rest, suf.as_slice()) {
                        let r = string_from_chars(&rest[0..rest.len() - suf.len()]);
                        assert(r@ =~= rest@.take(rest@.len() - suf@.len()));
                        r
                    } else {
                        string_from_chars(rest)
                    }
                },
                None => string_from_chars(rest),
            };
            Some((id, Some(name)))
        },
        None => {
            let whole = string_from_chars(t);
            match parse_prefixed_id(whole.as_str(), expected_prefix) {
                Some(id) => Some((id, None)),
                None => None,
            }
        },
    }
}

/// Given a line of the trace, gets its numerical identifier and its optional name:
/// `{prefix}=({id}) {name}`, where the name may be left out. If `strip_suffix` is given, `:`
/// and it are stripped from the end of the name. A line without the prefix gives id 0 and no
/// name.
pub fn get_index_and_optional_name(line: &str, expected_prefix: &str, strip_suffix: Option<&str>) -> (r: (usize, Option<String>))
    requires
        index_and_name(line@, expected_prefix@, opt_strip(strip_suffix)) is Some,
    ensures
        index_and_name(line@, expected_prefix@, opt_strip(strip_suffix)) == Some(id_name_view(r)),
{
    match index_and_name_of(line, expected_prefix, strip_suffix) {
        Some(x) => x,
        None => {
            assert(false);
            (0, None)
        },
    }
}

/// The number at position `i` of a stats line, 0 where it is missing or not a number.
pub open spec fn stat_at(parts: Seq<Seq<char>>, i: int) -> usize {
    if 0 <= i < parts.len() {
        match parse_usize_text(parts[i]) {
            Some(v) => v,
            None => 0,
        }
    } else {
        0
    }
}

/// The line number, time and memory of a stats line: three numbers separated by spaces.
pub open spec fn call_stats(line: Seq<char>) -> (usize, usize, usize) {
    let p = split_on(trim(line), ' ');
    (stat_at(p, 0), stat_at(p, 1), stat_at(p, 2))
}

/// Reads a stats line: the line number, the time spent and the memory used. A number that is
/// missing or cannot be read counts as 0.
pub fn read_call_stats(line: &str) -> (r: (usize, usize, usize))
    ensures
        r == call_stats(line@),
{
    let lc = chars_of(line);
    let (lo, hi) = trim_bounds(lc.as_slice(), 0, lc.len());
    assert(lc@.subrange(0, lc@.len() as int) =~= lc@);
    let parts = split_chars(&lc[lo..hi], ' ');
    let ghost p = split_on(trim(line@), ' ');
    let mut stats: [usize; 3] = [0, 0, 0];
    let mut k: usize = 0;
    while k < 3
        invariant
            k <= 3,
            strs_view(parts@) == p,
            forall|j: int| 0 <= j < k ==> stats@[j] == stat_at(p, j),
        decreases 3 - k,
    {
        if k < parts.len() {
            assert(p[k as int] == parts@[k as int]@);
            match parse_usize_str(parts[k].as_str()) {
                Some(v) => {
                    stats[k] = v;
                },
                None => {
                    stats[k] = 0;
                },
            }
        } else {
            stats[k] = 0;
        }
        k += 1;
    }
    (stats[0], stats[1], stats[2])
}

// ------------------------------------------------------------------
// Functions and the calls between them
// ------------------------------------------------------------------

/// A function, with the file that holds it where that is known.
#[derive(Clone, Copy, PartialEq, Eq, Structural, Debug)]
pub enum Call {
    WithPath(usize, usize),
    WithoutPath(usize),
}

/// A function with the time spent in it and the functions it called.
pub struct Function {
    pub function: Call,
    pub self_time_ns: usize,
    pub calls: Vec<Function>,
}

pub ghost struct FunctionSpec {
    pub call: Call,
    pub self_time: usize,
    pub calls: Seq<FunctionSpec>,
}

pub open spec fn function_view(f: Function) -> FunctionSpec
    decreases f,
{
    FunctionSpec {
        call: f.function,
        self_time: f.self_time_ns,
        calls: Seq::new(
            f.calls@.len(),
            |i: int|
                if 0 <= i < f.calls@.len() {
                    function_view(f.calls@[i])
                } else {
                    FunctionSpec { call: f.function, self_time: 0, calls: Seq::empty() }
                },
        ),
    }
}

pub open spec fn call_id(c: Call) -> usize {
    match c {
        Call::WithPath(i, _) => i,
        Call::WithoutPath(i) => i,
    }
}

impl Call {
    /// The identifier of the called function.
    pub fn get_function_id(&self) -> (r: usize)
        ensures
            r == call_id(*self),
    {
        match self {
            Call::WithPath(i, _) => *i,
            Call::WithoutPath(i) => *i,
        }
    }
}

impl Function {
    /// A function that has not called anything yet.
    pub fn new(function: Call, self_time_ns: usize) -> (r: Function)
        ensures
            function_view(r) == (FunctionSpec { call: function, self_time: self_time_ns, calls: Seq::empty() }),
    {
        let r = Function { function, self_time_ns, calls: Vec::new() };
        assert(function_view(r).calls =~= Seq::<FunctionSpec>::empty());
        r
    }

    /// Records a function that this function called.
    pub fn call(&mut self, function: Function)
        ensures
            function_view(*final(self)) == (FunctionSpec {
                call: function_view(*old(self)).call,
                self_time: function_view(*old(self)).self_time,
                calls: function_view(*old(self)).calls.push(function_view(function)),
            }),
    {
        let ghost fv = function_view(function);
        self.calls.push(function);
        assert(function_view(*final(self)).calls =~= function_view(*old(self)).calls.push(fv));
    }
}

/// Options for the Xdebug collapser.
pub struct Options {
    /// The number of threads to use.
    pub nthreads: usize,
    /// Whether to write, after each function, the file that holds it.
    pub include_filenames: bool,
}

/// `num_cpus::get`: the number of CPUs available to this process, which depends on the
/// machine; nothing is stated of it.
#[verifier::external_body]
fn available_cpus() -> usize {
    num_cpus::get()
}

impl Default for Options {
    fn default() -> (r: Options)
        ensures
            !r.include_filenames,
    {
        Options { nthreads: available_cpus(), include_filenames: false }
    }
}

/// What the collapser knows of the trace: the file and the name of each function id, the
/// functions read but not yet called, and whether file names go into the stacks.
pub ghost struct XState {
    pub filenames: Map<usize, Option<Seq<char>>>,
    pub function_names: Map<usize, Seq<char>>,
    pub cache: Map<usize, Seq<FunctionSpec>>,
    pub include_filenames: bool,
}

/// The collapser of Xdebug traces.
pub struct Folder {
    filenames: HashMap<usize, Option<String>>,
    function_names: HashMap<usize, String>,
    /// Functions that have been read but not yet called, by id. The trace format defines a
    /// function before it appears as a called function.
    function_cache: HashMap<usize, VecDeque<Function>>,
    options: Options,
}

pub open spec fn queue_view(q: VecDeque<Function>) -> Seq<FunctionSpec> {
    queue_view_of(q@)
}

impl View for Folder {
    type V = XState;

    closed spec fn view(&self) -> XState {
        XState {
            filenames: self.filenames@.map_values(|o: Option<String>| opt_view(o)),
            function_names: self.function_names@.map_values(|s: String| s@),
            cache: self.function_cache@.map_values(|q: VecDeque<Function>| queue_view(q)),
            include_filenames: self.options.include_filenames,
        }
    }
}

/// The text of a function in a stack: its name, and with `include_filenames` the file after it
/// in parentheses. `None` where a name or a file is unknown.
pub open spec fn call_text(st: XState, c: Call) -> Option<Seq<char>> {
    match c {
        Call::WithPath(func, file) => if !st.function_names.contains_key(func) || !st.filenames.contains_key(file) {
            None
        } else if st.include_filenames {
            match st.filenames[file] {
                Some(p) => Some(st.function_names[func] + " ("@ + p + ")"@),
                None => None,
            }
        } else {
            Some(st.function_names[func])
        },
        Call::WithoutPath(func) => if st.function_names.contains_key(func) {
            Some(st.function_names[func])
        } else {
            None
        },
    }
}

/// What walking the calls of `f` below the stack `key` adds to the counts `m`: the stack of
/// every call path, with the time of the path so far (in microseconds), skipping a call to
/// a function already on the path. `None` where a name is unknown or a sum overflows.
pub open spec fn gather(
    st: XState,
    f: FunctionSpec,
    key: Seq<char>,
    seen: Set<usize>,
    time: int,
    m: Map<Seq<char>, usize>,
) -> Option<Map<Seq<char>, usize>>
    decreases f, f.calls.len() + 1,
{
    match call_text(st, f.call) {
        None => None,
        Some(name) => {
            let k = if key.len() == 0 { name } else { key + seq![';'] + name };
            let t = time + f.self_time;
            if t > usize::MAX {
                None
            } else {
                let add = added_count(m, k, (t / 1000) as usize);
                if add > usize::MAX {
                    None
                } else {
                    gather_calls(st, f, f.calls.len() as int, k, seen, t, m.insert(k, add as usize))
                }
            }
        },
    }
}

/// What the first `j` calls of `f` add, in order.
pub open spec fn gather_calls(
    st: XState,
    f: FunctionSpec,
    j: int,
    key: Seq<char>,
    seen: Set<usize>,
    time: int,
    m: Map<Seq<char>, usize>,
) -> Option<Map<Seq<char>, usize>>
    decreases f, j,
{
    if j <= 0 {
        Some(m)
    } else if j > f.calls.len() {
        None
    } else {
        match gather_calls(st, f, j - 1, key, seen, time, m) {
            None => None,
            Some(m1) => {
                let c = f.calls[j - 1];
                let id = call_id(c.call);
                if seen.contains(id) {
                    Some(m1)
                } else {
                    gather(st, c, key, seen.insert(id), time, m1)
                }
            },
        }
    }
}

impl Folder {
    fn name_of(&self, func: usize) -> (r: &String)
        requires
            self@.function_names.contains_key(func),
        ensures
            r@ == self@.function_names[func],
    {
        broadcast use vstd::std_specs::hash::group_hash_axioms;
        match self.function_names.get(&func) {
            Some(n) => n,
            None => {
                assert(false);
                unreached()
            },
        }
    }

    fn filename_of(&self, file: usize) -> (r: &Option<String>)
        requires
            self@.filenames.contains_key(file),
        ensures
            opt_view(*r) == self@.filenames[file],
    {
        broadcast use vstd::std_specs::hash::group_hash_axioms;
        match self.filenames.get(&file) {
            Some(n) => n,
            None => {
                assert(false);
                unreached()
            },
        }
    }

    fn has_filename(&self, file: usize) -> (b: bool)
        ensures
            b == self@.filenames.contains_key(file),
    {
        broadcast use vstd::std_specs::hash::group_hash_axioms;
        self.filenames.contains_key(&file)
    }

    fn has_function_name(&self, func: usize) -> (b: bool)
        ensures
            b == self@.function_names.contains_key(func),
    {
        broadcast use vstd::std_specs::hash::group_hash_axioms;
        self.function_names.contains_key(&func)
    }
}

impl Call {
    /// The text of this function in a stack: its name, followed by its file in parentheses
    /// when the folder includes file names.
    pub fn as_str(&self, folder: &Folder) -> (r: String)
        requires
            call_text(folder@, *self) is Some,
        ensures
            call_text(folder@, *self) == Some(r@),
    {
        match self {
            Call::WithPath(func, file) => {
                let name = folder.name_of(*func);
                let path = folder.filename_of(*file);
                if folder.options.include_filenames {
                    let mut out: Vec<char> = Vec::new();
                    push_str(&mut out, name.as_str());
                    push_str(&mut out, " (");
                    match path {
                        Some(p) => push_str(&mut out, p.as_str()),
                        None => {
                            assert(false);
                        },
                    }
                    push_str(&mut out, ")");
                    string_from_chars(out.as_slice())
                } else {
                    string_from_chars(chars_of(name.as_str()).as_slice())
                }
            },
            Call::WithoutPath(func) => {
                let name = folder.name_of(*func);
                string_from_chars(chars_of(name.as_str()).as_slice())
            },
        }
    }
}

pub open spec fn queue_view_of(q: Seq<Function>) -> Seq<FunctionSpec> {
    q.map_values(|f: Function| function_view(f))
}

impl Call {
    /// The text of this function in a stack, or `None` where its name or file is unknown.
    fn text_of(&self, folder: &Folder) -> (r: Option<String>)
        ensures
            match r {
                Some(t) => call_text(folder@, *self) == Some(t@),
                None => call_text(folder@, *self) is None,
            },
    {
        let known = match self {
            Call::WithPath(func, file) => folder.has_function_name(*func) && folder.has_filename(*file) && (
            !folder.options.include_filenames || folder.filename_of(*file).is_some()),
            Call::WithoutPath(func) => folder.has_function_name(*func),
        };
        if known {
            Some(self.as_str(folder))
        } else {
            None
        }
    }
}

impl Function {
    /// Walks all called functions, adding the stack of every call path to the counts. Returns
    /// `false` where a function's name or file is unknown or a sum overflows, and the walk stops.
    fn gather_stacks_recursive(
        &self,
        key: &mut Vec<char>,
        seen: &mut HashSet<usize>,
        time_ns: usize,
        folder: &Folder,
        occurrences: &mut Occurrences,
    ) -> (ok: bool)
        ensures
            ok == gather(folder@, function_view(*self), old(key)@, old(seen)@, time_ns as int, old(occurrences)@) is Some,
            ok ==> final(key)@ == old(key)@,
            ok ==> final(seen)@ == old(seen)@,
            ok ==> gather(folder@, function_view(*self), old(key)@, old(seen)@, time_ns as int, old(occurrences)@)
                == Some(final(occurrences)@),
        decreases self,
    {
        broadcast use vstd::std_specs::hash::group_hash_axioms;
        let ghost fv = function_view(*self);
        let ghost st = folder@;
        let ghost key0 = key@;
        let ghost seen0 = seen@;
        let ghost occ0 = occurrences@;
        let name = match self.function.text_of(folder) {
            Some(n) => n,
            None => return false,
        };
        let old_len = key.len();
        if key.len() > 0 {
            key.push(';');
        }
        push_str(key, name.as_str());
        let ghost k = key@;
        assert(k =~= (if key0.len() == 0 { name@ } else { key0 + seq![';'] + name@ }));
        if time_ns > usize::MAX - self.self_time_ns {
            return false;
        }
        let t = time_ns + self.self_time_ns;
        let stack = string_from_chars(key.as_slice());
        let cur = match occurrences.get(stack.as_str()) {
            Some(c) => c,
            None => 0,
        };
        if cur > usize::MAX - t / 1000 {
            return false;
        }
        occurrences.insert_or_add(stack, t / 1000);
        let ghost m1 = occurrences@;
        let mut i: usize = 0;
        while i < self.calls.len()
            invariant
                fv == function_view(*self),
                st == folder@,
                key0 == old(key)@,
                seen0 == old(seen)@,
                occ0 == old(occurrences)@,
                i <= self.calls@.len(),
                fv.calls.len() == self.calls@.len(),
                key@ == k,
                seen@ == seen0,
                gather(st, fv, key0, seen0, time_ns as int, occ0) == gather_calls(
                    st,
                    fv,
                    fv.calls.len() as int,
                    k,
                    seen0,
                    t as int,
                    m1,
                ),
                gather_calls(st, fv, i as int, k, seen0, t as int, m1) == Some(occurrences@),
            decreases self.calls.len() - i,
        {
            let call = &self.calls[i];
            assert(fv.calls[i as int] == function_view(*call));
            let func_id = call.function.get_function_id();
            if !seen.contains(&func_id) {
                let ghost occ_i = occurrences@;
                seen.insert(func_id);
                assert(seen@ == seen0.insert(func_id));
                let ok = call.gather_stacks_recursive(key, seen, t, folder, occurrences);
                if !ok {
                    proof {
                        assert(gather(st, fv.calls[i as int], k, seen0.insert(func_id), t as int, occ_i) is None);
                        assert(gather_calls(st, fv, i as int, k, seen0, t as int, m1) == Some(occ_i));
                        assert(!seen0.contains(call_id(fv.calls[i as int].call)));
                        assert(gather_calls(st, fv, i + 1, k, seen0, t as int, m1) is None);
                        lemma_gather_calls_none_after(st, fv, i + 1, fv.calls.len() as int, k, seen0, t as int, m1);
                    }
                    return false;
                }
                seen.remove(&func_id);
                assert(seen@ =~= seen0);
            }
            i += 1;
        }
        key.truncate(old_len);
        assert(key@ =~= key0);
        true
    }

    /// Gathers all stacks below this function into the counts; `false` where that fails.
    fn gather_stacks(&self, folder: &Folder, occurrences: &mut Occurrences) -> (ok: bool)
        ensures
            ok == gather(folder@, function_view(*self), Seq::empty(), Set::empty(), 0, old(occurrences)@) is Some,
            ok ==> gather(folder@, function_view(*self), Seq::empty(), Set::empty(), 0, old(occurrences)@) == Some(
                final(occurrences)@,
            ),
    {
        let mut seen: HashSet<usize> = HashSet::new();
        let mut key: Vec<char> = Vec::new();
        assert(key@ =~= Seq::<char>::empty());
        self.gather_stacks_recursive(&mut key, &mut seen, 0, folder, occurrences)
    }
}

proof fn lemma_gather_calls_none_after(
    st: XState,
    f: FunctionSpec,
    i: int,
    j: int,
    key: Seq<char>,
    seen: Set<usize>,
    time: int,
    m: Map<Seq<char>, usize>,
)
    requires
        0 <= i <= j,
        gather_calls(st, f, i, key, seen, time, m) is None,
    ensures
        gather_calls(st, f, j, key, seen, time, m) is None,
    decreases j - i,
{
    if i < j {
        lemma_gather_calls_none_after(st, f, i, j - 1, key, seen, time, m);
    }
}

// ------------------------------------------------------------------
// Reading a trace line by line
// ------------------------------------------------------------------

/// Where the reader of a trace stands.
pub enum Phase {
    /// In the header, at its `stage`-th line (counting stops at 2).
    Header(usize),
    /// In the events line.
    Events,
    /// Before a function block: its `fl=` line comes next.
    Functions,
    /// After a function's `fl=` line: its `fn=` line comes next.
    FunctionName { file_index: usize, filename: Option<String> },
    /// After a function's `fn=` line: its stats line comes next.
    Stats { call: Call, function_index: usize, is_main: bool },
    /// In a function's list of calls: a `cfl=` line or the blank line that ends the block.
    Calls { current: Function, function_index: usize, is_main: bool },
    /// After a call's `cfl=` line: its `cfn=` line comes next.
    CalledFunction { current: Function, function_index: usize, is_main: bool },
    /// After a call's `cfn=` line: the `calls=` line comes next.
    CallsLine { current: Function, function_index: usize, is_main: bool, called: usize },
    /// After a call's `calls=` line: its stats line comes next.
    CallStats { current: Function, function_index: usize, is_main: bool, called: usize },
    /// Reading is over.
    Finished,
}

pub ghost enum PhaseSpec {
    Header(usize),
    Events,
    Functions,
    FunctionName { file_index: usize, filename: Option<Seq<char>> },
    Stats { call: Call, function_index: usize, is_main: bool },
    Calls { current: FunctionSpec, function_index: usize, is_main: bool },
    CalledFunction { current: FunctionSpec, function_index: usize, is_main: bool },
    CallsLine { current: FunctionSpec, function_index: usize, is_main: bool, called: usize },
    CallStats { current: FunctionSpec, function_index: usize, is_main: bool, called: usize },
    Finished,
}

impl View for Phase {
    type V = PhaseSpec;

    open spec fn view(&self) -> PhaseSpec {
        match self {
            Phase::Header(k) => PhaseSpec::Header(*k),
            Phase::Events => PhaseSpec::Events,
            Phase::Functions => PhaseSpec::Functions,
            Phase::FunctionName { file_index, filename } => PhaseSpec::FunctionName {
                file_index: *file_index,
                filename: opt_view(*filename),
            },
            Phase::Stats { call, function_index, is_main } => PhaseSpec::Stats {
                call: *call,
                function_index: *function_index,
                is_main: *is_main,
            },
            Phase::Calls { current, function_index, is_main } => PhaseSpec::Calls {
                current: function_view(*current),
                function_index: *function_index,
                is_main: *is_main,
            },
            Phase::CalledFunction { current, function_index, is_main } => PhaseSpec::CalledFunction {
                current: function_view(*current),
                function_index: *function_index,
                is_main: *is_main,
            },
            Phase::CallsLine { current, function_index, is_main, called } => PhaseSpec::CallsLine {
                current: function_view(*current),
                function_index: *function_index,
                is_main: *is_main,
                called: *called,
            },
            Phase::CallStats { current, function_index, is_main, called } => PhaseSpec::CallStats {
                current: function_view(*current),
                function_index: *function_index,
                is_main: *is_main,
                called: *called,
            },
            Phase::Finished => PhaseSpec::Finished,
        }
    }
}

pub open spec fn is_blank(line: Seq<char>) -> bool {
    trim(line).len() == 0
}

/// The function that a `fn=` line names: with its file where the `fl=` line gave one, or
/// where its file id is known and not 1 (PHP's built-in functions).
pub open spec fn call_of(st: XState, file_index: usize, filename: Option<Seq<char>>, function_index: usize) -> Call {
    if filename is Some {
        Call::WithPath(function_index, file_index)
    } else if file_index == 1 {
        Call::WithoutPath(function_index)
    } else if st.filenames.contains_key(file_index) {
        Call::WithPath(function_index, file_index)
    } else {
        Call::WithoutPath(function_index)
    }
}

pub open spec fn with_filename(st: XState, file_index: usize, filename: Option<Seq<char>>) -> XState {
    if st.filenames.contains_key(file_index) {
        st
    } else {
        XState { filenames: st.filenames.insert(file_index, filename), ..st }
    }
}

pub open spec fn with_function_name(st: XState, function_index: usize, name: Seq<char>) -> XState {
    if st.function_names.contains_key(function_index) {
        st
    } else {
        XState { function_names: st.function_names.insert(function_index, name), ..st }
    }
}

pub open spec fn cached(st: XState, id: usize) -> Seq<FunctionSpec> {
    if st.cache.contains_key(id) { st.cache[id] } else { Seq::empty() }
}

pub open spec fn with_cached(st: XState, id: usize, q: Seq<FunctionSpec>) -> XState {
    XState { cache: st.cache.insert(id, q), ..st }
}

/// What one line of the trace does: the new state, phase and counts, or `None` where the
/// reader stops on a malformed line (an id that cannot be read, a new function id whose
/// `fn=` line gives no name, or a main function whose stacks cannot be gathered).
#[verifier::opaque]
pub open spec fn xdebug_step(st: XState, ph: PhaseSpec, occ: Map<Seq<char>, usize>, line: Seq<char>) -> Option<
    (XState, PhaseSpec, Map<Seq<char>, usize>),
> {
    match ph {
        PhaseSpec::Header(stage) => if is_blank(line) {
            Some((st, PhaseSpec::Events, occ))
        } else if stage == 0 && trim(line) != "version: 1"@ {
            Some((st, PhaseSpec::Finished, occ))
        } else if stage == 1 && !starts_with(trim(line), "creator: xdebug"@) {
            Some((st, PhaseSpec::Finished, occ))
        } else {
            Some((st, PhaseSpec::Header(if stage < 2 { (stage + 1) as usize } else { 2 }), occ))
        },
        PhaseSpec::Events => if is_blank(line) {
            Some((st, PhaseSpec::Functions, occ))
        } else {
            Some((st, PhaseSpec::Events, occ))
        },
        PhaseSpec::Functions => if is_blank(line) || starts_with(line, "summary: "@) {
            Some((st, PhaseSpec::Finished, occ))
        } else {
            match index_and_name(line, "fl"@, None) {
                None => None,
                Some((fi, fname)) => Some((st, PhaseSpec::FunctionName { file_index: fi, filename: fname }, occ)),
            }
        },
        PhaseSpec::FunctionName { file_index, filename } => match index_and_name(line, "fn"@, filename) {
            None => None,
            Some((fidx, function)) => {
                let call = call_of(st, file_index, filename, fidx);
                let is_main = function == Some("{main}"@);
                let st1 = with_filename(st, file_index, filename);
                if !st1.function_names.contains_key(fidx) && function is None {
                    None
                } else {
                    let st2 = with_function_name(st1, fidx, function.unwrap_or(Seq::empty()));
                    Some((st2, PhaseSpec::Stats { call, function_index: fidx, is_main }, occ))
                }
            },
        },
        PhaseSpec::Stats { call, function_index, is_main } => Some(
            (
                st,
                PhaseSpec::Calls {
                    current: FunctionSpec { call, self_time: call_stats(line).1, calls: Seq::empty() },
                    function_index,
                    is_main,
                },
                occ,
            ),
        ),
        PhaseSpec::Calls { current, function_index, is_main } => if is_blank(line) {
            if is_main {
                match gather(st, current, Seq::empty(), Set::empty(), 0, occ) {
                    None => None,
                    Some(m) => Some((st, PhaseSpec::Finished, m)),
                }
            } else {
                Some((with_cached(st, function_index, cached(st, function_index).push(current)), PhaseSpec::Functions, occ))
            }
        } else {
            match index_and_name(line, "cfl"@, None) {
                None => None,
                Some(_) => Some((st, PhaseSpec::CalledFunction { current, function_index, is_main }, occ)),
            }
        },
        PhaseSpec::CalledFunction { current, function_index, is_main } => match index_and_name(line, "cfn"@, None) {
            None => None,
            Some((called, _)) => Some((st, PhaseSpec::CallsLine { current, function_index, is_main, called }, occ)),
        },
        PhaseSpec::CallsLine { current, function_index, is_main, called } => Some(
            (st, PhaseSpec::CallStats { current, function_index, is_main, called }, occ),
        ),
        PhaseSpec::CallStats { current, function_index, is_main, called } => if cached(st, called).len() > 0 {
            let q = cached(st, called);
            Some(
                (
                    with_cached(st, called, q.drop_first()),
                    PhaseSpec::Calls {
                        current: FunctionSpec { calls: current.calls.push(q[0]), ..current },
                        function_index,
                        is_main,
                    },
                    occ,
                ),
            )
        } else {
            Some((st, PhaseSpec::Calls { current, function_index, is_main }, occ))
        },
        PhaseSpec::Finished => Some((st, PhaseSpec::Finished, occ)),
    }
}

/// The reader after the first `k` lines.
pub open spec fn xdebug_run(
    st: XState,
    ph: PhaseSpec,
    occ: Map<Seq<char>, usize>,
    lines: Seq<Seq<char>>,
    k: int,
) -> Option<(XState, PhaseSpec, Map<Seq<char>, usize>)>
    decreases k,
{
    if k <= 0 {
        Some((st, ph, occ))
    } else {
        match xdebug_run(st, ph, occ, lines, k - 1) {
            None => None,
            Some((s, p, o)) => xdebug_step(s, p, o, lines[k - 1]),
        }
    }
}

/// The lines of a trace, followed by the empty lines that reading past its end gives.
pub open spec fn trace_lines(text: Seq<char>) -> Seq<Seq<char>> {
    split_on(text, '\n') + Seq::new(8, |i: int| Seq::<char>::empty())
}

impl Folder {
    fn add_filename(&mut self, file: usize, name: Option<String>)
        ensures
            final(self)@ == with_filename(old(self)@, file, opt_view(name)),
    {
        broadcast use vstd::std_specs::hash::group_hash_axioms;
        if !self.filenames.contains_key(&file) {
            let ghost v = opt_view(name);
            self.filenames.insert(file, name);
            assert(final(self)@.filenames =~= old(self)@.filenames.insert(file, v));
        }
    }

    fn add_function_name(&mut self, func: usize, name: String)
        ensures
            final(self)@ == with_function_name(old(self)@, func, name@),
    {
        broadcast use vstd::std_specs::hash::group_hash_axioms;
        if !self.function_names.contains_key(&func) {
            let ghost v = name@;
            self.function_names.insert(func, name);
            assert(final(self)@.function_names =~= old(self)@.function_names.insert(func, v));
        }
    }

    fn cached_len(&self, id: usize) -> (n: usize)
        ensures
            n == cached(self@, id).len(),
    {
        broadcast use vstd::std_specs::hash::group_hash_axioms, vstd::std_specs::vecdeque::group_vec_dequeue_axioms;
        match self.function_cache.get(&id) {
            Some(q) => q.len(),
            None => 0,
        }
    }

    /// Takes the queue of read functions with this id out of the cache (an empty one if none).
    fn take_cached(&mut self, id: usize) -> (q: VecDeque<Function>)
        ensures
            queue_view(q) == cached(old(self)@, id),
            final(self)@ == (XState { cache: old(self)@.cache.remove(id), ..old(self)@ }),
    {
        broadcast use vstd::std_specs::hash::group_hash_axioms;
        let r = self.function_cache.remove(&id);
        assert(final(self)@.cache =~= old(self)@.cache.remove(id));
        match r {
            Some(q) => q,
            None => {
                let q: VecDeque<Function> = VecDeque::new();
                assert(queue_view(q) =~= Seq::<FunctionSpec>::empty());
                q
            },
        }
    }

    fn put_cached(&mut self, id: usize, q: VecDeque<Function>)
        ensures
            final(self)@ == with_cached(old(self)@, id, queue_view(q)),
    {
        broadcast use vstd::std_specs::hash::group_hash_axioms;
        let ghost v = queue_view(q);
        self.function_cache.insert(id, q);
        assert(final(self)@.cache =~= old(self)@.cache.insert(id, v));
    }
}

fn is_blank_line(line: &str) -> (b: bool)
    ensures
        b == is_blank(line@),
{
    let lc = chars_of(line);
    let (lo, hi) = trim_bounds(lc.as_slice(), 0, lc.len());
    assert(lc@.subrange(0, lc@.len() as int) =~= lc@);
    lo == hi
}

fn trimmed(line: &str) -> (r: Vec<char>)
    ensures
        r@ == trim(line@),
{
    let lc = chars_of(line);
    let (lo, hi) = trim_bounds(lc.as_slice(), 0, lc.len());
    assert(lc@.subrange(0, lc@.len() as int) =~= lc@);
    let mut out: Vec<char> = Vec::new();
    push_range(&mut out, lc.as_slice(), lo, hi);
    assert(out@ =~= trim(line@));
    out
}

impl Folder {
    /// Reads one line of the trace in the given phase. Returns the next phase, or `None` where
    /// the line stops the reader (see [`xdebug_step`]).
    pub fn step(&mut self, phase: Phase, occ: &mut Occurrences, line: &str) -> (r: Option<Phase>)
        ensures
            match xdebug_step(old(self)@, phase@, old(occ)@, line@) {
                None => r is None,
                Some((st, ph, o)) => r matches Some(p) && p@ == ph && final(self)@ == st && final(occ)@ == o,
            },
    {
        reveal(xdebug_step);
        match phase {
            Phase::Header(stage) => {
                if is_blank_line(line) {
                    return Some(Phase::Events);
                }
                let t = trimmed(line);
                if stage == 0 && !str_eq(string_from_chars(t.as_slice()).as_str(), "version: 1") {
                    return Some(Phase::Finished);
                }
                let creator = chars_of("creator: xdebug");
                if stage == 1 && !starts_with_chars(t.as_slice(), creator.as_slice()) {
                    return Some(Phase::Finished);
                }
                Some(Phase::Header(if stage < 2 { stage + 1 } else { 2 }))
            },
            Phase::Events => {
                if is_blank_line(line) {
                    Some(Phase::Functions)
                } else {
                    Some(Phase::Events)
                }
            },
            Phase::Functions => {
                let lc = chars_of(line);
                let summary = chars_of("summary: ");
                if is_blank_line(line) || starts_with_chars(lc.as_slice(), summary.as_slice()) {
                    return Some(Phase::Finished);
                }
                match index_and_name_of(line, "fl", None) {
                    None => None,
                    Some((fi, fname)) => Some(Phase::FunctionName { file_index: fi, filename: fname }),
                }
            },
            Phase::FunctionName { file_index, filename } => {
                let strip: Option<&str> = match &filename {
                    Some(f) => Some(f.as_str()),
                    None => None,
                };
                match index_and_name_of(line, "fn", strip) {
                    None => None,
                    Some((fidx, function)) => {
                        let call = if filename.is_some() {
                            Call::WithPath(fidx, file_index)
                        } else if file_index == 1 {
                            Call::WithoutPath(fidx)
                        } else if self.has_filename(file_index) {
                            Call::WithPath(fidx, file_index)
                        } else {
                            Call::WithoutPath(fidx)
                        };
                        let is_main = match &function {
                            Some(n) => str_eq(n.as_str(), "{main}"),
                            None => false,
                        };
                        self.add_filename(file_index, filename);
                        if !self.has_function_name(fidx) {
                            match function {
                                Some(n) => self.add_function_name(fidx, n),
                                None => return None,
                            }
                        }
                        Some(Phase::Stats { call, function_index: fidx, is_main })
                    },
                }
            },
            Phase::Stats { call, function_index, is_main } => {
                let (_line_number, time, _memory) = read_call_stats(line);
                Some(Phase::Calls { current: Function::new(call, time), function_index, is_main })
            },
            Phase::Calls { current, function_index, is_main } => {
                if is_blank_line(line) {
                    if is_main {
                        if !current.gather_stacks(self, occ) {
                            return None;
                        }
                        Some(Phase::Finished)
                    } else {
                        let ghost st0 = self@;
                        let mut q = self.take_cached(function_index);
                        let ghost fv = function_view(current);
                        let ghost before = q@;
                        q.push_back(current);
                        assert(queue_view(q) =~= queue_view_of(before).push(fv));
                        self.put_cached(function_index, q);
                        assert(self@.cache =~= st0.cache.insert(function_index, cached(st0, function_index).push(fv)));
                        assert(self@ == with_cached(st0, function_index, cached(st0, function_index).push(fv)));
                        Some(Phase::Functions)
                    }
                } else {
                    match index_and_name_of(line, "cfl", None) {
                        None => None,
                        Some(_) => Some(Phase::CalledFunction { current, function_index, is_main }),
                    }
                }
            },
            Phase::CalledFunction { current, function_index, is_main } => {
                match index_and_name_of(line, "cfn", None) {
                    None => None,
                    Some((called, _)) => Some(Phase::CallsLine { current, function_index, is_main, called }),
                }
            },
            Phase::CallsLine { current, function_index, is_main, called } => {
                Some(Phase::CallStats { current, function_index, is_main, called })
            },
            Phase::CallStats { mut current, function_index, is_main, called } => {
                let _ = read_call_stats(line);
                let ghost st0 = self@;
                if self.cached_len(called) > 0 {
                    let mut q = self.take_cached(called);
                    let ghost before = q@;
                    match q.pop_front() {
                        Some(f) => {
                            current.call(f);
                        },
                        None => {
                            assert(false);
                        },
                    }
                    assert(queue_view(q) =~= queue_view_of(before).drop_first());
                    self.put_cached(called, q);
                    assert(self@.cache =~= st0.cache.insert(called, cached(st0, called).drop_first()));
                    assert(self@ == with_cached(st0, called, cached(st0, called).drop_first()));
                }
                Some(Phase::Calls { current, function_index, is_main })
            },
            Phase::Finished => Some(Phase::Finished),
        }
    }
}

impl Default for Folder {
    fn default() -> (f: Folder)
        ensures
            f@.filenames == Map::<usize, Option<Seq<char>>>::empty(),
            f@.function_names == Map::<usize, Seq<char>>::empty(),
            f@.cache == Map::<usize, Seq<FunctionSpec>>::empty(),
            !f@.include_filenames,
    {
        Folder::from_options(Options { nthreads: available_cpus(), include_filenames: false })
    }
}

impl Folder {
    /// A collapser with the given options that has read nothing yet.
    pub fn from_options(options: Options) -> (f: Folder)
        ensures
            f@.filenames == Map::<usize, Option<Seq<char>>>::empty(),
            f@.function_names == Map::<usize, Seq<char>>::empty(),
            f@.cache == Map::<usize, Seq<FunctionSpec>>::empty(),
            f@.include_filenames == options.include_filenames,
    {
        broadcast use vstd::std_specs::hash::group_hash_axioms;
        let f = Folder {
            filenames: HashMap::new(),
            function_names: HashMap::new(),
            function_cache: HashMap::new(),
            options,
        };
        assert(f@.filenames =~= Map::<usize, Option<Seq<char>>>::empty());
        assert(f@.function_names =~= Map::<usize, Seq<char>>::empty());
        assert(f@.cache =~= Map::<usize, Seq<FunctionSpec>>::empty());
        f
    }

    /// Collapses a whole trace: the folded lines `stack count` of the `{main}` function's call
    /// paths, in increasing order of stack, where the count is the time spent on the path in
    /// microseconds. `None` where the reader stops on a malformed line (see [`xdebug_step`]).
    pub fn collapse_text(&mut self, text: &str) -> (r: Option<String>)
        ensures
            match xdebug_run(
                old(self)@,
                PhaseSpec::Header(0),
                Map::empty(),
                trace_lines(text@),
                trace_lines(text@).len() as int,
            ) {
                None => r is None,
                Some((st, _, occ)) => {
                    &&& final(self)@ == st
                    &&& r matches Some(out)
                    &&& exists|e: Seq<(Seq<char>, usize)>| {
                        &&& sorted_keys(e)
                        &&& keyed_map(e) == occ
                        &&& out@ == count_lines(e)
                    }
                },
            },
    {
        let chars = chars_of(text);
        let lines = split_chars(chars.as_slice(), '\n');
        let ghost all = trace_lines(text@);
        let ghost st0 = self@;
        let n = lines.len();
        let mut occ = Occurrences::new();
        let mut phase = Phase::Header(0);
        let mut i: usize = 0;
        assert(strs_view(lines@) == split_on(text@, '\n'));
        while i < n
            invariant
                n == lines@.len(),
                all == trace_lines(text@),
                all.len() == n + 8,
                st0 == old(self)@,
                forall|j: int| 0 <= j < n ==> all[j] == #[trigger] lines@[j]@,
                i <= n,
                xdebug_run(st0, PhaseSpec::Header(0), Map::empty(), all, i as int) == Some((self@, phase@, occ@)),
            decreases n - i,
        {
            assert(all[i as int] == lines@[i as int]@);
            match self.step(phase, &mut occ, lines[i].as_str()) {
                Some(p) => phase = p,
                None => {
                    proof { lemma_run_stays_none(st0, all, i as int + 1, all.len() as int); }
                    return None;
                },
            }
            i += 1;
        }
        let mut k: usize = 0;
        while k < 8
            invariant
                all == trace_lines(text@),
                all.len() == n + 8,
                st0 == old(self)@,
                k <= 8,
                forall|j: int| n <= j < n + 8 ==> #[trigger] all[j] == Seq::<char>::empty(),
                xdebug_run(st0, PhaseSpec::Header(0), Map::empty(), all, n + k) == Some((self@, phase@, occ@)),
            decreases 8 - k,
        {
            proof {
                reveal_strlit("");
                assert(all[n + k] == ""@);
            }
            match self.step(phase, &mut occ, "") {
                Some(p) => phase = p,
                None => {
                    proof { lemma_run_stays_none(st0, all, n + k + 1, all.len() as int); }
                    return None;
                },
            }
            k += 1;
        }
        Some(occ.write_and_clear())
    }

    /// Whether the input looks like an Xdebug trace: `Some(false)` unless its first line reads
    /// `version: 1` (trailing whitespace aside); then `Some(true)` where the second line starts
    /// with `creator: xdebug`, `Some(false)` where it does not, and `None` (not sure) where
    /// there is no second line yet. An empty input gives `None`.
    pub fn is_applicable(&mut self, input: &str) -> (r: Option<bool>)
        ensures
            final(self)@ == old(self)@,
            r == xdebug_applicable(crate::collapse::perf::read_lines(input@)),
    {
        let lines = crate::collapse::perf::input_lines(input);
        let ghost lv = crate::collapse::perf::read_lines(input@);
        if lines.len() == 0 {
            return None;
        }
        assert(lv[0] == lines@[0]@);
        let c = chars_of(lines[0].as_str());
        assert(c@.subrange(0, c@.len() as int) =~= c@);
        let hi = c.len() - crate::text::trailing_ws_in(c.as_slice(), 0, c.len());
        let first = string_from_chars(&c[0..hi]);
        assert(first@ =~= crate::text::trim_end(lv[0]));
        if !str_eq(first.as_str(), "version: 1") {
            return Some(false);
        }
        if lines.len() == 1 {
            return None;
        }
        assert(lv[1] == lines@[1]@);
        let second = chars_of(lines[1].as_str());
        let creator = chars_of("creator: xdebug");
        Some(crate::text::starts_with_chars(second.as_slice(), creator.as_slice()))
    }
}

/// Whether the lines are those of an Xdebug trace: the first line reads `version: 1` and the
/// second starts with `creator: xdebug`; `None` where the input ends before that is known.
pub open spec fn xdebug_applicable(lines: Seq<Seq<char>>) -> Option<bool> {
    if lines.len() == 0 {
        None
    } else if crate::text::trim_end(lines[0]) != "version: 1"@ {
        Some(false)
    } else if lines.len() == 1 {
        None
    } else {
        Some(crate::text::starts_with(lines[1], "creator: xdebug"@))
    }
}

/// Once the reader has stopped on a malformed line, it stays stopped.
proof fn lemma_run_stays_none(st: XState, lines: Seq<Seq<char>>, i: int, k: int)
    requires
        0 <= i <= k,
        xdebug_run(st, PhaseSpec::Header(0), Map::empty(), lines, i) is None,
    ensures
        xdebug_run(st, PhaseSpec::Header(0), Map::empty(), lines, k) is None,
    decreases k - i,
{
    if i < k {
        lemma_run_stays_none(st, lines, i, k - 1);
    }
}

} // verus!
