//! Collapsing the `.prof` files that GHC writes. After a header line whose first words are
//! `COST CENTRE MODULE SRC no. entries %time %alloc %time %alloc` and one more line, each line
//! is a cost centre indented by one space per level, with its module and costs in columns
//! found from the header.
use vstd::prelude::*;
use crate::collapse::common::{added_count, count_lines, Occurrences};
use crate::collapse::perf::{input_lines, read_lines};
use crate::keyed::{keyed_map, sorted_keys};
use crate::text::{
    bytes_find_from, bytes_occur_at, bytes_rfind_before, chars_of, find_bytes, is_whitespace, is_whitespace_char,
    joined, leading_ws, leading_ws_in, lemma_bytes_rfind_bounds, lemma_word_end, push_joined, push_range,
    word_end, word_end_in, words_from,
    rfind_bytes, string_from_chars, strs_view, trailing_ws_in, trim_end,
};

verus! {

/// The column that the cost of a cost centre is read from.
#[derive(Clone, Copy, PartialEq, Eq, Structural, Debug)]
pub enum Source {
    /// The inherited `%time` column.
    PercentTime,
    /// The `ticks` column.
    Ticks,
    /// The `bytes` column.
    Bytes,
}

impl Default for Source {
    fn default() -> (s: Source)
        ensures
            s == Source::PercentTime,
    {
        Source::PercentTime
    }
}

/// Settings of the collapser.
#[derive(Clone, Copy, PartialEq, Eq, Structural, Debug)]
pub struct Options {
    /// Column to read costs from, `Source::PercentTime` by default.
    pub source: Source,
}

impl Default for Options {
    fn default() -> (o: Options)
        ensures
            o.source == Source::PercentTime,
    {
        Options { source: Source::PercentTime }
    }
}

/// Where the columns of a line start: the cost centre and the module in characters, and the
/// cost at the byte offset that the header gives.
#[derive(Clone, Copy, PartialEq, Eq, Structural, Debug)]
pub struct Cols {
    pub cost_centre: usize,
    pub module: usize,
    pub source: usize,
}

/// Why a collapse stops.
#[derive(Clone, Copy, PartialEq, Eq, Structural, Debug)]
pub enum GhcprofError {
    /// The header lacks the column that costs are read from.
    MissingColumn,
    /// A line is indented more than one level deeper than the line before it.
    SkippedIndentation,
    /// A cost field does not read as a number.
    InvalidCost,
    /// The sum of the costs of a stack does not fit in a `usize`.
    CountOverflow,
}

/// The first words of the header line.
pub open spec fn start_words() -> Seq<Seq<char>> {
    seq![
        "COST"@,
        "CENTRE"@,
        "MODULE"@,
        "SRC"@,
        "no."@,
        "entries"@,
        "%time"@,
        "%alloc"@,
        "%time"@,
        "%alloc"@,
    ]
}

/// Whether a line is the header: its first ten words are those of `start_words`.
pub open spec fn is_start_line(l: Seq<char>) -> bool {
    let w = words_from(l, 0);
    w.len() >= 10 && w.take(10) == start_words()
}

/// The first header line from line `i` on.
pub open spec fn header_line(lines: Seq<Seq<char>>, i: int) -> Option<int>
    decreases lines.len() - i,
{
    if i < 0 || i >= lines.len() {
        None
    } else if is_start_line(lines[i]) {
        Some(i)
    } else {
        header_line(lines, i + 1)
    }
}

/// The columns a header gives: the module column at the byte offset of `MODULE`, and the
/// cost column at the byte offset of `%time`, after the last `%alloc`, or after the last
/// `ticks`. `None` where the header lacks the cost column.
pub open spec fn header_cols(source: Source, l: Seq<char>) -> Option<Cols> {
    let b = vstd::utf8::encode_utf8(l);
    let module = match bytes_find_from(b, vstd::utf8::encode_utf8("MODULE"@), 0) {
        Some(k) => k,
        None => 0,
    };
    let src: Option<int> = match source {
        Source::PercentTime => bytes_find_from(b, vstd::utf8::encode_utf8("%time"@), 0),
        Source::Ticks => match bytes_rfind_before(b, vstd::utf8::encode_utf8("%alloc"@), b.len() + 1int) {
            Some(k) => Some(k + vstd::utf8::encode_utf8("%alloc"@).len()),
            None => None,
        },
        Source::Bytes => match bytes_rfind_before(b, vstd::utf8::encode_utf8("ticks"@), b.len() + 1int) {
            Some(k) => Some(k + vstd::utf8::encode_utf8("ticks"@).len()),
            None => None,
        },
    };
    match src {
        Some(c) => Some(Cols { cost_centre: 0, module: module as usize, source: c as usize }),
        None => None,
    }
}

/// Where the word of a column starts: from character `col` on (or the end of the line),
/// past whitespace.
pub open spec fn column_start(l: Seq<char>, col: int) -> int {
    let start = if col <= l.len() { col } else { l.len() as int };
    start + leading_ws(l.subrange(start, l.len() as int))
}

/// The word that a column holds: from character `col` on, past whitespace, up to the next
/// whitespace.
pub open spec fn column_word(l: Seq<char>, col: int) -> Seq<char> {
    let a = column_start(l, col);
    l.subrange(a, word_end(l, a))
}

/// The position of the first character other than a space, from `i` on.
pub open spec fn first_non_space(s: Seq<char>, i: int) -> Option<int>
    decreases s.len() - i,
{
    if i < 0 || i >= s.len() {
        None
    } else if s[i] != ' ' {
        Some(i)
    } else {
        first_non_space(s, i + 1)
    }
}

/// The state of a collapse: the frames of the current cost centre, outermost first, its
/// cost, and the cost summed for each stack.
pub ghost struct GhcState {
    pub stack: Seq<Seq<char>>,
    pub current_cost: usize,
    pub occ: Map<Seq<char>, usize>,
}

/// What one line does, given the cost its cost field reads as (`None` where it does not
/// read as a number): the state after it and the error that stops the collapse, if any. A
/// line indented by `d` spaces cuts the stack to `d` frames and pushes `module.cost_centre`.
pub open spec fn ghc_on_line(st: GhcState, l: Seq<char>, cols: Cols, cost: Option<usize>) -> (GhcState, Option<GhcprofError>) {
    match first_non_space(l, 0) {
        None => (st, None),
        Some(depth) => if depth > st.stack.len() {
            (st, Some(GhcprofError::SkippedIndentation))
        } else {
            let s1 = GhcState { stack: st.stack.take(depth), ..st };
            match cost {
                None => (s1, Some(GhcprofError::InvalidCost)),
                Some(c) => {
                    let frame = column_word(l, cols.module as int) + seq!['.'] + column_word(l, cols.cost_centre as int);
                    let stack = s1.stack.push(frame);
                    let key = joined(stack);
                    let a = added_count(s1.occ, key, c);
                    if a > usize::MAX {
                        (GhcState { stack, current_cost: c, ..s1 }, Some(GhcprofError::CountOverflow))
                    } else {
                        (GhcState { stack, current_cost: c, occ: s1.occ.insert(key, a as usize) }, None)
                    }
                },
            }
        },
    }
}

/// The cost given for the `k`-th data line; `None` past the end of `costs`.
pub open spec fn cost_at(costs: Seq<Option<usize>>, k: int) -> Option<usize> {
    if 0 <= k < costs.len() { costs[k] } else { None }
}

/// The collapse of the data lines from line `i` on, the first of them being line `first`; it
/// stops at an empty line, the end, or an error.
pub open spec fn ghc_from(
    st: GhcState,
    lines: Seq<Seq<char>>,
    cols: Cols,
    costs: Seq<Option<usize>>,
    first: int,
    i: int,
) -> (GhcState, Option<GhcprofError>)
    decreases lines.len() - i,
{
    if i < first || i >= lines.len() {
        (st, None)
    } else {
        let t = trim_end(lines[i]);
        if t.len() == 0 {
            (st, None)
        } else {
            let (s2, e) = ghc_on_line(st, t, cols, cost_at(costs, i - first));
            if e is Some {
                (s2, e)
            } else {
                ghc_from(s2, lines, cols, costs, first, i + 1)
            }
        }
    }
}

/// The end of the data lines that start at line `i`: the first empty line, or the end.
pub open spec fn data_end(lines: Seq<Seq<char>>, i: int) -> int
    decreases lines.len() - i,
{
    if i < 0 || i >= lines.len() || trim_end(lines[i]).len() == 0 {
        i
    } else {
        data_end(lines, i + 1)
    }
}

/// The part of a collapser that outlives a collapse.
pub ghost struct GhcView {
    pub stack: Seq<Seq<char>>,
    pub current_cost: usize,
    pub source: Source,
}

/// A stack collapser for the `.prof` files of GHC.
pub struct Folder {
    current_cost: usize,
    stack: Vec<String>,
    opt: Options,
}

impl View for Folder {
    type V = GhcView;

    closed spec fn view(&self) -> GhcView {
        GhcView { stack: strs_view(self.stack@), current_cost: self.current_cost, source: self.opt.source }
    }
}

/// Whether a line is the header of a `.prof` file.
pub fn is_start_line_str(line: &str) -> (b: bool)
    ensures
        b == is_start_line(line@),
{
    let s = chars_of(line);
    let n = s.len();
    let start: [&str; 10] = ["COST", "CENTRE", "MODULE", "SRC", "no.", "entries", "%time", "%alloc", "%time", "%alloc"];
    assert(start@.map_values(|w: &str| w@) =~= start_words());
    let mut words: Vec<String> = Vec::new();
    let mut i: usize = 0;
    while i < n && words.len() < 10
        invariant
            i <= n == s@.len(),
            s@ == line@,
            words@.len() <= 10,
            words_from(s@, 0) == strs_view(words@) + words_from(s@, i as int),
        decreases n - i, 10 - words@.len(),
    {
        if is_whitespace_char(s[i]) {
            i += 1;
        } else {
            let e = word_end_in(s.as_slice(), i + 1);
            proof { lemma_word_end(s@, i + 1); }
            let mut w: Vec<char> = Vec::new();
            push_range(&mut w, s.as_slice(), i, e);
            let ghost before = strs_view(words@);
            words.push(string_from_chars(w.as_slice()));
            assert(strs_view(words@) =~= before.push(s@.subrange(i as int, e as int)));
            assert(words_from(s@, i as int) == seq![s@.subrange(i as int, e as int)] + words_from(s@, e as int));
            assert(before + (seq![s@.subrange(i as int, e as int)] + words_from(s@, e as int))
                =~= strs_view(words@) + words_from(s@, e as int));
            i = e;
        }
    }
    if words.len() < 10 {
        assert(words_from(s@, i as int) =~= Seq::<Seq<char>>::empty());
        assert(words_from(s@, 0) =~= strs_view(words@));
        return false;
    }
    assert(words_from(s@, 0).take(10) =~= strs_view(words@));
    let mut k: usize = 0;
    while k < 10
        invariant
            k <= 10,
            words@.len() == 10,
            start@.map_values(|w: &str| w@) == start_words(),
            s@ == line@,
            words_from(s@, 0).take(10) == strs_view(words@),
            forall|j: int| 0 <= j < k ==> strs_view(words@)[j] == start_words()[j],
        decreases 10 - k,
    {
        let w = chars_of(words[k].as_str());
        let expected = chars_of(start[k]);
        assert(expected@ == start_words()[k as int]);
        assert(w@ == strs_view(words@)[k as int]);
        if !crate::text::slice_eq(w.as_slice(), expected.as_slice()) {
            assert(words_from(s@, 0).take(10)[k as int] != start_words()[k as int]);
            return false;
        }
        k += 1;
    }
    assert(words_from(s@, 0).take(10) =~= start_words());
    true
}

/// The columns a header line gives for the cost source; `None` where it lacks that column.
pub fn header_columns(source: Source, line: &str) -> (r: Option<Cols>)
    ensures
        r == header_cols(source, line@),
{
    let b = line.as_bytes();
    let bl = b.len();
    assert(bl == b@.len());
    let module = match find_bytes(b, "MODULE".as_bytes()) {
        Some(k) => k,
        None => 0,
    };
    let src = match source {
        Source::PercentTime => find_bytes(b, "%time".as_bytes()),
        Source::Ticks => {
            let p = "%alloc".as_bytes();
            proof { lemma_bytes_rfind_bounds(b@, p@, b@.len() + 1int); }
            match rfind_bytes(b, p) {
                Some(k) => {
                    assert(bytes_occur_at(b@, p@, k as int));
                    Some(k + p.len())
                },
                None => None,
            }
        },
        Source::Bytes => {
            let p = "ticks".as_bytes();
            proof { lemma_bytes_rfind_bounds(b@, p@, b@.len() + 1int); }
            match rfind_bytes(b, p) {
                Some(k) => {
                    assert(bytes_occur_at(b@, p@, k as int));
                    Some(k + p.len())
                },
                None => None,
            }
        },
    };
    match src {
        Some(c) => Some(Cols { cost_centre: 0, module, source: c }),
        None => None,
    }
}

/// The word of a column: from character `col` on, past whitespace, up to the next
/// whitespace.
pub fn column_text(l: &[char], col: usize) -> (w: Vec<char>)
    ensures
        w@ == column_word(l@, col as int),
{
    let n = l.len();
    let start = if col <= n { col } else { n };
    let a = start + leading_ws_in(l, start, n);
    let e = word_end_in(l, a);
    proof { lemma_word_end(l@, a as int); }
    let mut w: Vec<char> = Vec::new();
    push_range(&mut w, l, a, e);
    w
}

impl Folder {
    /// A collapser with the given options that has read nothing yet.
    pub fn from_options(opt: Options) -> (f: Folder)
        ensures
            f@.stack == Seq::<Seq<char>>::empty(),
            f@.current_cost == 0,
            f@.source == opt.source,
    {
        let f = Folder { current_cost: 0, stack: Vec::new(), opt };
        assert(f@.stack =~= Seq::<Seq<char>>::empty());
        f
    }

    /// Reads one data line (without trailing whitespace), given what its cost field reads as,
    /// and adds its stack to `occurrences`. Returns the error that stops the collapse, if any.
    pub fn on_line(&mut self, line: &str, occurrences: &mut Occurrences, cols: Cols, cost: Option<usize>) -> (e: Option<GhcprofError>)
        ensures
            ({
                let (st, err) = ghc_on_line(
                    GhcState { stack: old(self)@.stack, current_cost: old(self)@.current_cost, occ: old(occurrences)@ },
                    line@,
                    cols,
                    cost,
                );
                &&& e == err
                &&& final(self)@ == (GhcView { stack: st.stack, current_cost: st.current_cost, source: old(self)@.source })
                &&& final(occurrences)@ == st.occ
            }),
    {
        let s = chars_of(line);
        let n = s.len();
        let mut depth: usize = 0;
        while depth < n && s[depth] == ' '
            invariant
                depth <= n == s@.len(),
                s@ == line@,
                first_non_space(s@, 0) == first_non_space(s@, depth as int),
            decreases n - depth,
        {
            depth += 1;
        }
        if depth == n {
            return None;
        }
        assert(first_non_space(line@, 0) == Some(depth as int));
        if depth > self.stack.len() {
            return Some(GhcprofError::SkippedIndentation);
        }
        let ghost before = self.stack@;
        self.stack.truncate(depth);
        assert(strs_view(self.stack@) =~= strs_view(before).take(depth as int));
        let c = match cost {
            None => { return Some(GhcprofError::InvalidCost); },
            Some(c) => c,
        };
        let func = column_text(s.as_slice(), cols.cost_centre);
        let mut frame = column_text(s.as_slice(), cols.module);
        frame.push('.');
        let mut k: usize = 0;
        let ghost fbase = frame@;
        while k < func.len()
            invariant
                k <= func@.len(),
                frame@ == fbase + func@.take(k as int),
            decreases func.len() - k,
        {
            frame.push(func[k]);
            assert(func@.take(k + 1) =~= func@.take(k as int).push(func@[k as int]));
            k += 1;
        }
        assert(func@.take(func@.len() as int) =~= func@);
        let ghost stack0 = self.stack@;
        self.stack.push(string_from_chars(frame.as_slice()));
        assert(strs_view(self.stack@) =~= strs_view(stack0).push(frame@));
        self.current_cost = c;
        let mut key_chars: Vec<char> = Vec::new();
        push_joined(&mut key_chars, self.stack.as_slice());
        let key = string_from_chars(key_chars.as_slice());
        let ghost s1 = GhcState { stack: strs_view(old(self).stack@).take(depth as int), current_cost: old(self)@.current_cost, occ: old(occurrences)@ };
        assert(frame@ == column_word(line@, cols.module as int) + seq!['.'] + column_word(line@, cols.cost_centre as int));
        assert(self@.stack == s1.stack.push(frame@));
        assert(key@ == joined(self@.stack));
        let cur = match occurrences.get(key.as_str()) {
            Some(v) => v,
            None => 0,
        };
        if cur > usize::MAX - c {
            return Some(GhcprofError::CountOverflow);
        }
        occurrences.insert_or_add(key, c);
        None
    }

    /// The column that costs are read from.
    pub fn source(&self) -> (s: Source)
        ensures
            s == self@.source,
    {
        self.opt.source
    }

    /// The cost fields of the data lines, for the caller to read as numbers and hand to
    /// `collapse_with_costs`; `None` without a header, or where it lacks the cost column.
    pub fn cost_fields(&self, text: &str) -> (r: Option<Vec<String>>)
        ensures
            match header_line(read_lines(text@), 0) {
                None => r is None,
                Some(h) => match header_cols(self@.source, read_lines(text@)[h]) {
                    None => r is None,
                    Some(cols) => r matches Some(v) && {
                        let first = h + 2;
                        let end = data_end(read_lines(text@), first);
                        &&& v@.len() == if end > first { end - first } else { 0 }
                        &&& forall|k: int| 0 <= k < v@.len() ==> #[trigger] v@[k]@ == column_word(
                            trim_end(read_lines(text@)[first + k]),
                            cols.source as int,
                        )
                    },
                },
            },
    {
        let lines = input_lines(text);
        let ghost lv = read_lines(text@);
        let n = lines.len();
        let mut h: usize = 0;
        while h < n && !is_start_line_str(lines[h].as_str())
            invariant
                strs_view(lines@) == lv,
                lv == read_lines(text@),
                h <= n == lines@.len(),
                header_line(lv, 0) == header_line(lv, h as int),
            decreases n - h,
        {
            assert(lv[h as int] == lines@[h as int]@);
            h += 1;
        }
        if h == n {
            return None;
        }
        assert(lv[h as int] == lines@[h as int]@);
        let cols = match header_columns(self.opt.source, lines[h].as_str()) {
            None => { return None; },
            Some(c) => c,
        };
        let mut fields: Vec<String> = Vec::new();
        if h + 1 >= n {
            assert(data_end(lv, h + 2) == h + 2);
            return Some(fields);
        }
        let first = h + 2;
        let mut i = first;
        while i < n
            invariant
                strs_view(lines@) == lv,
                lv == read_lines(text@),
                first <= i <= n == lines@.len(),
                first == h + 2,
                data_end(lv, first as int) == data_end(lv, i as int),
                fields@.len() == i - first,
                forall|k: int| 0 <= k < fields@.len() ==> #[trigger] fields@[k]@ == column_word(
                    trim_end(lv[first + k]),
                    cols.source as int,
                ),
            ensures
                data_end(lv, first as int) == i,
            decreases n - i,
        {
            assert(lv[i as int] == lines@[i as int]@);
            let c = chars_of(lines[i].as_str());
            let k = trailing_ws_in(c.as_slice(), 0, c.len());
            assert(c@.subrange(0, c@.len() as int) =~= c@);
            let t = &c[0..c.len() - k];
            assert(t@ =~= trim_end(lv[i as int]));
            if t.len() == 0 {
                break;
            }
            let w = column_text(t, cols.source);
            fields.push(string_from_chars(w.as_slice()));
            i += 1;
        }
        Some(fields)
    }

    /// Collapses a `.prof` file into lines `stack cost`, one per distinct stack, in increasing
    /// order of stack, the cost of a stack summed over its lines. `costs[k]` is what the cost
    /// field of the `k`-th data line (as `cost_fields` gives it) reads as. Without a header,
    /// nothing is written.
    pub fn collapse_with_costs(&mut self, text: &str, costs: &[Option<usize>]) -> (r: Result<String, GhcprofError>)
        ensures
            match header_line(read_lines(text@), 0) {
                None => final(self)@ == old(self)@ && (r matches Ok(out) && out@ == Seq::<char>::empty()),
                Some(h) => match header_cols(old(self)@.source, read_lines(text@)[h]) {
                    None => final(self)@ == old(self)@ && r == Err::<String, GhcprofError>(GhcprofError::MissingColumn),
                    Some(cols) => {
                        let (st, err) = ghc_from(
                            GhcState { stack: old(self)@.stack, current_cost: old(self)@.current_cost, occ: Map::empty() },
                            read_lines(text@),
                            cols,
                            costs@,
                            h + 2,
                            h + 2,
                        );
                        match err {
                            Some(e) => {
                                &&& r == Err::<String, GhcprofError>(e)
                                &&& final(self)@ == (GhcView { stack: st.stack, current_cost: st.current_cost, source: old(self)@.source })
                            },
                            None => {
                                &&& final(self)@ == (GhcView { stack: Seq::empty(), current_cost: 0, source: old(self)@.source })
                                &&& r matches Ok(out)
                                &&& exists|e: Seq<(Seq<char>, usize)>| {
                                    &&& sorted_keys(e)
                                    &&& keyed_map(e) == st.occ
                                    &&& out@ == count_lines(e)
                                }
                            },
                        }
                    },
                },
            },
    {
        let lines = input_lines(text);
        let ghost lv = read_lines(text@);
        let n = lines.len();
        let mut h: usize = 0;
        while h < n && !is_start_line_str(lines[h].as_str())
            invariant
                strs_view(lines@) == lv,
                lv == read_lines(text@),
                h <= n == lines@.len(),
                header_line(lv, 0) == header_line(lv, h as int),
            decreases n - h,
        {
            assert(lv[h as int] == lines@[h as int]@);
            h += 1;
        }
        if h == n {
            return Ok(String::new());
        }
        assert(lv[h as int] == lines@[h as int]@);
        let cols = match header_columns(self.opt.source, lines[h].as_str()) {
            None => { return Err(GhcprofError::MissingColumn); },
            Some(c) => c,
        };
        let ghost first: int = h + 2;
        let mut occurrences = Occurrences::new();
        let ghost s0 = GhcState { stack: self@.stack, current_cost: self@.current_cost, occ: Map::empty() };
        if h + 1 < n {
            let mut i = h + 2;
            while i < n
                invariant
                    strs_view(lines@) == lv,
                lv == read_lines(text@),
                    first <= i <= n == lines@.len(),
                    first == h + 2,
                    h < n,
                    header_line(lv, 0) == Some(h as int),
                    header_cols(old(self)@.source, lv[h as int]) == Some(cols),
                    s0 == (GhcState { stack: old(self)@.stack, current_cost: old(self)@.current_cost, occ: Map::empty() }),
                    ghc_from(s0, lv, cols, costs@, first, first) == ghc_from(
                        GhcState { stack: self@.stack, current_cost: self@.current_cost, occ: occurrences@ },
                        lv,
                        cols,
                        costs@,
                        first,
                        i as int,
                    ),
                    self@.source == old(self)@.source,
                ensures
                    ghc_from(s0, lv, cols, costs@, first, first) == (
                        GhcState { stack: self@.stack, current_cost: self@.current_cost, occ: occurrences@ },
                        None::<GhcprofError>,
                    ),
                    self@.source == old(self)@.source,
                decreases n - i,
            {
                assert(lv[i as int] == lines@[i as int]@);
                let c = chars_of(lines[i].as_str());
                let k = trailing_ws_in(c.as_slice(), 0, c.len());
                assert(c@.subrange(0, c@.len() as int) =~= c@);
                let t = string_from_chars(&c[0..c.len() - k]);
                assert(t@ =~= trim_end(lv[i as int]));
                if t.as_str().is_empty() {
                    break;
                }
                let d = i - (h + 2);
                let cost = if d < costs.len() { costs[d] } else { None };
                assert(cost == cost_at(costs@, i - first));
                let ghost cur = GhcState { stack: self@.stack, current_cost: self@.current_cost, occ: occurrences@ };
                match self.on_line(t.as_str(), &mut occurrences, cols, cost) {
                    Some(e) => {
                        assert(ghc_from(cur, lv, cols, costs@, first, i as int) == ghc_on_line(cur, t@, cols, cost));
                        assert(ghc_from(s0, lv, cols, costs@, first, first).1 == Some(e));
                        assert(self@.stack == ghc_from(s0, lv, cols, costs@, first, first).0.stack);
                        return Err(e);
                    },
                    None => {},
                }
                i += 1;
            }
        }
        let out = occurrences.write_and_clear();
        self.current_cost = 0;
        self.stack = Vec::new();
        assert(self@.stack =~= Seq::<Seq<char>>::empty());
        Ok(out)
    }

    /// Whether the input holds the header of a `.prof` file: `Some(true)` if so, `None` (not
    /// sure) otherwise.
    pub fn is_applicable(&mut self, input: &str) -> (r: Option<bool>)
        ensures
            final(self)@ == old(self)@,
            r == (if header_line(read_lines(input@), 0) is Some { Some(true) } else { None }),
    {
        let lines = input_lines(input);
        let ghost lv = read_lines(input@);
        let n = lines.len();
        let mut i: usize = 0;
        while i < n
            invariant
                strs_view(lines@) == lv,
                lv == read_lines(input@),
                i <= n == lines@.len(),
                header_line(lv, 0) == header_line(lv, i as int),
            decreases n - i,
        {
            assert(lv[i as int] == lines@[i as int]@);
            if is_start_line_str(lines[i].as_str()) {
                assert(header_line(lv, i as int) == Some(i as int));
                return Some(true);
            }
            i += 1;
        }
        None
    }
}

impl Default for Folder {
    fn default() -> (f: Folder)
        ensures
            f@.stack == Seq::<Seq<char>>::empty(),
            f@.current_cost == 0,
            f@.source == Source::PercentTime,
    {
        Folder::from_options(Options::default())
    }
}

} // verus!
