//! Reading DTrace `ustack()` output stack by stack: after a header ended by an empty line,
//! each stack is one frame per line, innermost first, followed by a line with its count.
use vstd::prelude::*;
use std::collections::VecDeque;
use crate::collapse::dtrace::{applicable, applicable_from, frame_names, header_end, is_blank, offset_removed, push_frame_names, remove_offset};
use crate::collapse::perf::{input_lines, read_lines};
use crate::parse::{trace_view, Trace};
use crate::text::{chars_of, parse_u64_str, parse_u64_text, string_from_chars, strs_view, trim, trim_bounds};

verus! {

/// Settings that change how frames are named from the incoming stack traces.
///
/// All options default to off.
#[derive(Clone, Copy, PartialEq, Eq, Structural, Debug)]
pub struct Options {
    /// Include function offsets (except on leaves).
    pub includeoffset: bool,
}

impl Default for Options {
    fn default() -> (o: Options)
        ensures
            !o.includeoffset,
    {
        Options { includeoffset: false }
    }
}

/// Where a parser stands: the lines of the input, the next line to read, the frames read
/// since the last count (outermost first) and whether offsets are kept.
pub ghost struct ParserState {
    pub lines: Seq<Seq<char>>,
    pub pos: int,
    pub stack: Seq<Seq<char>>,
    pub includeoffset: bool,
}

/// Reads the traces of DTrace `ustack()` output one at a time.
pub struct Parser {
    lines: Vec<String>,
    pos: usize,
    stack: VecDeque<String>,
    opt: Options,
}

impl View for Parser {
    type V = ParserState;

    closed spec fn view(&self) -> ParserState {
        ParserState {
            lines: strs_view(self.lines@),
            pos: self.pos as int,
            stack: strs_view(self.stack@),
            includeoffset: self.opt.includeoffset,
        }
    }
}

/// The first line after the header: the line after the first empty line, or the end where
/// there is none.
pub open spec fn data_start(lines: Seq<Seq<char>>) -> int {
    match header_end(lines, 0) {
        Some(h) => h + 1,
        None => lines.len() as int,
    }
}

/// The frames of a finished stack: with offsets kept, the leaf loses its offset.
pub open spec fn finished_stack(stack: Seq<Seq<char>>, includeoffset: bool) -> Seq<Seq<char>> {
    if includeoffset && stack.len() > 0 {
        stack.update(stack.len() - 1, offset_removed(stack[stack.len() - 1]).3)
    } else {
        stack
    }
}

/// The parser after reading up to the next count line, and the trace that line ends; at the
/// end of the input, no trace, with the frames read so far kept.
pub open spec fn next_trace(st: ParserState) -> (ParserState, Option<(Seq<Seq<char>>, u64)>)
    decreases st.lines.len() - st.pos,
{
    if st.pos < 0 || st.pos >= st.lines.len() {
        (st, None)
    } else {
        let t = trim(st.lines[st.pos]);
        if t.len() == 0 {
            next_trace(ParserState { pos: st.pos + 1, ..st })
        } else {
            match parse_u64_text(t) {
                Some(count) => (
                    ParserState { pos: st.pos + 1, stack: Seq::empty(), ..st },
                    Some((finished_stack(st.stack, st.includeoffset), count)),
                ),
                None => next_trace(ParserState {
                    pos: st.pos + 1,
                    stack: frame_names(st.includeoffset, t) + st.stack,
                    ..st
                }),
            }
        }
    }
}

impl Parser {
    /// A parser over the given DTrace output, placed after its header (the lines up to the
    /// first empty line). Input without an empty line gives no traces.
    pub fn new(opt: Options, text: &str) -> (p: Parser)
        ensures
            p@ == (ParserState {
                lines: read_lines(text@),
                pos: data_start(read_lines(text@)),
                stack: Seq::empty(),
                includeoffset: opt.includeoffset,
            }),
    {
        let lines = input_lines(text);
        let ghost lv = read_lines(text@);
        let n = lines.len();
        let mut h: usize = 0;
        while h < n && !is_blank(lines[h].as_str())
            invariant
                strs_view(lines@) == lv,
                h <= n == lines@.len(),
                header_end(lv, 0) == header_end(lv, h as int),
            decreases n - h,
        {
            assert(lv[h as int] == lines@[h as int]@);
            h += 1;
        }
        proof {
            if h < n {
                assert(lv[h as int] == lines@[h as int]@);
            }
        }
        let pos = if h < n { h + 1 } else { n };
        let p = Parser { lines, pos, stack: VecDeque::new(), opt };
        assert(p@.stack =~= Seq::<Seq<char>>::empty());
        p
    }

    /// Takes the frames read so far as a finished stack.
    fn finish_stack(&mut self) -> (stack: Vec<String>)
        ensures
            strs_view(stack@) == finished_stack(old(self)@.stack, old(self)@.includeoffset),
            final(self)@ == (ParserState { stack: Seq::empty(), ..old(self)@ }),
    {
        let mut stack: Vec<String> = Vec::new();
        let n = self.stack.len();
        let ghost sv = self@.stack;
        let ghost fs = finished_stack(sv, self@.includeoffset);
        let mut i: usize = 0;
        while i < n
            invariant
                sv == self@.stack,
                self@ == old(self)@,
                fs == finished_stack(sv, self@.includeoffset),
                n == sv.len(),
                i <= n,
                strs_view(stack@) == fs.take(i as int),
            decreases n - i,
        {
            assert(sv[i as int] == self.stack@[i as int]@);
            let ghost before = strs_view(stack@);
            let x = if self.opt.includeoffset && i + 1 == n {
                let (_, _, _, leaf) = remove_offset(self.stack[i].as_str());
                leaf
            } else {
                string_from_chars(chars_of(self.stack[i].as_str()).as_slice())
            };
            assert(fs[i as int] == x@);
            stack.push(x);
            assert(strs_view(stack@) =~= before.push(x@));
            assert(strs_view(stack@) =~= fs.take(i + 1));
            i += 1;
        }
        assert(fs.take(n as int) =~= fs);
        self.stack = VecDeque::new();
        assert(self@.stack =~= Seq::<Seq<char>>::empty());
        stack
    }

    /// Reads a stack line, like `genunix`syscall_mstate+0x5d`, putting the frames it names in
    /// front of the stack.
    fn on_stack_line(&mut self, line: &str)
        ensures
            final(self)@ == (ParserState { stack: frame_names(old(self)@.includeoffset, line@) + old(self)@.stack, ..old(self)@ }),
    {
        push_frame_names(&mut self.stack, self.opt.includeoffset, line);
    }

    /// Whether the input looks like DTrace output: after an empty line, stack lines (with a
    /// backquote, or a hexadecimal address) up to a count give `Some(true)`; a count with no
    /// stack line before it, or any other line, gives `Some(false)`; an input that ends before
    /// either gives `None` (not sure).
    pub fn is_applicable(&mut self, input: &str) -> (r: Option<bool>)
        ensures
            final(self)@ == old(self)@,
            r == applicable_from(read_lines(input@), 0, false, false),
    {
        applicable(input)
    }

    /// Reads up to the next count line and gives the trace it ends; `None` at the end of the
    /// input.
    pub fn next(&mut self) -> (r: Option<Trace>)
        ensures
            (final(self)@, trace_view(r)) == next_trace(old(self)@),
    {
        while self.pos < self.lines.len()
            invariant
                next_trace(self@) == next_trace(old(self)@),
            decreases self.lines@.len() - self.pos,
        {
            let ghost st = self@;
            assert(st.lines[self.pos as int] == self.lines@[self.pos as int]@);
            let c = chars_of(self.lines[self.pos].as_str());
            let (lo, hi) = trim_bounds(c.as_slice(), 0, c.len());
            assert(c@.subrange(0, c@.len() as int) =~= st.lines[st.pos]);
            let t = string_from_chars(&c[lo..hi]);
            self.pos = self.pos + 1;
            if lo < hi {
                match parse_u64_str(t.as_str()) {
                    Some(count) => {
                        let stack = self.finish_stack();
                        return Some(Trace { stack, count });
                    },
                    None => {
                        self.on_stack_line(t.as_str());
                    },
                }
            }
        }
        None
    }
}

impl Default for Parser {
    fn default() -> (p: Parser)
        ensures
            p@.lines == Seq::<Seq<char>>::empty(),
            p@.pos == 0,
            p@.stack == Seq::<Seq<char>>::empty(),
            !p@.includeoffset,
    {
        let p = Parser { lines: Vec::new(), pos: 0, stack: VecDeque::new(), opt: Options::default() };
        assert(p@.lines =~= Seq::<Seq<char>>::empty());
        assert(p@.stack =~= Seq::<Seq<char>>::empty());
        p
    }
}

} // verus!
