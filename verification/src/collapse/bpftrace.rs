//! Collapsing the stacks that bpftrace prints: `@[`, then one frame per line with the
//! innermost first, then `]:` and the count.
use vstd::prelude::*;
use vstd::string::StringSliceAdditionalSpecFns;
use vstd::utf8::encode_utf8;
use crate::text::{chars_of, is_ascii_digit, is_whitespace, is_whitespace_char, push_char, split_chars, split_on, strs_view};

verus! {

/// Why bpftrace output could not be collapsed.
#[derive(Clone, Copy, PartialEq, Eq, Structural, Debug)]
pub enum BpftraceError {
    /// The line ends after `]:` before a number.
    ExpectedNumber,
    /// A count has more digits than the 39 that the largest 128-bit number takes.
    NumberTooLong,
    /// Text follows `@[` on its line; a stack starts on the next line.
    TextAfterStackStart,
}

pub enum State {
    NotInStack,
    /// The lines of the stack read so far, innermost frame first.
    InStack(Vec<String>),
}

pub ghost enum StateSpec {
    NotInStack,
    InStack(Seq<Seq<char>>),
}

impl View for State {
    type V = StateSpec;

    open spec fn view(&self) -> StateSpec {
        match self {
            State::NotInStack => StateSpec::NotInStack,
            State::InStack(v) => StateSpec::InStack(strs_view(v@)),
        }
    }
}

/// The collapser of bpftrace output.
pub struct Bpftrace {
    state: State,
}

impl View for Bpftrace {
    type V = StateSpec;

    closed spec fn view(&self) -> StateSpec {
        self.state@
    }
}

/// Where the whitespace from position `k` on ends; `None` where the line ends first.
pub open spec fn skip_ws(line: Seq<char>, k: int) -> Option<int>
    decreases line.len() - k,
{
    if k < 0 || k >= line.len() {
        None
    } else if is_whitespace(line[k]) {
        skip_ws(line, k + 1)
    } else {
        Some(k)
    }
}

/// Where the run of ASCII digits from position `k` on ends.
pub open spec fn digits_end(line: Seq<char>, k: int) -> int
    decreases line.len() - k,
{
    if 0 <= k < line.len() && is_ascii_digit(line[k]) {
        digits_end(line, k + 1)
    } else {
        k
    }
}

pub proof fn lemma_skip_ws(line: Seq<char>, k: int)
    ensures
        skip_ws(line, k) matches Some(j) ==> k <= j < line.len() && !is_whitespace(line[j]),
        skip_ws(line, k) matches Some(j) ==> forall|m: int| k <= m < j ==> is_whitespace(#[trigger] line[m]),
    decreases line.len() - k,
{
    if 0 <= k < line.len() && is_whitespace(line[k]) {
        lemma_skip_ws(line, k + 1);
    }
}

pub proof fn lemma_digits_end(line: Seq<char>, k: int)
    ensures
        k <= digits_end(line, k),
        0 <= k <= line.len() ==> digits_end(line, k) <= line.len(),
        forall|m: int| k <= m < digits_end(line, k) ==> is_ascii_digit(#[trigger] line[m]),
        0 <= digits_end(line, k) < line.len() ==> !is_ascii_digit(line[digits_end(line, k)]),
    decreases line.len() - k,
{
    if 0 <= k < line.len() && is_ascii_digit(line[k]) {
        lemma_digits_end(line, k + 1);
    }
}

/// The ASCII bytes of the digits of a count.
pub open spec fn digit_bytes(d: Seq<char>) -> Seq<u8> {
    d.map_values(|c: char| (c as u32) as u8)
}

/// The bytes of a stack: its frames from the outermost (the last read) in, joined by `;`.
pub open spec fn stack_bytes(v: Seq<Seq<char>>) -> Seq<u8>
    decreases v.len(),
{
    if v.len() == 0 {
        Seq::empty()
    } else if v.len() == 1 {
        encode_utf8(v[0])
    } else {
        encode_utf8(v.last()) + seq![59u8] + stack_bytes(v.drop_last())
    }
}

pub ghost enum ScanOutcome {
    /// The line was read: the state after it and the output so far.
    Done(StateSpec, Seq<u8>),
    /// The collapse stops with an error, after the given output.
    Failed(Seq<u8>, BpftraceError),
}

/// Reads the rest of a line from position `i` on, in state `st`, after output `out`.
pub open spec fn bpf_scan(st: StateSpec, line: Seq<char>, i: int, out: Seq<u8>) -> ScanOutcome
    decreases line.len() - i,
{
    if i < 0 || i >= line.len() {
        ScanOutcome::Done(st, out)
    } else {
        let c = line[i];
        match st {
            StateSpec::NotInStack => if c == '@' && i + 1 < line.len() && line[i + 1] == '[' {
                bpf_scan(StateSpec::InStack(Seq::empty()), line, i + 2, out)
            } else {
                bpf_scan(st, line, i + 1, out)
            },
            StateSpec::InStack(v) => if c == ']' && i + 1 < line.len() && line[i + 1] == ':' {
                match skip_ws(line, i + 2) {
                    None => ScanOutcome::Failed(out, BpftraceError::ExpectedNumber),
                    Some(k) => {
                        proof {
                            lemma_skip_ws(line, i + 2);
                            lemma_digits_end(line, k);
                        }
                        let e = digits_end(line, k);
                        if e - k > 39 {
                            ScanOutcome::Failed(out, BpftraceError::NumberTooLong)
                        } else if v.len() > 0 {
                            bpf_scan(
                                StateSpec::NotInStack,
                                line,
                                e,
                                out + stack_bytes(v) + seq![32u8] + digit_bytes(line.subrange(k, e)) + seq![10u8],
                            )
                        } else {
                            bpf_scan(StateSpec::InStack(Seq::empty()), line, e, out)
                        }
                    },
                }
            } else {
                let v1 = if i == 0 { v.push(Seq::empty()) } else { v };
                if v1.len() == 0 {
                    ScanOutcome::Failed(out, BpftraceError::TextAfterStackStart)
                } else {
                    bpf_scan(StateSpec::InStack(v1.update(v1.len() - 1, v1.last().push(c))), line, i + 1, out)
                }
            },
        }
    }
}

/// The lines that `BufRead::lines` gives: split at `\n`, without a last empty piece, and
/// with a `\r` before the `\n` removed.
pub open spec fn reader_lines(text: Seq<char>) -> Seq<Seq<char>> {
    let p = split_on(text, '\n');
    let q = if p.last().len() == 0 { p.drop_last() } else { p };
    Seq::new(
        q.len(),
        |i: int|
            if i < p.len() - 1 && q[i].len() > 0 && q[i].last() == '\r' {
                q[i].drop_last()
            } else {
                q[i]
            },
    )
}

/// Reads the first `k` lines.
pub open spec fn bpf_run(st: StateSpec, lines: Seq<Seq<char>>, k: int, out: Seq<u8>) -> ScanOutcome
    decreases k,
{
    if k <= 0 {
        ScanOutcome::Done(st, out)
    } else {
        match bpf_run(st, lines, k - 1, out) {
            ScanOutcome::Done(s, o) => bpf_scan(s, lines[k - 1], 0, o),
            f => f,
        }
    }
}

/// Appends the UTF-8 bytes of `s` to `out`.
fn push_bytes(out: &mut Vec<u8>, s: &str)
    ensures
        final(out)@ == old(out)@ + encode_utf8(s@),
{
    let b = s.as_bytes();
    let ghost start = out@;
    let mut i: usize = 0;
    while i < b.len()
        invariant
            i <= b@.len(),
            b@ == encode_utf8(s@),
            out@ == start + b@.take(i as int),
        decreases b.len() - i,
    {
        out.push(b[i]);
        i += 1;
        assert(b@.take(i as int) =~= b@.take(i - 1).push(b@[i - 1]));
    }
    assert(b@.take(b@.len() as int) =~= b@);
}

/// Appends the bytes of a stack: its frames from the last read to the first, joined by `;`.
fn push_stack(out: &mut Vec<u8>, v: &Vec<String>)
    requires
        v@.len() > 0,
    ensures
        final(out)@ == old(out)@ + stack_bytes(strs_view(v@)),
{
    let ghost sv = strs_view(v@);
    let ghost start = out@;
    let n = v.len();
    push_bytes(out, v[n - 1].as_str());
    assert(sv.take(n as int).last() == v@[n - 1]@);
    let mut i: usize = n - 1;
    proof {
        assert(sv.subrange(n - 1, n as int) =~= seq![sv[n - 1]]);
        assert(stack_bytes(seq![sv[n - 1]]) == encode_utf8(sv[n - 1]));
    }
    while i > 0
        invariant
            i < n == v@.len(),
            sv == strs_view(v@),
            out@ == start + stack_bytes_range(sv, i as int, n as int),
        decreases i,
    {
        out.push(59u8);
        push_bytes(out, v[i - 1].as_str());
        assert(sv[i - 1] == v@[i - 1]@);
        i -= 1;
    }
    proof { lemma_stack_bytes_range(sv); }
}

/// The bytes of the frames `v[lo..hi]`, from the last to the first, joined by `;`.
pub open spec fn stack_bytes_range(v: Seq<Seq<char>>, lo: int, hi: int) -> Seq<u8>
    decreases hi - lo,
{
    if lo >= hi {
        Seq::empty()
    } else if lo == hi - 1 {
        encode_utf8(v[lo])
    } else {
        stack_bytes_range(v, lo + 1, hi) + seq![59u8] + encode_utf8(v[lo])
    }
}

proof fn lemma_stack_bytes_range(v: Seq<Seq<char>>)
    requires
        v.len() > 0,
    ensures
        stack_bytes_range(v, 0, v.len() as int) == stack_bytes(v),
    decreases v.len(),
{
    if v.len() > 1 {
        let w = v.drop_last();
        lemma_stack_bytes_range(w);
        lemma_range_drop_last(v, 0);
    }
}

/// Dropping the last frame leaves the bytes of the others after the last frame's.
proof fn lemma_range_drop_last(v: Seq<Seq<char>>, lo: int)
    requires
        0 <= lo < v.len() - 1,
    ensures
        stack_bytes_range(v, lo, v.len() as int) == encode_utf8(v.last()) + seq![59u8] + stack_bytes_range(
            v.drop_last(),
            lo,
            v.len() - 1,
        ),
    decreases v.len() - lo,
{
    let n = v.len() as int;
    if lo == n - 2 {
        assert(stack_bytes_range(v, lo + 1, n) == encode_utf8(v[n - 1]));
        assert(stack_bytes_range(v.drop_last(), lo, n - 1) == encode_utf8(v[lo]));
    } else {
        lemma_range_drop_last(v, lo + 1);
        assert(v.drop_last()[lo] == v[lo]);
    }
}

impl Bpftrace {
    /// A collapser outside any stack.
    pub fn new() -> (b: Bpftrace)
        ensures
            b@ == StateSpec::NotInStack,
    {
        Bpftrace { state: State::NotInStack }
    }

    /// Reads one line, appending the lines of the stacks it completes to `out`.
    fn scan_line(&mut self, line: &[char], out: &mut Vec<u8>) -> (r: Result<(), BpftraceError>)
        ensures
            match bpf_scan(old(self)@, line@, 0, old(out)@) {
                ScanOutcome::Done(st, o) => r is Ok && final(self)@ == st && final(out)@ == o,
                ScanOutcome::Failed(o, e) => r == Err::<(), BpftraceError>(e) && final(out)@ == o,
            },
    {
        let mut st = State::NotInStack;
        core::mem::swap(&mut st, &mut self.state);
        let ghost target = bpf_scan(old(self)@, line@, 0, old(out)@);
        let n = line.len();
        let mut i: usize = 0;
        while i < n
            invariant
                n == line@.len(),
                i <= n,
                target == bpf_scan(old(self)@, line@, 0, old(out)@),
                target == bpf_scan(st@, line@, i as int, out@),
            decreases n - i,
        {
            let ghost st0 = st@;
            let ghost out0 = out@;
            let ghost i0 = i as int;
            let c = line[i];
            let next_is_bracket = i + 1 < n && line[i + 1] == '[';
            let next_is_colon = i + 1 < n && line[i + 1] == ':';
            match st {
                State::NotInStack => {
                    if c == '@' && next_is_bracket {
                        let fresh: Vec<String> = Vec::new();
                        assert(strs_view(fresh@) =~= Seq::<Seq<char>>::empty());
                        st = State::InStack(fresh);
                        i += 2;
                        assert(bpf_scan(st0, line@, i0, out0) == bpf_scan(st@, line@, i as int, out@));
                    } else {
                        i += 1;
                        assert(bpf_scan(st0, line@, i0, out0) == bpf_scan(st@, line@, i as int, out@));
                    }
                },
                State::InStack(mut v) => {
                    if c == ']' && next_is_colon {
                        let mut k = i + 2;
                        proof { lemma_skip_ws(line@, i + 2); }
                        while k < n && is_whitespace_char(line[k])
                            invariant
                                i + 2 <= k <= n == line@.len(),
                                skip_ws(line@, i + 2) == skip_ws(line@, k as int),
                            decreases n - k,
                        {
                            k += 1;
                        }
                        if k >= n {
                            assert(skip_ws(line@, k as int) is None);
                            return Err(BpftraceError::ExpectedNumber);
                        }
                        assert(skip_ws(line@, k as int) == Some(k as int));
                        let mut e = k;
                        proof { lemma_digits_end(line@, k as int); }
                        while e < n && '0' <= line[e] && line[e] <= '9'
                            invariant
                                k <= e <= n == line@.len(),
                                digits_end(line@, k as int) == digits_end(line@, e as int),
                            decreases n - e,
                        {
                            e += 1;
                        }
                        assert(digits_end(line@, e as int) == e);
                        if e - k > 39 {
                            return Err(BpftraceError::NumberTooLong);
                        }
                        if v.len() > 0 {
                            let ghost before = out@;
                            push_stack(out, &v);
                            out.push(32u8);
                            let mut j = k;
                            while j < e
                                invariant
                                    k <= j <= e <= n == line@.len(),
                                    out@ == before + stack_bytes(strs_view(v@)) + seq![32u8] + digit_bytes(
                                        line@.subrange(k as int, j as int),
                                    ),
                                decreases e - j,
                            {
                                #[verifier::truncate]
                                let b = (line[j] as u32) as u8;
                                out.push(b);
                                j += 1;
                                assert(digit_bytes(line@.subrange(k as int, j as int)) =~= digit_bytes(
                                    line@.subrange(k as int, j - 1),
                                ).push(b));
                            }
                            out.push(10u8);
                            assert(out@ =~= before + stack_bytes(strs_view(v@)) + seq![32u8] + digit_bytes(
                                line@.subrange(k as int, e as int),
                            ) + seq![10u8]);
                            st = State::NotInStack;
                        } else {
                            assert(strs_view(v@) =~= Seq::<Seq<char>>::empty());
                            st = State::InStack(v);
                        }
                        i = e;
                        assert(bpf_scan(st0, line@, i0, out0) == bpf_scan(st@, line@, i as int, out@));
                    } else {
                        let ghost vs0 = strs_view(v@);
                        if i == 0 {
                            let fresh = String::new();
                            assert(fresh@ == Seq::<char>::empty());
                            v.push(fresh);
                            assert(strs_view(v@) =~= vs0.push(Seq::<char>::empty()));
                        }
                        if v.len() == 0 {
                            return Err(BpftraceError::TextAfterStackStart);
                        }
                        let ghost before = strs_view(v@);
                        let mut last = v.pop().unwrap();
                        push_char(&mut last, c);
                        v.push(last);
                        assert(strs_view(v@) =~= before.update(before.len() - 1, before.last().push(c)));
                        st = State::InStack(v);
                        i += 1;
                        assert(bpf_scan(st0, line@, i0, out0) == bpf_scan(st@, line@, i as int, out@));
                    }
                },
            }
        }
        self.state = st;
        Ok(())
    }
}

impl Bpftrace {
    /// Collapses bpftrace output: for every stack printed as `@[`, its frames (innermost
    /// first, one per line) and `]: count`, the line `outer;...;inner count`. Returns the bytes
    /// written, and the error that stopped the collapse, if any.
    pub fn collapse_text(&mut self, text: &str) -> (r: (Vec<u8>, Result<(), BpftraceError>))
        ensures
            match bpf_run(StateSpec::NotInStack, reader_lines(text@), reader_lines(text@).len() as int, Seq::empty()) {
                ScanOutcome::Done(st, o) => r.0@ == o && r.1 is Ok && final(self)@ == st,
                ScanOutcome::Failed(o, e) => r.0@ == o && r.1 == Err::<(), BpftraceError>(e),
            },
    {
        self.state = State::NotInStack;
        let chars = chars_of(text);
        let pieces = split_chars(chars.as_slice(), '\n');
        let ghost p = split_on(text@, '\n');
        let ghost lines = reader_lines(text@);
        proof { crate::text::lemma_split_on_nonempty(text@, '\n'); }
        let np = pieces.len();
        let nl = if pieces[np - 1].as_str().is_empty() { np - 1 } else { np };
        assert(lines.len() == nl);
        let mut out: Vec<u8> = Vec::new();
        let mut i: usize = 0;
        while i < nl
            invariant
                np == pieces@.len() == p.len(),
                p == split_on(text@, '\n'),
                lines == reader_lines(text@),
                strs_view(pieces@) == p,
                nl == lines.len(),
                nl <= np,
                i <= nl,
                bpf_run(StateSpec::NotInStack, lines, i as int, Seq::empty()) == ScanOutcome::Done(self@, out@),
            decreases nl - i,
        {
            let mut lc = chars_of(pieces[i].as_str());
            assert(lc@ == p[i as int]);
            if i < np - 1 && lc.len() > 0 && lc[lc.len() - 1] == '\r' {
                lc.pop();
            }
            assert(lc@ == lines[i as int]);
            match self.scan_line(lc.as_slice(), &mut out) {
                Ok(()) => {},
                Err(e) => {
                    proof { lemma_run_failed_stays(lines, i as int + 1, nl as int); }
                    return (out, Err(e));
                },
            }
            i += 1;
        }
        (out, Ok(()))
    }
}

/// Once the collapse has failed, reading more lines keeps the failure.
proof fn lemma_run_failed_stays(lines: Seq<Seq<char>>, i: int, k: int)
    requires
        0 <= i <= k,
        bpf_run(StateSpec::NotInStack, lines, i, Seq::empty()) is Failed,
    ensures
        bpf_run(StateSpec::NotInStack, lines, k, Seq::empty()) == bpf_run(StateSpec::NotInStack, lines, i, Seq::empty()),
    decreases k - i,
{
    if i < k {
        lemma_run_failed_stays(lines, i, k - 1);
    }
}

impl Default for Bpftrace {
    fn default() -> (b: Bpftrace)
        ensures
            b@ == StateSpec::NotInStack,
    {
        Bpftrace::new()
    }
}

} // verus!
