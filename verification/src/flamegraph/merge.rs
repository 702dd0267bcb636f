//! Merging sorted folded stacks into the timed frames that a flame graph draws.
use vstd::prelude::*;
use crate::text::{
    chars_lt, str_lt,
    all_ascii_digits, all_ascii_digits_in, chars_of, find, find_chars, lemma_find_from_bounds,
    parse_u64_digits, parse_u64_in, rfind, rfind_chars, split_chars, split_on, strs_view,
    trailing_ws_in, trim, trim_bounds, trim_end,
};

verus! {

/// One folded stack with its sample count and, for differential input, the change in count.
pub struct Sample {
    /// The frames of the stack, outermost first.
    pub stack: Vec<String>,
    /// The number of samples.
    pub count: u64,
    /// For differential input, the new count minus the old count.
    pub delta: Option<isize>,
}

/// A frame at a given depth; depth 0 is the synthetic root frame named `""`.
pub struct Frame {
    pub function: String,
    pub depth: usize,
}

/// A frame together with the span of (cumulative) sample time that it covers.
pub struct TimedFrame {
    pub location: Frame,
    pub start_time: u64,
    pub end_time: u64,
    pub delta: Option<isize>,
}

/// Why samples could not be merged.
#[derive(Debug, Clone, Copy, PartialEq, Eq)]
pub enum MergeError {
    /// A sample's stack sorts before the stack of the sample preceding it.
    UnsortedInput,
}

pub ghost struct SampleSpec {
    pub stack: Seq<Seq<char>>,
    pub count: int,
    pub delta: Option<int>,
}

pub ghost struct FrameSpec {
    pub function: Seq<char>,
    pub depth: int,
    pub start: int,
    pub end: int,
    pub delta: Option<int>,
}

pub open spec fn opt_int(d: Option<isize>) -> Option<int> {
    match d {
        Some(x) => Some(x as int),
        None => None,
    }
}

impl View for Sample {
    type V = SampleSpec;

    open spec fn view(&self) -> SampleSpec {
        SampleSpec { stack: strs_view(self.stack@), count: self.count as int, delta: opt_int(self.delta) }
    }
}

impl View for TimedFrame {
    type V = FrameSpec;

    open spec fn view(&self) -> FrameSpec {
        FrameSpec {
            function: self.location.function@,
            depth: self.location.depth as int,
            start: self.start_time as int,
            end: self.end_time as int,
            delta: opt_int(self.delta),
        }
    }
}

pub open spec fn samples_view(v: Seq<Sample>) -> Seq<SampleSpec> {
    v.map_values(|s: Sample| s@)
}

pub open spec fn frames_view(v: Seq<TimedFrame>) -> Seq<FrameSpec> {
    v.map_values(|f: TimedFrame| f@)
}

// ------------------------------------------------------------------
// Ordering of stacks
// ------------------------------------------------------------------

/// Lexicographic `<` on stacks from frame `i` on (the order of `Vec<&str>`).
pub open spec fn stack_lt_from(a: Seq<Seq<char>>, b: Seq<Seq<char>>, i: int) -> bool
    decreases a.len() - i,
{
    if i >= a.len() {
        i < b.len()
    } else if i >= b.len() {
        false
    } else if a[i] != b[i] {
        chars_lt(a[i], b[i])
    } else {
        stack_lt_from(a, b, i + 1)
    }
}

pub open spec fn stack_lt(a: Seq<Seq<char>>, b: Seq<Seq<char>>) -> bool {
    stack_lt_from(a, b, 0)
}

fn stack_lt_exec(a: &Vec<String>, b: &Vec<String>) -> (r: bool)
    ensures
        r == stack_lt(strs_view(a@), strs_view(b@)),
{
    let ghost av = strs_view(a@);
    let ghost bv = strs_view(b@);
    let mut i: usize = 0;
    loop
        invariant
            i <= a.len(),
            i <= b.len(),
            av == strs_view(a@),
            bv == strs_view(b@),
            stack_lt(av, bv) == stack_lt_from(av, bv, i as int),
        decreases a.len() - i,
    {
        if i >= a.len() {
            return i < b.len();
        }
        if i >= b.len() {
            return false;
        }
        assert(av[i as int] == a@[i as int]@ && bv[i as int] == b@[i as int]@);
        if a[i] != b[i] {
            return str_lt(a[i].as_str(), b[i].as_str());
        }
        i += 1;
    }
}

// ------------------------------------------------------------------
// The merge, stated over whole sample sequences
// ------------------------------------------------------------------

/// The path of frames a stack is drawn along: the root frame `""` followed by the stack.
pub open spec fn root_path(stack: Seq<Seq<char>>) -> Seq<Seq<char>> {
    seq![Seq::<char>::empty()] + stack
}

/// Length of the longest common prefix of `a` and `b`, counting from position `i`.
pub open spec fn common_prefix_from(a: Seq<Seq<char>>, b: Seq<Seq<char>>, i: int) -> int
    decreases a.len() - i,
{
    if 0 <= i && i < a.len() && i < b.len() && a[i] == b[i] {
        common_prefix_from(a, b, i + 1)
    } else {
        i
    }
}

/// Frames are open from the sample where they start until the next sample whose path differs.
pub ghost struct MergeState {
    /// Frames closed so far, in the order they were closed.
    pub frames: Seq<FrameSpec>,
    /// Start time and delta of each open frame, indexed by depth.
    pub open: Seq<(int, Option<int>)>,
    /// The stack of the previous sample.
    pub last: Seq<Seq<char>>,
    /// Total sample count so far.
    pub time: int,
    /// Largest magnitude of a delta seen so far (at least 1).
    pub delta_max: int,
}

/// Frames of `path` at depths `shared..` that close at `time`.
pub open spec fn closing_frames(
    path: Seq<Seq<char>>,
    open: Seq<(int, Option<int>)>,
    shared: int,
    time: int,
) -> Seq<FrameSpec> {
    Seq::new(
        (path.len() - shared) as nat,
        |k: int|
            FrameSpec {
                function: path[shared + k],
                depth: shared + k,
                start: open[shared + k].0,
                end: time,
                delta: open[shared + k].1,
            },
    )
}

/// The delta recorded for a frame opened at `depth` along a path of length `len`: only the
/// leaf frame carries the sample's delta; frames above it get 0 in differential input.
pub open spec fn opened_delta(delta: Option<int>, depth: int, len: int) -> Option<int> {
    if delta is Some && depth != len - 1 {
        Some(0)
    } else {
        delta
    }
}

pub open spec fn opening_frames(len: int, shared: int, time: int, delta: Option<int>) -> Seq<(int, Option<int>)> {
    Seq::new((len - shared) as nat, |k: int| (time, opened_delta(delta, shared + k, len)))
}

pub open spec fn abs(x: int) -> int {
    if x < 0 { -x } else { x }
}

/// Depth from which the path of `s` differs from the path of the previous sample
/// (0 when there is no previous stack).
pub open spec fn shared_depth(st: MergeState, s: SampleSpec) -> int {
    if st.last.len() == 0 {
        0
    } else {
        common_prefix_from(root_path(st.last), root_path(s.stack), 0)
    }
}

pub open spec fn merge_step(st: MergeState, s: SampleSpec) -> MergeState {
    let shared = shared_depth(st, s);
    let closed = if st.last.len() == 0 {
        Seq::empty()
    } else {
        closing_frames(root_path(st.last), st.open, shared, st.time)
    };
    MergeState {
        frames: st.frames + closed,
        open: st.open.take(shared) + opening_frames(s.stack.len() + 1int, shared, st.time, s.delta),
        last: s.stack,
        time: st.time + s.count,
        delta_max: match s.delta {
            Some(d) => if abs(d) > st.delta_max { abs(d) } else { st.delta_max },
            None => st.delta_max,
        },
    }
}

pub open spec fn initial_state() -> MergeState {
    MergeState { frames: Seq::empty(), open: Seq::empty(), last: Seq::empty(), time: 0, delta_max: 1 }
}

/// State after merging the first `k` samples.
pub open spec fn merge_prefix(samples: Seq<SampleSpec>, k: int) -> MergeState
    decreases k,
{
    if k <= 0 {
        initial_state()
    } else {
        merge_step(merge_prefix(samples, k - 1), samples[k - 1])
    }
}

/// Frames still open at the end are closed at the total time.
pub open spec fn merge_finish(st: MergeState) -> Seq<FrameSpec> {
    if st.last.len() == 0 {
        st.frames
    } else {
        st.frames + closing_frames(root_path(st.last), st.open, 0, st.time)
    }
}

/// The timed frames, total time and largest delta magnitude for a sequence of samples.
pub open spec fn merged(samples: Seq<SampleSpec>) -> (Seq<FrameSpec>, int, int) {
    let st = merge_prefix(samples, samples.len() as int);
    (merge_finish(st), st.time, st.delta_max)
}

/// Sample `k` sorts before the (non-empty) stack of sample `k - 1`.
pub open spec fn unsorted_at(samples: Seq<SampleSpec>, k: int) -> bool {
    1 <= k < samples.len() && samples[k - 1].stack.len() > 0 && stack_lt(samples[k].stack, samples[k - 1].stack)
}

pub open spec fn has_unsorted(samples: Seq<SampleSpec>) -> bool {
    exists|k: int| unsorted_at(samples, k)
}

/// The number of samples that are merged before an ordering error stops the merge.
pub open spec fn merged_len_from(samples: Seq<SampleSpec>, suppress_sort_check: bool, k: int) -> int
    decreases samples.len() - k,
{
    if k >= samples.len() {
        samples.len() as int
    } else if !suppress_sort_check && unsorted_at(samples, k) {
        k
    } else {
        merged_len_from(samples, suppress_sort_check, k + 1)
    }
}

pub open spec fn sum_counts(samples: Seq<SampleSpec>, k: int) -> int
    decreases k,
{
    if k <= 0 { 0 } else { sum_counts(samples, k - 1) + samples[k - 1].count }
}

/// Every stack's path (root frame included) has a length that fits in `usize`.
pub open spec fn paths_fit(samples: Seq<SampleSpec>) -> bool {
    forall|k: int| 0 <= k < samples.len() ==> #[trigger] samples[k].stack.len() < usize::MAX
}

/// The merge can only hold an empty stack as the very last sample: the root frame of an
/// empty stack is never closed, so a further sample would open it a second time.
pub open spec fn empty_stacks_only_last(samples: Seq<SampleSpec>) -> bool {
    forall|k: int| 0 <= k < samples.len() - 1 ==> #[trigger] samples[k].stack.len() > 0
}


pub open spec fn open_view(v: Seq<(u64, Option<isize>)>) -> Seq<(int, Option<int>)> {
    v.map_values(|e: (u64, Option<isize>)| (e.0 as int, opt_int(e.1)))
}

proof fn lemma_common_prefix_bound(a: Seq<Seq<char>>, b: Seq<Seq<char>>, i: int)
    requires
        0 <= i <= a.len(),
        i <= b.len(),
    ensures
        i <= common_prefix_from(a, b, i) <= a.len(),
        common_prefix_from(a, b, i) <= b.len(),
        forall|j: int| i <= j < common_prefix_from(a, b, i) ==> a[j] == b[j],
    decreases a.len() - i,
{
    if i < a.len() && i < b.len() && a[i] == b[i] {
        lemma_common_prefix_bound(a, b, i + 1);
    }
}

proof fn lemma_common_prefix_root(a: Seq<Seq<char>>, b: Seq<Seq<char>>, i: int)
    requires
        0 <= i,
    ensures
        common_prefix_from(root_path(a), root_path(b), i + 1) == 1 + common_prefix_from(a, b, i),
    decreases a.len() - i,
{
    let (ra, rb) = (root_path(a), root_path(b));
    if i < a.len() && i < b.len() {
        assert(ra[i + 1] == a[i] && rb[i + 1] == b[i]);
        if a[i] == b[i] {
            lemma_common_prefix_root(a, b, i + 1);
        }
    }
}

proof fn lemma_merged_len_ge(samples: Seq<SampleSpec>, suppress_sort_check: bool, k: int)
    requires
        0 <= k <= samples.len(),
    ensures
        k <= merged_len_from(samples, suppress_sort_check, k) <= samples.len(),
    decreases samples.len() - k,
{
    if k < samples.len() && !(!suppress_sort_check && unsorted_at(samples, k)) {
        lemma_merged_len_ge(samples, suppress_sort_check, k + 1);
    }
}

proof fn lemma_sum_counts_monotone(samples: Seq<SampleSpec>, j: int, k: int)
    requires
        0 <= j <= k <= samples.len(),
        forall|i: int| 0 <= i < samples.len() ==> #[trigger] samples[i].count >= 0,
    ensures
        sum_counts(samples, j) <= sum_counts(samples, k),
    decreases k - j,
{
    if j < k {
        lemma_sum_counts_monotone(samples, j, k - 1);
    }
}

fn common_prefix_exec(a: &Vec<String>, b: &Vec<String>) -> (r: usize)
    ensures
        r as int == common_prefix_from(strs_view(a@), strs_view(b@), 0),
{
    let ghost av = strs_view(a@);
    let ghost bv = strs_view(b@);
    let mut i: usize = 0;
    loop
        invariant
            i <= a.len(),
            i <= b.len(),
            av == strs_view(a@),
            bv == strs_view(b@),
            common_prefix_from(av, bv, 0) == common_prefix_from(av, bv, i as int),
        decreases a.len() - i,
    {
        if i >= a.len() || i >= b.len() {
            return i;
        }
        assert(av[i as int] == a@[i as int]@ && bv[i as int] == b@[i as int]@);
        if a[i] != b[i] {
            return i;
        }
        i += 1;
    }
}

fn abs_isize(d: isize) -> (r: usize)
    ensures
        r as int == abs(d as int),
{
    if d < 0 {
        ((-(d + 1)) as usize) + 1
    } else {
        d as usize
    }
}

/// The frame name at `depth` along the root path of `stack`.
fn path_name(stack: &Vec<String>, depth: usize) -> (r: String)
    requires
        depth <= stack.len(),
    ensures
        r@ == root_path(strs_view(stack@))[depth as int],
{
    if depth == 0 {
        String::new()
    } else {
        stack[depth - 1].clone()
    }
}

/// Closes the frames of `stack`'s path at depths `from..` at time `time`, appending them
/// to `frames`, and truncates `open` to depth `from`.
fn close_frames(
    frames: &mut Vec<TimedFrame>,
    open: &mut Vec<(u64, Option<isize>)>,
    stack: &Vec<String>,
    from: usize,
    time: u64,
)
    requires
        from <= old(open).len(),
        old(open).len() == stack.len() + 1,
    ensures
        frames_view(final(frames)@) == frames_view(old(frames)@) + closing_frames(
            root_path(strs_view(stack@)),
            open_view(old(open)@),
            from as int,
            time as int,
        ),
        final(open)@ == old(open)@.take(from as int),
{
    let ghost path = root_path(strs_view(stack@));
    let ghost ov = open_view(open@);
    let ghost f0 = frames_view(frames@);
    let mut d = from;
    while d < open.len()
        invariant
            from <= d <= open.len() == stack.len() + 1 == path.len(),
            open_view(open@) == ov,
            open@ == old(open)@,
            path == root_path(strs_view(stack@)),
            frames_view(frames@) == f0 + closing_frames(path, ov, from as int, time as int).take(d - from),
        decreases open.len() - d,
    {
        let (start, delta) = open[d];
        let f = TimedFrame {
            location: Frame { function: path_name(stack, d), depth: d },
            start_time: start,
            end_time: time,
            delta,
        };
        let ghost before = frames_view(frames@);
        frames.push(f);
        assert(frames_view(frames@) =~= before.push(f@));
        assert(ov[d as int] == (start as int, opt_int(delta)));
        assert(closing_frames(path, ov, from as int, time as int).take(d + 1 - from) =~= closing_frames(path, ov, from as int, time as int).take(d - from).push(f@));
        d += 1;
    }
    assert(closing_frames(path, ov, from as int, time as int).take(d - from) =~= closing_frames(path, ov, from as int, time as int));
    open.truncate(from);
}

/// Opens the frames of a path of length `len` at depths `from..` at time `time`.
fn open_frames(open: &mut Vec<(u64, Option<isize>)>, from: usize, len: usize, time: u64, delta: Option<isize>)
    requires
        old(open).len() == from,
        from <= len,
    ensures
        open_view(final(open)@) == open_view(old(open)@) + opening_frames(len as int, from as int, time as int, opt_int(delta)),
        final(open)@.len() == len,
{
    let ghost o0 = open_view(open@);
    let mut d = from;
    while d < len
        invariant
            from <= d <= len,
            open@.len() == d,
            open_view(open@) == o0 + opening_frames(len as int, from as int, time as int, opt_int(delta)).take(d - from),
        decreases len - d,
    {
        let dd = if delta.is_some() && d != len - 1 { Some(0isize) } else { delta };
        let ghost before = open_view(open@);
        open.push((time, dd));
        assert(open_view(open@) =~= before.push((time as int, opt_int(dd))));
        assert(opening_frames(len as int, from as int, time as int, opt_int(delta)).take(d + 1 - from) =~= opening_frames(len as int, from as int, time as int, opt_int(delta)).take(d - from).push((time as int, opt_int(dd))));
        d += 1;
    }
    assert(opening_frames(len as int, from as int, time as int, opt_int(delta)).take(d - from) =~= opening_frames(len as int, from as int, time as int, opt_int(delta)));
}

/// Merges pre-parsed stack samples into timed frames for rendering.
///
/// Returns the frames in the order they were closed, the total sample count, and the largest
/// magnitude of a differential delta (at least 1). Unless `suppress_sort_check` is set, a sample
/// whose stack sorts before the previous sample's stack is an error.
pub fn frames_from_stacks(stacks: &[Sample], suppress_sort_check: bool) -> (r: Result<
    (Vec<TimedFrame>, u64, usize),
    MergeError,
>)
    requires
        empty_stacks_only_last(samples_view(stacks@)),
        paths_fit(samples_view(stacks@)),
        sum_counts(
            samples_view(stacks@),
            merged_len_from(samples_view(stacks@), suppress_sort_check, 0),
        ) <= u64::MAX,
    ensures
        r is Err <==> !suppress_sort_check && has_unsorted(samples_view(stacks@)),
        r matches Ok((f, t, dm)) ==> (frames_view(f@), t as int, dm as int) == merged(
            samples_view(stacks@),
        ),
{
    let ghost sv = samples_view(stacks@);
    let n = stacks.len();
    let mut frames: Vec<TimedFrame> = Vec::new();
    let mut open: Vec<(u64, Option<isize>)> = Vec::new();
    let mut time: u64 = 0;
    let mut delta_max: usize = 1;
    assert(frames_view(frames@) =~= Seq::<FrameSpec>::empty());
    assert(open_view(open@) =~= Seq::<(int, Option<int>)>::empty());
    proof {
        lemma_merged_len_ge(sv, suppress_sort_check, 0);
        assert forall|i: int| 0 <= i < sv.len() implies #[trigger] sv[i].count >= 0 by {
            assert(sv[i] == stacks@[i]@);
        }
    }
    let mut k: usize = 0;
    while k < n
        invariant
            k <= n == stacks@.len() == sv.len(),
            sv == samples_view(stacks@),
            empty_stacks_only_last(sv),
            paths_fit(sv),
            forall|i: int| 0 <= i < sv.len() ==> #[trigger] sv[i].count >= 0,
            sum_counts(sv, merged_len_from(sv, suppress_sort_check, 0)) <= u64::MAX,
            merged_len_from(sv, suppress_sort_check, 0) == merged_len_from(sv, suppress_sort_check, k as int),
            !suppress_sort_check ==> forall|j: int| 0 <= j < k ==> !unsorted_at(sv, j),
            frames_view(frames@) == merge_prefix(sv, k as int).frames,
            open_view(open@) == merge_prefix(sv, k as int).open,
            time as int == merge_prefix(sv, k as int).time,
            time as int == sum_counts(sv, k as int),
            delta_max as int == merge_prefix(sv, k as int).delta_max,
            merge_prefix(sv, k as int).last == (if k == 0 { Seq::<Seq<char>>::empty() } else { sv[k - 1].stack }),
            open@.len() == (if k == 0 { 0 } else { sv[k - 1].stack.len() + 1 }),
        decreases n - k,
    {
        let ghost st = merge_prefix(sv, k as int);
        let s = &stacks[k];
        assert(sv[k as int] == s@);
        if k > 0 {
            assert(sv[k - 1] == stacks@[k - 1]@);
            assert(sv[k - 1].stack.len() > 0);
        }
        if !suppress_sort_check && k > 0 && stack_lt_exec(&s.stack, &stacks[k - 1].stack) {
            assert(unsorted_at(sv, k as int));
            return Err(MergeError::UnsortedInput);
        }
        assert(!suppress_sort_check ==> !unsorted_at(sv, k as int));
        proof {
            lemma_merged_len_ge(sv, suppress_sort_check, k + 1);
            lemma_sum_counts_monotone(sv, k + 1, merged_len_from(sv, suppress_sort_check, k + 1));
        }
        match s.delta {
            Some(d) => {
                let a = abs_isize(d);
                if a > delta_max {
                    delta_max = a;
                }
            },
            None => {},
        }
        let shared: usize;
        if k > 0 {
            let last = &stacks[k - 1].stack;
            let cp = common_prefix_exec(last, &s.stack);
            proof {
                lemma_common_prefix_root(sv[k - 1].stack, s@.stack, 0);
                lemma_common_prefix_bound(sv[k - 1].stack, s@.stack, 0);
                assert(root_path(sv[k - 1].stack)[0] == root_path(s@.stack)[0]);
            }
            shared = cp + 1;
            close_frames(&mut frames, &mut open, last, shared, time);
            assert(open_view(open@) =~= st.open.take(shared as int));
        } else {
            shared = 0;
            assert(open_view(open@) =~= st.open.take(0));
        }
        open_frames(&mut open, shared, s.stack.len() + 1, time, s.delta);
        time = time + s.count;
        k += 1;
        proof {
            assert(merge_prefix(sv, k as int) == merge_step(st, sv[k - 1]));
        }
    }
    proof {
        assert(!suppress_sort_check ==> !has_unsorted(sv));
    }
    if n > 0 && stacks[n - 1].stack.len() > 0 {
        assert(sv[n - 1] == stacks@[n - 1]@);
        close_frames(&mut frames, &mut open, &stacks[n - 1].stack, 0, time);
    }
    Ok((frames, time, delta_max))
}


// ------------------------------------------------------------------
// Parsing folded stack lines
// ------------------------------------------------------------------

/// Locates a sample count at the end of a line: `Some((i, d))` where `i` is the position
/// after the last space and the count is `line[i..]`; `d` is the offset of the decimal point
/// within the count if there is one, or else the count's length. The count may only hold
/// ASCII digits besides one decimal point.
pub open spec fn samples_position(line: Seq<char>) -> Option<(int, int)> {
    match rfind(line, seq![' ']) {
        None => None,
        Some(sp) => {
            let si = sp + 1;
            let samples = line.skip(si);
            match find(samples, seq!['.']) {
                Some(doti) => if all_ascii_digits(samples.take(doti)) && all_ascii_digits(
                    samples.skip(doti + 1),
                ) {
                    Some((si, doti))
                } else {
                    None
                },
                None => if all_ascii_digits(samples) {
                    Some((si, samples.len() as int))
                } else {
                    None
                },
            }
        },
    }
}

/// The integral sample count at the end of a line (any fractional part is dropped), and the
/// rest of the line before it.
pub open spec fn trailing_count(line: Seq<char>) -> Option<(u64, Seq<char>)> {
    match samples_position(line) {
        None => None,
        Some((si, doti)) => match parse_u64_digits(line.subrange(si, si + doti)) {
            Some(n) => Some((n, trim_end(line.take(si)))),
            None => None,
        },
    }
}

/// A folded line as stack text, sample count and, for two count columns, the first count.
pub open spec fn parsed_line(line: Seq<char>) -> Option<(Seq<char>, u64, Option<u64>)> {
    let l0 = trim(line);
    match trailing_count(l0) {
        None => None,
        Some((n, l1)) => {
            let orig = match trailing_count(l1) {
                Some((o, _)) => Some(o),
                None => None,
            };
            let l2 = match trailing_count(l1) {
                Some((_, l2)) => l2,
                None => l1,
            };
            if l2.len() == 0 {
                None
            } else {
                Some((l2, n, orig))
            }
        },
    }
}

/// The delta of a differential line: the second count minus the first, each taken as `isize`.
pub open spec fn line_delta(n: u64, orig: u64) -> int {
    (n as isize) as int - (orig as isize) as int
}

/// The delta of a differential line fits in an `isize`.
pub open spec fn delta_fits(line: Seq<char>) -> bool {
    match parsed_line(line) {
        Some((_, n, Some(o))) => isize::MIN <= line_delta(n, o) <= isize::MAX,
        _ => true,
    }
}

/// The sample that a folded line stands for, if the line is well formed.
pub open spec fn line_sample(line: Seq<char>) -> Option<SampleSpec> {
    match parsed_line(line) {
        None => None,
        Some((st, n, orig)) => Some(
            SampleSpec {
                stack: split_on(st, ';'),
                count: n as int,
                delta: match orig {
                    Some(o) => Some(line_delta(n, o)),
                    None => None,
                },
            },
        ),
    }
}

/// The samples of the well-formed lines among the first `k` lines.
pub open spec fn line_samples(lines: Seq<Seq<char>>, k: int) -> Seq<SampleSpec>
    decreases k,
{
    if k <= 0 {
        Seq::empty()
    } else {
        match line_sample(lines[k - 1]) {
            Some(s) => line_samples(lines, k - 1).push(s),
            None => line_samples(lines, k - 1),
        }
    }
}

/// The number of malformed lines among the first `k` lines.
pub open spec fn ignored_lines(lines: Seq<Seq<char>>, k: int) -> int
    decreases k,
{
    if k <= 0 {
        0
    } else {
        ignored_lines(lines, k - 1) + if line_sample(lines[k - 1]) is None { 1int } else { 0int }
    }
}

pub open spec fn lines_view(lines: Seq<&str>) -> Seq<Seq<char>> {
    lines.map_values(|l: &str| l@)
}

/// Finds the sample count at the end of `line`; see `samples_position`.
pub fn rfind_samples(line: &[char]) -> (r: Option<(usize, usize)>)
    ensures
        r matches Some((a, b)) ==> samples_position(line@) == Some((a as int, b as int)),
        r is None ==> samples_position(line@) is None,
        r matches Some((a, b)) ==> a + b <= line@.len(),
{
    let space: [char; 1] = [' '];
    let dot: [char; 1] = ['.'];
    assert(space@ =~= seq![' ']);
    assert(dot@ =~= seq!['.']);
    let sp = match rfind_chars(line, space.as_slice()) {
        None => return None,
        Some(sp) => sp,
    };
    proof { crate::text::lemma_rfind_bounds(line@, seq![' ']); }
    assert(rfind(line@, seq![' ']) == Some(sp as int));
    assert(sp + 1 <= line.len());
    let si = sp + 1;
    let samples = &line[si..line.len()];
    assert(samples@ =~= line@.skip(si as int));
    match find_chars(samples, dot.as_slice()) {
        Some(doti) => {
            proof { lemma_find_from_bounds(samples@, seq!['.'], 0); }
            let ok = all_ascii_digits_in(samples, 0, doti) && all_ascii_digits_in(samples, doti + 1, samples.len());
            assert(samples@.subrange(0, doti as int) =~= samples@.take(doti as int));
            assert(samples@.subrange(doti + 1, samples@.len() as int) =~= samples@.skip(doti + 1));
            if ok { Some((si, doti)) } else { None }
        },
        None => {
            assert(samples@.subrange(0, samples@.len() as int) =~= samples@);
            if all_ascii_digits_in(samples, 0, samples.len()) {
                Some((si, line.len() - si))
            } else {
                None
            }
        },
    }
}

/// Parses the count at the end of `line`; on success also gives the length of the rest of
/// the line once the count and the whitespace before it are removed.
fn parse_nsamples(line: &[char]) -> (r: Option<(u64, usize)>)
    ensures
        r matches Some((n, len)) ==> len <= line@.len() && trailing_count(line@) == Some((n, line@.take(len as int))),
        r is None ==> trailing_count(line@) is None,
{
    match rfind_samples(line) {
        None => None,
        Some((si, doti)) => {
            proof {
                let samples = line@.skip(si as int);
                match find(samples, seq!['.']) {
                    Some(d) => {
                        lemma_find_from_bounds(samples, seq!['.'], 0);
                        assert(line@.subrange(si as int, si + doti) =~= samples.take(doti as int));
                    },
                    None => {
                        assert(line@.subrange(si as int, si + doti) =~= samples);
                    },
                }
            }
            assert(si + doti <= line.len());
            match parse_u64_in(line, si, si + doti) {
                None => None,
                Some(n) => {
                    let tw = trailing_ws_in(line, 0, si);
                    assert(line@.subrange(0, si as int) =~= line@.take(si as int));
                    assert(line@.take(si - tw) =~= trim_end(line@.take(si as int)));
                    Some((n, si - tw))
                },
            }
        },
    }
}

/// Parses folded stack lines, counting the malformed ones.
pub struct LineParser {
    /// The number of lines that were not well formed.
    pub ignored: usize,
}

impl LineParser {
    pub fn new() -> (p: LineParser)
        ensures
            p.ignored == 0,
    {
        LineParser { ignored: 0 }
    }

    /// Parses one folded stack line: a `;`-separated stack followed by a sample count, and
    /// optionally a second count for differential input (the delta is second minus first).
    /// A fractional part of a count is dropped. Malformed lines give `None` and are counted.
    pub fn parse(&mut self, line: &str) -> (r: Option<Sample>)
        requires
            old(self).ignored < usize::MAX,
            delta_fits(line@),
        ensures
            r matches Some(s) ==> line_sample(line@) == Some(s@),
            r is None ==> line_sample(line@) is None,
            final(self).ignored == old(self).ignored + if r is None { 1int } else { 0int },
    {
        let chars = chars_of(line);
        let (lo, hi) = trim_bounds(chars.as_slice(), 0, chars.len());
        let t = &chars.as_slice()[lo..hi];
        assert(chars@.subrange(0, chars@.len() as int) =~= chars@);
        assert(t@ == trim(line@));
        match parse_nsamples(t) {
            None => {
                self.ignored = self.ignored + 1;
                None
            },
            Some((n, len1)) => {
                let t1 = &t[0..len1];
                assert(t1@ =~= t@.take(len1 as int));
                let (orig, len2) = match parse_nsamples(t1) {
                    Some((o, l2)) => (Some(o), l2),
                    None => (None, len1),
                };
                let t2 = &t1[0..len2];
                assert(t2@ =~= t1@.take(len2 as int));
                if len2 == 0 {
                    self.ignored = self.ignored + 1;
                    return None;
                }
                assert(parsed_line(line@) == Some((t2@, n, orig)));
                let stack = split_chars(t2, ';');
                let delta = match orig {
                    Some(o) => Some((#[verifier::truncate] (n as isize)) - (#[verifier::truncate] (o as isize))),
                    None => None,
                };
                let s = Sample { stack, count: n, delta };
                assert(s@.stack == split_on(t2@, ';'));
                assert(s@.delta == (match orig { Some(o) => Some(line_delta(n, o)), None => None }));
                Some(s)
            },
        }
    }
}

/// Parses folded stack lines and merges their samples into timed frames.
///
/// Returns the frames, the total sample count, the number of malformed lines that were
/// ignored, and the largest magnitude of a differential delta (at least 1).
pub fn frames(lines: &[&str], suppress_sort_check: bool) -> (r: Result<(Vec<TimedFrame>, u64, usize, usize), MergeError>)
    requires
        forall|i: int| 0 <= i < lines@.len() ==> delta_fits(#[trigger] lines@[i]@),
        paths_fit(line_samples(lines_view(lines@), lines@.len() as int)),
        sum_counts(
            line_samples(lines_view(lines@), lines@.len() as int),
            merged_len_from(line_samples(lines_view(lines@), lines@.len() as int), suppress_sort_check, 0),
        ) <= u64::MAX,
    ensures
        r is Err <==> !suppress_sort_check && has_unsorted(line_samples(lines_view(lines@), lines@.len() as int)),
        r matches Ok((f, t, ig, dm)) ==> {
            let m = merged(line_samples(lines_view(lines@), lines@.len() as int));
            &&& frames_view(f@) == m.0
            &&& t as int == m.1
            &&& dm as int == m.2
            &&& ig as int == ignored_lines(lines_view(lines@), lines@.len() as int)
        },
{
    let ghost lv = lines_view(lines@);
    let mut parser = LineParser::new();
    let mut samples: Vec<Sample> = Vec::new();
    let mut i: usize = 0;
    assert(samples_view(samples@) =~= Seq::<SampleSpec>::empty());
    while i < lines.len()
        invariant
            i <= lines@.len(),
            lv == lines_view(lines@),
            forall|j: int| 0 <= j < lines@.len() ==> delta_fits(#[trigger] lines@[j]@),
            samples_view(samples@) == line_samples(lv, i as int),
            parser.ignored as int == ignored_lines(lv, i as int),
            parser.ignored <= i,
        decreases lines.len() - i,
    {
        assert(lv[i as int] == lines@[i as int]@);
        let ghost before = samples_view(samples@);
        match parser.parse(lines[i]) {
            Some(s) => {
                samples.push(s);
                assert(samples_view(samples@) =~= before.push(s@));
            },
            None => {},
        }
        i += 1;
    }
    proof { lemma_line_samples_nonempty(lv, lines@.len() as int); }
    match frames_from_stacks(samples.as_slice(), suppress_sort_check) {
        Err(e) => Err(e),
        Ok((frames, time, delta_max)) => Ok((frames, time, parser.ignored, delta_max)),
    }
}

/// Every parsed line has a non-empty stack.
pub proof fn lemma_line_samples_nonempty(lines: Seq<Seq<char>>, k: int)
    ensures
        forall|j: int| 0 <= j < line_samples(lines, k).len() ==> #[trigger] line_samples(lines, k)[j].stack.len() > 0,
    decreases k,
{
    if k > 0 {
        lemma_line_samples_nonempty(lines, k - 1);
        match line_sample(lines[k - 1]) {
            Some(s) => {
                let prev = line_samples(lines, k - 1);
                assert forall|j: int| 0 <= j < prev.push(s).len() implies #[trigger] prev.push(s)[j].stack.len() > 0 by {
                    if j == prev.len() {
                        let st = parsed_line(lines[k - 1])->Some_0.0;
                        crate::text::lemma_split_on_nonempty(st, ';');
                    } else {
                        assert(prev.push(s)[j] == prev[j]);
                    }
                }
            },
            None => {},
        }
    }
}


/// Whether `frames` can merge the lines: every differential delta fits an `isize`, every stack
/// path fits a `usize`, and the counts of the samples merged (those before the first sample out
/// of order, unless the sort check is off) sum to at most `u64::MAX`.
pub open spec fn frames_fit(lines: Seq<Seq<char>>, suppress_sort_check: bool) -> bool {
    let samples = line_samples(lines, lines.len() as int);
    &&& forall|i: int| 0 <= i < lines.len() ==> delta_fits(#[trigger] lines[i])
    &&& paths_fit(samples)
    &&& sum_counts(samples, merged_len_from(samples, suppress_sort_check, 0)) <= u64::MAX
}

/// Whether the delta of a differential line fits an `isize`.
fn line_delta_fits(line: &str) -> (b: bool)
    ensures
        b == delta_fits(line@),
{
    let chars = chars_of(line);
    let (lo, hi) = trim_bounds(chars.as_slice(), 0, chars.len());
    assert(chars@.subrange(0, chars@.len() as int) =~= chars@);
    let t = &chars.as_slice()[lo..hi];
    assert(t@ == trim(line@));
    match parse_nsamples(t) {
        None => true,
        Some((n, len1)) => {
            let t1 = &t[0..len1];
            assert(t1@ =~= t@.take(len1 as int));
            match parse_nsamples(t1) {
                None => true,
                Some((o, len2)) => {
                    let t2 = &t1[0..len2];
                    assert(t2@ =~= t1@.take(len2 as int));
                    if len2 == 0 {
                        return true;
                    }
                    assert(parsed_line(line@) == Some((t2@, n, Some(o))));
                    let a: i128 = (#[verifier::truncate] (n as isize)) as i128;
                    let c: i128 = (#[verifier::truncate] (o as isize)) as i128;
                    let d = a - c;
                    isize::MIN as i128 <= d && d <= isize::MAX as i128
                },
            }
        },
    }
}

/// Whether sample `k` stops the merge: it is out of order and the sort check is on.
fn stops_merge(samples: &Vec<Sample>, k: usize, suppress_sort_check: bool) -> (b: bool)
    requires
        k < samples@.len(),
        forall|j: int| 0 <= j < samples@.len() ==> #[trigger] samples_view(samples@)[j].stack.len() > 0,
    ensures
        b == (!suppress_sort_check && unsorted_at(samples_view(samples@), k as int)),
{
    if suppress_sort_check || k == 0 {
        return false;
    }
    let ghost sv = samples_view(samples@);
    assert(sv[k as int] == samples@[k as int]@ && sv[k - 1] == samples@[k - 1]@);
    assert(sv[k - 1].stack.len() > 0);
    stack_lt_exec(&samples[k].stack, &samples[k - 1].stack)
}

/// Merges folded lines as [`frames`] does, where it can: `None` exactly where a differential
/// delta does not fit an `isize`, a stack path does not fit a `usize`, or the counts merged
/// sum past `u64::MAX`.
pub fn checked_frames(lines: &[&str], suppress_sort_check: bool) -> (r: Option<
    Result<(Vec<TimedFrame>, u64, usize, usize), MergeError>,
>)
    ensures
        r is None <==> !frames_fit(lines_view(lines@), suppress_sort_check),
        r matches Some(x) ==> (x is Err <==> !suppress_sort_check && has_unsorted(
            line_samples(lines_view(lines@), lines@.len() as int),
        )),
        r matches Some(Ok((f, t, ig, dm))) ==> {
            let m = merged(line_samples(lines_view(lines@), lines@.len() as int));
            &&& frames_view(f@) == m.0
            &&& t as int == m.1
            &&& dm as int == m.2
            &&& ig as int == ignored_lines(lines_view(lines@), lines@.len() as int)
        },
{
    let ghost lv = lines_view(lines@);
    let n = lines.len();
    let mut i: usize = 0;
    while i < n
        invariant
            i <= n == lines@.len(),
            lv == lines_view(lines@),
            forall|j: int| 0 <= j < i ==> delta_fits(#[trigger] lines@[j]@),
        decreases n - i,
    {
        if !line_delta_fits(lines[i]) {
            assert(lv[i as int] == lines@[i as int]@);
            return None;
        }
        i += 1;
    }
    assert forall|j: int| 0 <= j < lv.len() implies delta_fits(#[trigger] lv[j]) by {
        assert(lv[j] == lines@[j]@);
    }
    let mut parser = LineParser::new();
    let mut samples: Vec<Sample> = Vec::new();
    assert(samples_view(samples@) =~= Seq::<SampleSpec>::empty());
    i = 0;
    while i < n
        invariant
            i <= n == lines@.len(),
            lv == lines_view(lines@),
            forall|j: int| 0 <= j < lines@.len() ==> delta_fits(#[trigger] lines@[j]@),
            samples_view(samples@) == line_samples(lv, i as int),
            parser.ignored <= i,
        decreases n - i,
    {
        assert(lv[i as int] == lines@[i as int]@);
        let ghost before = samples_view(samples@);
        match parser.parse(lines[i]) {
            Some(s) => {
                samples.push(s);
                assert(samples_view(samples@) =~= before.push(s@));
            },
            None => {},
        }
        i += 1;
    }
    let ghost sv = samples_view(samples@);
    proof { lemma_line_samples_nonempty(lv, lv.len() as int); }
    let m = samples.len();
    let mut k: usize = 0;
    while k < m
        invariant
            k <= m == samples@.len(),
            sv == samples_view(samples@),
            lv == lines_view(lines@),
            sv == line_samples(lv, lv.len() as int),
            forall|j: int| 0 <= j < k ==> #[trigger] sv[j].stack.len() < usize::MAX,
        decreases m - k,
    {
        assert(sv[k as int] == samples@[k as int]@);
        if samples[k].stack.len() == usize::MAX {
            assert(sv[k as int].stack.len() == samples@[k as int].stack@.len());
            assert(!paths_fit(sv));
            return None;
        }
        k += 1;
    }
    let mut sum: u64 = 0;
    k = 0;
    while k < m && !stops_merge(&samples, k, suppress_sort_check)
        invariant
            k <= m == samples@.len(),
            sv == samples_view(samples@),
            lv == lines_view(lines@),
            sv == line_samples(lv, lv.len() as int),
            forall|j: int| 0 <= j < samples@.len() ==> #[trigger] sv[j].stack.len() > 0,
            sum as int == sum_counts(sv, k as int),
            merged_len_from(sv, suppress_sort_check, 0) == merged_len_from(sv, suppress_sort_check, k as int),
        decreases m - k,
    {
        assert(sv[k as int] == samples@[k as int]@);
        if sum > u64::MAX - samples[k].count {
            proof {
                lemma_merged_len_ge(sv, suppress_sort_check, k + 1);
                assert forall|j: int| 0 <= j < sv.len() implies #[trigger] sv[j].count >= 0 by {
                    assert(sv[j] == samples@[j]@);
                }
                lemma_sum_counts_monotone(sv, k + 1, merged_len_from(sv, suppress_sort_check, k + 1));
            }
            return None;
        }
        sum = sum + samples[k].count;
        k += 1;
    }
    Some(frames(lines, suppress_sort_check))
}

/// Why folded lines give nothing to draw.
#[derive(Debug, Clone, Copy, PartialEq, Eq)]
pub enum DrawError {
    /// A differential delta, a stack path or the total count does not fit the machine.
    TooLarge,
    /// A sample's stack sorts before the stack of the sample preceding it.
    UnsortedInput,
    /// No line gives a sample count: the total is 0.
    NoStackCounts,
}

/// The frames a flame graph draws from folded lines, with the total count, the number of
/// lines ignored and the largest delta; an error where they do not fit the machine, where the
/// lines are out of order (unless `suppress_sort_check`), or where the total count is 0 (the
/// "no stack counts found" case, for which an error picture is drawn instead).
pub fn frames_to_draw(lines: &[&str], suppress_sort_check: bool) -> (r: Result<
    (Vec<TimedFrame>, u64, usize, usize),
    DrawError,
>)
    ensures
        !frames_fit(lines_view(lines@), suppress_sort_check) <==> r == Err::<(Vec<TimedFrame>, u64, usize, usize), DrawError>(DrawError::TooLarge),
        frames_fit(lines_view(lines@), suppress_sort_check) ==> {
            let samples = line_samples(lines_view(lines@), lines@.len() as int);
            let m = merged(samples);
            if !suppress_sort_check && has_unsorted(samples) {
                r == Err::<(Vec<TimedFrame>, u64, usize, usize), DrawError>(DrawError::UnsortedInput)
            } else if m.1 == 0 {
                r == Err::<(Vec<TimedFrame>, u64, usize, usize), DrawError>(DrawError::NoStackCounts)
            } else {
                r matches Ok((f, t, ig, dm)) && {
                    &&& frames_view(f@) == m.0
                    &&& t as int == m.1
                    &&& dm as int == m.2
                    &&& ig as int == ignored_lines(lines_view(lines@), lines@.len() as int)
                }
            }
        },
{
    match checked_frames(lines, suppress_sort_check) {
        None => Err(DrawError::TooLarge),
        Some(Err(_)) => Err(DrawError::UnsortedInput),
        Some(Ok((f, t, ig, dm))) => {
            if t == 0 {
                Err(DrawError::NoStackCounts)
            } else {
                Ok((f, t, ig, dm))
            }
        },
    }
}

// ------------------------------------------------------------------
// Laws of the merge
// ------------------------------------------------------------------

pub open spec fn counts_nonnegative(samples: Seq<SampleSpec>) -> bool {
    forall|i: int| 0 <= i < samples.len() ==> #[trigger] samples[i].count >= 0
}

pub open spec fn no_deltas(samples: Seq<SampleSpec>) -> bool {
    forall|i: int| 0 <= i < samples.len() ==> #[trigger] samples[i].delta is None
}

/// What holds of the merge state after each prefix of the samples.
pub open spec fn state_ok(samples: Seq<SampleSpec>, k: int, st: MergeState) -> bool {
    &&& st.time == sum_counts(samples, k)
    &&& st.open.len() == (if k == 0 { 0 } else { samples[k - 1].stack.len() + 1 })
    &&& st.last == (if k == 0 { Seq::<Seq<char>>::empty() } else { samples[k - 1].stack })
    &&& k > 0 ==> st.open[0].0 == 0
    &&& forall|i: int| 0 <= i < st.open.len() ==> 0 <= #[trigger] st.open[i].0 <= st.time
    &&& forall|i: int| 0 <= i < st.frames.len() ==> 0 <= #[trigger] st.frames[i].start
        <= st.frames[i].end <= st.time
    &&& no_deltas(samples) ==> forall|i: int| 0 <= i < st.open.len() ==> #[trigger] st.open[i].1 is None
    &&& no_deltas(samples) ==> forall|i: int| 0 <= i < st.frames.len() ==> #[trigger] st.frames[i].delta is None
}

proof fn lemma_merge_prefix_ok(samples: Seq<SampleSpec>, k: int)
    requires
        0 <= k <= samples.len(),
        empty_stacks_only_last(samples),
        counts_nonnegative(samples),
    ensures
        state_ok(samples, k, merge_prefix(samples, k)),
    decreases k,
{
    if k > 0 {
        lemma_merge_prefix_ok(samples, k - 1);
        let st = merge_prefix(samples, k - 1);
        let s = samples[k - 1];
        let nst = merge_step(st, s);
        assert(merge_prefix(samples, k) == nst);
        let shared = shared_depth(st, s);
        if st.last.len() > 0 {
            lemma_common_prefix_root(st.last, s.stack, 0);
            lemma_common_prefix_bound(st.last, s.stack, 0);
            assert(root_path(st.last)[0] == root_path(s.stack)[0]);
            assert(1 <= shared <= st.open.len());
        } else {
            assert(k == 1);
        }
        let closed = if st.last.len() == 0 {
            Seq::empty()
        } else {
            closing_frames(root_path(st.last), st.open, shared, st.time)
        };
        assert(nst.frames == st.frames + closed);
        assert forall|i: int| 0 <= i < nst.frames.len() implies 0 <= #[trigger] nst.frames[i].start
            <= nst.frames[i].end <= nst.time by {
            if i >= st.frames.len() {
                assert(nst.frames[i] == closed[i - st.frames.len()]);
            }
        }
        assert forall|i: int| 0 <= i < nst.open.len() implies 0 <= #[trigger] nst.open[i].0 <= nst.time by {
            if i < shared {
                assert(nst.open[i] == st.open[i]);
            }
        }
        if no_deltas(samples) {
            assert(s.delta is None);
            assert forall|i: int| 0 <= i < nst.frames.len() implies #[trigger] nst.frames[i].delta is None by {
                if i >= st.frames.len() {
                    assert(nst.frames[i] == closed[i - st.frames.len()]);
                }
            }
            assert forall|i: int| 0 <= i < nst.open.len() implies #[trigger] nst.open[i].1 is None by {
                if i < shared {
                    assert(nst.open[i] == st.open[i]);
                }
            }
        }
        if k > 1 {
            assert(nst.open[0] == st.open[0]);
        }
    }
}

/// Law: every merged frame spans an interval of the total sample time, and that total is the
/// sum of the sample counts.
pub proof fn merged_frames_lie_within_total_time(samples: Seq<SampleSpec>)
    requires
        empty_stacks_only_last(samples),
        counts_nonnegative(samples),
    ensures
        merged(samples).1 == sum_counts(samples, samples.len() as int),
        forall|i: int| 0 <= i < merged(samples).0.len() ==> 0 <= #[trigger] merged(samples).0[i].start
            <= merged(samples).0[i].end <= merged(samples).1,
{
    let st = merge_prefix(samples, samples.len() as int);
    lemma_merge_prefix_ok(samples, samples.len() as int);
    if st.last.len() > 0 {
        let fl = closing_frames(root_path(st.last), st.open, 0, st.time);
        assert forall|i: int| 0 <= i < merge_finish(st).len() implies 0 <= #[trigger] merge_finish(st)[i].start
            <= merge_finish(st)[i].end <= st.time by {
            if i >= st.frames.len() {
                assert(merge_finish(st)[i] == fl[i - st.frames.len()]);
            }
        }
    }
}

/// Law: when the last stack is not empty, the root frame `""` at depth 0 spans the whole
/// sample time, from 0 to the total.
pub proof fn merged_root_frame_spans_everything(samples: Seq<SampleSpec>)
    requires
        empty_stacks_only_last(samples),
        counts_nonnegative(samples),
        samples.len() > 0,
        samples.last().stack.len() > 0,
    ensures
        exists|i: int| 0 <= i < merged(samples).0.len() && #[trigger] merged(samples).0[i].depth == 0
            && merged(samples).0[i].function == Seq::<char>::empty()
            && merged(samples).0[i].start == 0 && merged(samples).0[i].end == merged(samples).1,
{
    let st = merge_prefix(samples, samples.len() as int);
    lemma_merge_prefix_ok(samples, samples.len() as int);
    let fl = closing_frames(root_path(st.last), st.open, 0, st.time);
    let i = st.frames.len() as int;
    assert(merge_finish(st)[i] == fl[0]);
    assert(root_path(st.last)[0] == Seq::<char>::empty());
    assert(merged(samples).0[i].depth == 0);
}

/// Law: input without differential counts yields frames without deltas.
pub proof fn non_differential_input_has_no_deltas(samples: Seq<SampleSpec>)
    requires
        empty_stacks_only_last(samples),
        counts_nonnegative(samples),
        no_deltas(samples),
    ensures
        forall|i: int| 0 <= i < merged(samples).0.len() ==> #[trigger] merged(samples).0[i].delta is None,
        merged(samples).2 == 1,
{
    let st = merge_prefix(samples, samples.len() as int);
    lemma_merge_prefix_ok(samples, samples.len() as int);
    lemma_delta_max_one(samples, samples.len() as int);
    if st.last.len() > 0 {
        let fl = closing_frames(root_path(st.last), st.open, 0, st.time);
        assert forall|i: int| 0 <= i < merge_finish(st).len() implies #[trigger] merge_finish(st)[i].delta is None by {
            if i >= st.frames.len() {
                assert(merge_finish(st)[i] == fl[i - st.frames.len()]);
            }
        }
    }
}

proof fn lemma_delta_max_one(samples: Seq<SampleSpec>, k: int)
    requires
        0 <= k <= samples.len(),
        no_deltas(samples),
    ensures
        merge_prefix(samples, k).delta_max == 1,
    decreases k,
{
    if k > 0 {
        lemma_delta_max_one(samples, k - 1);
        assert(samples[k - 1].delta is None);
    }
}

proof fn lemma_delta_max_prefix(samples: Seq<SampleSpec>, k: int)
    requires
        0 <= k <= samples.len(),
    ensures
        merge_prefix(samples, k).delta_max >= 1,
        forall|i: int| 0 <= i < k && #[trigger] samples[i].delta is Some ==> -merge_prefix(samples, k).delta_max
            <= samples[i].delta->0 <= merge_prefix(samples, k).delta_max,
        merge_prefix(samples, k).delta_max == 1 || exists|i: int| 0 <= i < k && #[trigger] samples[i].delta is Some
            && (samples[i].delta->0 == merge_prefix(samples, k).delta_max
            || samples[i].delta->0 == -merge_prefix(samples, k).delta_max),
    decreases k,
{
    if k > 0 {
        lemma_delta_max_prefix(samples, k - 1);
        let prev = merge_prefix(samples, k - 1);
        let cur = merge_prefix(samples, k);
        assert(cur == merge_step(prev, samples[k - 1]));
        if cur.delta_max != prev.delta_max {
            assert(samples[k - 1].delta is Some);
        } else if prev.delta_max != 1 {
            let i = choose|i: int| 0 <= i < k - 1 && #[trigger] samples[i].delta is Some
                && (samples[i].delta->0 == prev.delta_max || samples[i].delta->0 == -prev.delta_max);
            assert(0 <= i < k && samples[i].delta is Some);
        }
    }
}

/// The largest delta of a merge is the largest change of any differential sample, an
/// increase or a decrease alike, and at least 1: no sample's change is bigger in either
/// direction, and it is 1 or the size of some sample's change.
pub proof fn delta_max_is_largest_change(samples: Seq<SampleSpec>)
    ensures
        merged(samples).2 >= 1,
        forall|i: int| 0 <= i < samples.len() && #[trigger] samples[i].delta is Some
            ==> -merged(samples).2 <= samples[i].delta->0 <= merged(samples).2,
        merged(samples).2 == 1 || exists|i: int| 0 <= i < samples.len() && #[trigger] samples[i].delta is Some
            && (samples[i].delta->0 == merged(samples).2 || samples[i].delta->0 == -merged(samples).2),
{
    lemma_delta_max_prefix(samples, samples.len() as int);
}

} // verus!
