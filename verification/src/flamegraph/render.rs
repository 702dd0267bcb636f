//! The decisions of drawing a flame graph that do not depend on measuring text: where a plot
//! grows, which attributes a frame gets, how a label is shortened, and how stacks are reversed.
use vstd::prelude::*;
use crate::flamegraph::attrs::FrameAttrs;
use crate::text::{
    all_ascii_digits, chars_of, ends_with, ends_with_chars, find, find_chars, is_ascii_digit,
    lemma_find_from_bounds, lemma_rfind_bounds, push_range, push_str, rfind, rfind_chars, split_chars,
    split_on, string_from_chars, strs_view, trim, trim_bounds, occurs_at,
};

verus! {

/// The direction the plot should grow.
#[derive(Clone, Copy, PartialEq, Eq, Structural, Debug)]
pub enum Direction {
    /// Stacks grow from the bottom to the top; the `(all)` frame is at the bottom.
    Straight,
    /// Stacks grow from the top to the bottom; the `(all)` frame is at the top.
    Inverted,
}

impl Default for Direction {
    fn default() -> (d: Direction)
        ensures
            d == Direction::Straight,
    {
        Direction::Straight
    }
}

/// The attributes that the SVG elements of one frame get.
pub struct FrameAttributes<'a> {
    pub title: &'a str,
    pub class: &'a str,
    pub onmouseover: &'a str,
    pub onmouseout: &'a str,
    pub onclick: &'a str,
    pub style: Option<&'a str>,
    pub g_extra: Option<&'a Vec<(String, String)>>,
    pub href: Option<&'a str>,
    pub target: &'a str,
    pub a_extra: Option<&'a Vec<(String, String)>>,
}

/// The value set in `attributes` where there is one, else `default`.
pub open spec fn chosen(set: Option<String>, default: Seq<char>) -> Seq<char> {
    match set {
        Some(s) => s@,
        None => default,
    }
}

pub open spec fn opt_ref_view(o: Option<&str>) -> Option<Seq<char>> {
    match o {
        Some(s) => Some(s@),
        None => None,
    }
}

pub open spec fn opt_string_view(o: Option<String>) -> Option<Seq<char>> {
    match o {
        Some(s) => Some(s@),
        None => None,
    }
}

fn pick<'a>(set: &'a Option<String>, default: &'a str) -> (r: &'a str)
    ensures
        r@ == chosen(*set, default@),
{
    match set {
        Some(s) => s.as_str(),
        None => default,
    }
}

fn pick_opt<'a>(set: &'a Option<String>) -> (r: Option<&'a str>)
    ensures
        opt_ref_view(r) == opt_string_view(*set),
{
    match set {
        Some(s) => Some(s.as_str()),
        None => None,
    }
}

/// The attributes of a frame: the defaults, with whatever the frame's entry in the attributes
/// file sets in their place, and its extra attributes added.
pub fn override_or_add_attributes<'a>(title: &'a str, attributes: Option<&'a FrameAttrs>) -> (r: FrameAttributes<'a>)
    ensures
        match attributes {
            None => {
                &&& r.title@ == title@
                &&& r.class@ == "func_g"@
                &&& r.onmouseover@ == "s(this)"@
                &&& r.onmouseout@ == "c()"@
                &&& r.onclick@ == "zoom(this)"@
                &&& r.style is None
                &&& r.g_extra is None
                &&& r.href is None
                &&& r.target@ == "_top"@
                &&& r.a_extra is None
            },
            Some(a) => {
                &&& r.title@ == chosen(a.title, title@)
                &&& r.class@ == chosen(a.g.class, "func_g"@)
                &&& r.onmouseover@ == chosen(a.g.onmouseover, "s(this)"@)
                &&& r.onmouseout@ == chosen(a.g.onmouseout, "c()"@)
                &&& r.onclick@ == chosen(a.g.onclick, "zoom(this)"@)
                &&& opt_ref_view(r.style) == opt_string_view(a.g.style)
                &&& r.g_extra == Some(&a.g.extra)
                &&& opt_ref_view(r.href) == opt_string_view(a.a.href)
                &&& r.target@ == chosen(a.a.target, "_top"@)
                &&& r.a_extra == Some(&a.a.extra)
            },
        },
{
    match attributes {
        None => FrameAttributes {
            title,
            class: "func_g",
            onmouseover: "s(this)",
            onmouseout: "c()",
            onclick: "zoom(this)",
            style: None,
            g_extra: None,
            href: None,
            target: "_top",
            a_extra: None,
        },
        Some(a) => FrameAttributes {
            title: pick(&a.title, title),
            class: pick(&a.g.class, "func_g"),
            onmouseover: pick(&a.g.onmouseover, "s(this)"),
            onmouseout: pick(&a.g.onmouseout, "c()"),
            onclick: pick(&a.g.onclick, "zoom(this)"),
            style: pick_opt(&a.g.style),
            g_extra: Some(&a.g.extra),
            href: pick_opt(&a.a.href),
            target: pick(&a.a.target, "_top"),
            a_extra: Some(&a.a.extra),
        },
    }
}

/// The box that a frame is drawn in.
pub struct Rectangle {
    pub x1: usize,
    pub y1: usize,
    pub x2: usize,
    pub y2: usize,
}

impl Rectangle {
    pub fn width(&self) -> (w: usize)
        requires
            self.x1 <= self.x2,
        ensures
            w == self.x2 - self.x1,
    {
        self.x2 - self.x1
    }

    pub fn height(&self) -> (h: usize)
        requires
            self.y1 <= self.y2,
        ensures
            h == self.y2 - self.y1,
    {
        self.y2 - self.y1
    }
}

/// A function name without its annotation: a trailing `_[k]`, `_[w]`, `_[i]` or `_[j]` goes.
pub open spec fn deannotated(f: Seq<char>) -> Seq<char> {
    if ends_with(f, seq![']']) {
        match rfind(f, seq!['_', '[']) {
            Some(ai) => if f.len() - ai == 4 && (f[ai + 2] == 'k' || f[ai + 2] == 'w' || f[ai + 2] == 'i'
                || f[ai + 2] == 'j') {
                f.take(ai)
            } else {
                f
            },
            None => f,
        }
    } else {
        f
    }
}

/// Removes the annotation (`_[k]`, `_[w]`, `_[i]` or `_[j]`) from the end of a function name.
pub fn deannotate(f: &str) -> (r: String)
    ensures
        r@ == deannotated(f@),
{
    let c = chars_of(f);
    let close: [char; 1] = [']'];
    let open: [char; 2] = ['_', '['];
    assert(close@ =~= seq![']']);
    assert(open@ =~= seq!['_', '[']);
    if ends_with_chars(c.as_slice(), close.as_slice()) {
        proof { lemma_rfind_bounds(c@, open@); }
        match rfind_chars(c.as_slice(), open.as_slice()) {
            Some(ai) => {
                if c.len() - ai == 4 {
                    let x = c[ai + 2];
                    if x == 'k' || x == 'w' || x == 'i' || x == 'j' {
                        let r = string_from_chars(&c[0..ai]);
                        assert(r@ =~= f@.take(ai as int));
                        return r;
                    }
                }
            },
            None => {},
        }
    }
    string_from_chars(c.as_slice())
}

/// The frame label that fits `fitchars` characters of room: nothing below 3, else the
/// function name without its annotation, cut to `fitchars - 2` characters and `..` when its
/// UTF-8 length is not below `fitchars`.
pub open spec fn label_text(func: Seq<char>, fitchars: usize) -> Seq<char> {
    if fitchars < 3 {
        Seq::empty()
    } else {
        let f = deannotated(func);
        if vstd::utf8::encode_utf8(f).len() < fitchars {
            f
        } else {
            f.take(if f.len() < fitchars - 2 { f.len() as int } else { fitchars - 2 }) + ".."@
        }
    }
}

/// The label of a frame with room for `fitchars` characters.
pub fn truncated_label(func: &str, fitchars: usize) -> (r: String)
    ensures
        r@ == label_text(func@, fitchars),
{
    if fitchars < 3 {
        return String::new();
    }
    let f = deannotate(func);
    let nbytes = f.as_str().as_bytes().len();
    if nbytes < fitchars {
        return f;
    }
    let c = chars_of(f.as_str());
    let keep = if c.len() < fitchars - 2 { c.len() } else { fitchars - 2 };
    let mut out: Vec<char> = Vec::new();
    push_range(&mut out, c.as_slice(), 0, keep);
    push_str(&mut out, "..");
    assert(c@.subrange(0, keep as int) =~= c@.take(keep as int));
    string_from_chars(out.as_slice())
}

/// The position, in characters, of the sample count at the end of a line: after its last
/// space, where what follows is digits, or digits, a `.` and digits.
pub open spec fn sample_count_at(line: Seq<char>) -> Option<int> {
    match rfind(line, seq![' ']) {
        None => None,
        Some(i) => {
            let s = line.skip(i + 1);
            let ok = match find(s, seq!['.']) {
                Some(d) => all_ascii_digits(s.take(d)) && all_ascii_digits(s.skip(d + 1)),
                None => all_ascii_digits(s),
            };
            if ok { Some(i + 1) } else { None }
        },
    }
}

fn all_digits_in(s: &[char], lo: usize, hi: usize) -> (b: bool)
    requires
        lo <= hi <= s@.len(),
    ensures
        b == all_ascii_digits(s@.subrange(lo as int, hi as int)),
{
    crate::text::all_ascii_digits_in(s, lo, hi)
}

/// Tries to find a sample count at the end of a line and returns its position in characters.
pub fn rfind_samples(line: &[char]) -> (r: Option<usize>)
    ensures
        match r {
            Some(i) => sample_count_at(line@) == Some(i as int),
            None => sample_count_at(line@) is None,
        },
        r matches Some(i) ==> 1 <= i <= line@.len(),
{
    let space: [char; 1] = [' '];
    let dot: [char; 1] = ['.'];
    assert(space@ =~= seq![' ']);
    assert(dot@ =~= seq!['.']);
    proof { lemma_rfind_bounds(line@, seq![' ']); }
    let i = match rfind_chars(line, space.as_slice()) {
        None => return None,
        Some(i) => i,
    };
    let n = line.len();
    let s = &line[i + 1..n];
    assert(s@ =~= line@.skip(i + 1));
    proof { lemma_find_from_bounds(s@, seq!['.'], 0); }
    let ok = match find_chars(s, dot.as_slice()) {
        Some(d) => {
            assert(s@.subrange(0, d as int) =~= s@.take(d as int));
            assert(s@.subrange(d + 1, s@.len() as int) =~= s@.skip(d + 1));
            all_digits_in(s, 0, d) && all_digits_in(s, d + 1, s.len())
        },
        None => {
            assert(s@.subrange(0, s@.len() as int) =~= s@);
            all_digits_in(s, 0, s.len())
        },
    };
    if ok {
        Some(i + 1)
    } else {
        None
    }
}

/// The pieces from last to first, joined by `;`.
pub open spec fn join_reversed(p: Seq<Seq<char>>) -> Seq<char>
    decreases p.len(),
{
    if p.len() == 0 {
        Seq::empty()
    } else if p.len() == 1 {
        p[0]
    } else {
        p.last() + seq![';'] + join_reversed(p.drop_last())
    }
}

/// A folded line with the order of its stack reversed: the stack before the sample count (or
/// the two counts of differential input) is split at `;`, its frames reversed, and the counts
/// kept after a space.
pub open spec fn reversed_stack_line(line: Seq<char>) -> Seq<char> {
    let i1 = match sample_count_at(line) {
        Some(i) => i,
        None => line.len() as int,
    };
    let i = match sample_count_at(line.take(i1 - 1)) {
        Some(j) => j,
        None => i1,
    };
    join_reversed(split_on(trim(line.take(i)), ';')) + seq![' '] + line.skip(i)
}

/// Reverses the order of the stack of a folded line (for a stack-reversed flame graph).
pub fn reverse_stack_line(line: &str) -> (r: String)
    requires
        line@.len() > 0,
    ensures
        r@ == reversed_stack_line(line@),
{
    let c = chars_of(line);
    let n = c.len();
    let i1 = match rfind_samples(c.as_slice()) {
        Some(i) => i,
        None => n,
    };
    let head = &c[0..i1 - 1];
    assert(head@ =~= line@.take(i1 - 1));
    let i = match rfind_samples(head) {
        Some(j) => j,
        None => i1,
    };
    let (lo, hi) = trim_bounds(c.as_slice(), 0, i);
    let parts = split_chars(&c[lo..hi], ';');
    let ghost p = split_on(trim(line@.take(i as int)), ';');
    assert(c@.subrange(0, i as int) =~= line@.take(i as int));
    let mut out: Vec<char> = Vec::new();
    let np = parts.len();
    let mut k: usize = np;
    while k > 0
        invariant
            k <= np == parts@.len(),
            strs_view(parts@) == p,
            out@ == join_reversed_from(p, k as int),
        decreases k,
    {
        if k < np {
            out.push(';');
        }
        push_str(&mut out, parts[k - 1].as_str());
        assert(p[k - 1] == parts@[k - 1]@);
        k -= 1;
    }
    proof { lemma_join_reversed_from(p); }
    out.push(' ');
    push_range(&mut out, c.as_slice(), i, n);
    assert(c@.subrange(i as int, n as int) =~= line@.skip(i as int));
    string_from_chars(out.as_slice())
}

/// The pieces `p[k..]` from last to first, joined by `;`.
pub open spec fn join_reversed_from(p: Seq<Seq<char>>, k: int) -> Seq<char>
    decreases p.len() - k,
{
    if k >= p.len() || k < 0 {
        Seq::empty()
    } else if k == p.len() - 1 {
        p[k]
    } else {
        join_reversed_from(p, k + 1) + seq![';'] + p[k]
    }
}

proof fn lemma_join_reversed_from(p: Seq<Seq<char>>)
    ensures
        join_reversed_from(p, 0) == join_reversed(p),
    decreases p.len(),
{
    if p.len() > 1 {
        lemma_join_reversed_from(p.drop_last());
        lemma_join_from_drop_last(p, 0);
    }
}

proof fn lemma_join_from_drop_last(p: Seq<Seq<char>>, k: int)
    requires
        0 <= k < p.len() - 1,
    ensures
        join_reversed_from(p, k) == p.last() + seq![';'] + join_reversed_from(p.drop_last(), k),
    decreases p.len() - k,
{
    let q = p.drop_last();
    assert(q[k] == p[k]);
    if k < p.len() - 2 {
        lemma_join_from_drop_last(p, k + 1);
        assert(join_reversed_from(p, k) =~= p.last() + seq![';'] + join_reversed_from(q, k));
    } else {
        assert(join_reversed_from(p, k + 1) == p.last());
        assert(join_reversed_from(q, k) == q[k]);
        assert(join_reversed_from(p, k) =~= p.last() + seq![';'] + join_reversed_from(q, k));
    }
}


/// `slice::sort_unstable` on strings: the same strings, in increasing order; for `str` that is
/// the order of the characters' code points, compared one after the other. Nothing is said of
/// the order of equal strings, which cannot be told apart.
#[verifier::external_body]
fn sort_strings(v: &mut Vec<String>)
    ensures
        strs_view(final(v)@).to_multiset() == strs_view(old(v)@).to_multiset(),
        forall|i: int, j: int| 0 <= i < j < final(v)@.len() ==> !crate::text::chars_lt(#[trigger] final(v)@[j]@, #[trigger] final(v)@[i]@),
{
    v.sort_unstable();
}

/// The lines a flame graph is drawn from: sorted, unless `no_sort`; with `reverse`, each
/// stack reversed and then sorted whatever `no_sort` says. `None` where an empty line is to be
/// reversed.
pub fn prepared_lines(lines: &[&str], no_sort: bool, reverse: bool) -> (r: Option<Vec<String>>)
    ensures
        match r {
            None => reverse && exists|i: int| 0 <= i < lines@.len() && #[trigger] lines@[i]@.len() == 0,
            Some(v) => {
                let given = if reverse {
                    lines@.map_values(|l: &str| reversed_stack_line(l@))
                } else {
                    lines@.map_values(|l: &str| l@)
                };
                &&& !(reverse && exists|i: int| 0 <= i < lines@.len() && #[trigger] lines@[i]@.len() == 0)
                &&& if no_sort && !reverse {
                    strs_view(v@) == given
                } else {
                    &&& strs_view(v@).to_multiset() == given.to_multiset()
                    &&& forall|i: int, j: int| 0 <= i < j < v@.len() ==> !crate::text::chars_lt(#[trigger] v@[j]@, #[trigger] v@[i]@)
                }
            },
        },
{
    let ghost given = if reverse {
        lines@.map_values(|l: &str| reversed_stack_line(l@))
    } else {
        lines@.map_values(|l: &str| l@)
    };
    let mut v: Vec<String> = Vec::new();
    let mut i: usize = 0;
    while i < lines.len()
        invariant
            i <= lines@.len(),
            given == (if reverse {
                lines@.map_values(|l: &str| reversed_stack_line(l@))
            } else {
                lines@.map_values(|l: &str| l@)
            }),
            strs_view(v@) == given.take(i as int),
            reverse ==> forall|j: int| 0 <= j < i ==> #[trigger] lines@[j]@.len() > 0,
        decreases lines.len() - i,
    {
        let ghost before = strs_view(v@);
        let item = if reverse {
            if lines[i].is_empty() {
                assert(lines@[i as int]@.len() == 0);
                return None;
            }
            reverse_stack_line(lines[i])
        } else {
            string_from_chars(chars_of(lines[i]).as_slice())
        };
        assert(item@ == given[i as int]);
        v.push(item);
        assert(strs_view(v@) =~= before.push(item@));
        assert(given.take(i + 1) =~= given.take(i as int).push(given[i as int]));
        i += 1;
    }
    assert(given.take(lines@.len() as int) =~= given);
    if !no_sort || reverse {
        sort_strings(&mut v);
    }
    Some(v)
}


/// What the style section of the drawing depends on: the image height and the two colors of
/// the background gradient.
pub struct StyleOptions<'a> {
    pub imageheight: usize,
    pub bgcolor1: &'a str,
    pub bgcolor2: &'a str,
}

impl<'a> StyleOptions<'a> {
    pub fn new(imageheight: usize, bgcolor1: &'a str, bgcolor2: &'a str) -> (s: StyleOptions<'a>)
        ensures
            s.imageheight == imageheight,
            s.bgcolor1 == bgcolor1,
            s.bgcolor2 == bgcolor2,
    {
        StyleOptions { imageheight, bgcolor1, bgcolor2 }
    }
}

proof fn lemma_last_occurrence(s: Seq<char>, p: Seq<char>, i: int, before: int)
    requires
        occurs_at(s, p, i),
        i < before,
        forall|j: int| i < j < before ==> !occurs_at(s, p, j),
    ensures
        crate::text::rfind_before(s, p, before) == Some(i),
    decreases before,
{
    if before - 1 > i {
        lemma_last_occurrence(s, p, i, before - 1);
    }
}

/// The annotations that collapsers put after a function name, `_[k]` (kernel), `_[w]`
/// (waker), `_[i]` (inlined) and `_[j]` (JIT), are not drawn: a name with one of them is
/// stripped back to the name, and its frame gets the same label as the name alone (where the
/// name itself ends in no annotation), however much room there is.
pub proof fn annotations_are_not_drawn(n: Seq<char>, a: Seq<char>, fitchars: usize)
    requires
        a == "_[k]"@ || a == "_[w]"@ || a == "_[i]"@ || a == "_[j]"@,
    ensures
        deannotated(n + a) == n,
        deannotated(n) == n ==> label_text(n + a, fitchars) == label_text(n, fitchars),
{
    reveal_strlit("_[k]");
    reveal_strlit("_[w]");
    reveal_strlit("_[i]");
    reveal_strlit("_[j]");
    let f = n + a;
    let m = n.len() as int;
    assert(a.len() == 4 && a[0] == '_' && a[1] == '[' && a[3] == ']');
    assert(a[2] == 'k' || a[2] == 'w' || a[2] == 'i' || a[2] == 'j');
    assert(f[m] == '_' && f[m + 1] == '[' && f[m + 2] == a[2] && f[m + 3] == ']');
    assert(ends_with(f, seq![']'])) by {
        assert(f.subrange(f.len() - 1, f.len() as int) =~= seq![']']);
    }
    assert(occurs_at(f, seq!['_', '['], m)) by {
        assert(f.subrange(m, m + 2) =~= seq!['_', '[']);
    }
    assert forall|j: int| m < j < f.len() + 1 implies !occurs_at(f, seq!['_', '['], j) by {
        if occurs_at(f, seq!['_', '['], j) {
            assert(f.subrange(j, j + 2)[0] == f[j]);
        }
    }
    lemma_last_occurrence(f, seq!['_', '['], m, f.len() + 1int);
    assert(f.take(m) =~= n);
}

} // verus!
