//! Extra SVG attributes for the frames of particular functions.
use vstd::prelude::*;
use crate::keyed::{distinct_keys, has_key, keyed_map, lemma_keyed_map_absent, lemma_keyed_map_at, lemma_keyed_map_push, lemma_keyed_map_update};
use crate::flamegraph::merge::lines_view;
use crate::text::{
    chars_of, find, find_chars, find_chars_from, find_from, find_ws_from, find_ws_in,
    is_whitespace, last_word, last_ws_end, last_ws_end_in, leading_ws_in, lemma_find_from_bounds,
    lemma_find_from_suffix, lemma_find_ws_from, lemma_last_ws_end, lemma_leading_ws_bound, occurs_at,
    opt_str_view, pairs_view, slice_eq, split_chars, split_on, string_from_chars, strs_view,
    trim, trim_bounds, trim_start,
};

verus! {

/// Attributes to set on the SVG `g` element of a frame; `None` keeps the default.
pub struct GElementAttrs {
    pub class: Option<String>,
    pub id: Option<String>,
    pub style: Option<String>,
    pub onmouseover: Option<String>,
    pub onmouseout: Option<String>,
    pub onclick: Option<String>,
    /// Extra attributes to include.
    pub extra: Vec<(String, String)>,
}

/// Attributes to set on the SVG `a` element of a frame.
pub struct AElementAttrs {
    /// If `None`, no `a` element is added.
    pub href: Option<String>,
    /// Defaults to `_top`.
    pub target: Option<String>,
    /// Extra attributes to include.
    pub extra: Vec<(String, String)>,
}

/// Attributes to set on the SVG elements of a frame.
pub struct FrameAttrs {
    /// The text of the `title` element; if `None`, it is generated from the function name.
    pub title: Option<String>,
    pub g: GElementAttrs,
    pub a: AElementAttrs,
}

pub ghost struct FrameAttrsSpec {
    pub title: Option<Seq<char>>,
    pub g_class: Option<Seq<char>>,
    pub g_id: Option<Seq<char>>,
    pub g_style: Option<Seq<char>>,
    pub g_onmouseover: Option<Seq<char>>,
    pub g_onmouseout: Option<Seq<char>>,
    pub g_onclick: Option<Seq<char>>,
    pub g_extra: Seq<(Seq<char>, Seq<char>)>,
    pub a_href: Option<Seq<char>>,
    pub a_target: Option<Seq<char>>,
    pub a_extra: Seq<(Seq<char>, Seq<char>)>,
}

impl View for FrameAttrs {
    type V = FrameAttrsSpec;

    open spec fn view(&self) -> FrameAttrsSpec {
        FrameAttrsSpec {
            title: opt_str_view(self.title),
            g_class: opt_str_view(self.g.class),
            g_id: opt_str_view(self.g.id),
            g_style: opt_str_view(self.g.style),
            g_onmouseover: opt_str_view(self.g.onmouseover),
            g_onmouseout: opt_str_view(self.g.onmouseout),
            g_onclick: opt_str_view(self.g.onclick),
            g_extra: pairs_view(self.g.extra@),
            a_href: opt_str_view(self.a.href),
            a_target: opt_str_view(self.a.target),
            a_extra: pairs_view(self.a.extra@),
        }
    }
}

pub open spec fn default_attrs() -> FrameAttrsSpec {
    FrameAttrsSpec {
        title: None,
        g_class: None,
        g_id: None,
        g_style: None,
        g_onmouseover: None,
        g_onmouseout: None,
        g_onclick: None,
        g_extra: Seq::empty(),
        a_href: None,
        a_target: None,
        a_extra: Seq::empty(),
    }
}

impl FrameAttrs {
    pub fn new() -> (r: FrameAttrs)
        ensures
            r@ == default_attrs(),
    {
        let r = FrameAttrs {
            title: None,
            g: GElementAttrs {
                class: None,
                id: None,
                style: None,
                onmouseover: None,
                onmouseout: None,
                onclick: None,
                extra: Vec::new(),
            },
            a: AElementAttrs { href: None, target: None, extra: Vec::new() },
        };
        assert(pairs_view(r.g.extra@) =~= Seq::<(Seq<char>, Seq<char>)>::empty());
        assert(pairs_view(r.a.extra@) =~= Seq::<(Seq<char>, Seq<char>)>::empty());
        r
    }
}

// ------------------------------------------------------------------
// Extra attributes: `name=value name="quoted value" ...`
// ------------------------------------------------------------------

/// One step over an extra-attribute list: the next name, its value, and what follows.
/// The name is the last word before the next `=`; a value is either quoted or runs to the
/// next whitespace. `None` ends the list (no `=`, no name, or an unterminated quote).
pub open spec fn attr_step(s: Seq<char>) -> Option<(Seq<char>, Seq<char>, Seq<char>)> {
    match find(s, seq!['=']) {
        None => None,
        Some(e) => {
            let n0 = trim(s.take(e));
            if n0.len() == 0 {
                None
            } else {
                let rest = trim_start(s.skip(e + 1));
                if rest.len() > 0 && rest[0] == '"' {
                    match find(rest.skip(1), seq!['"']) {
                        None => None,
                        Some(q) => Some((last_word(n0), rest.subrange(1, q + 1), rest.skip(q + 1))),
                    }
                } else {
                    match find_ws_from(rest, 0) {
                        Some(w) => Some((last_word(n0), rest.take(w), rest.skip(w + 1))),
                        None => Some((last_word(n0), rest, Seq::empty())),
                    }
                }
            }
        },
    }
}

/// The step splits an unquoted value at a whitespace character that is more than one byte
/// long in UTF-8, which the byte-indexed slicing cannot do.
pub open spec fn attr_step_fails(s: Seq<char>) -> bool {
    match find(s, seq!['=']) {
        None => false,
        Some(e) => {
            let n0 = trim(s.take(e));
            let rest = trim_start(s.skip(e + 1));
            n0.len() > 0 && !(rest.len() > 0 && rest[0] == '"') && match find_ws_from(rest, 0) {
                Some(w) => (rest[w] as u32) >= 0x80,
                None => false,
            }
        },
    }
}

pub proof fn lemma_attr_step_shorter(s: Seq<char>)
    ensures
        attr_step(s) matches Some((_, _, r)) ==> r.len() < s.len(),
{
    lemma_find_from_bounds(s, seq!['='], 0);
    if let Some(e) = find(s, seq!['=']) {
        let rest = trim_start(s.skip(e + 1));
        lemma_leading_ws_bound(s.skip(e + 1));
        lemma_find_ws_from(rest, 0);
        if rest.len() > 0 {
            lemma_find_from_bounds(rest.skip(1), seq!['"'], 0);
        }
    }
}

/// The `(name, value)` pairs of an extra-attribute list.
pub open spec fn extra_attrs(s: Seq<char>) -> Seq<(Seq<char>, Seq<char>)>
    decreases s.len(),
{
    proof { lemma_attr_step_shorter(s); }
    match attr_step(s) {
        None => Seq::empty(),
        Some((n, v, r)) => seq![(n, v)] + extra_attrs(r),
    }
}

/// No step over the list fails.
pub open spec fn extra_attrs_ok(s: Seq<char>) -> bool
    decreases s.len(),
{
    proof { lemma_attr_step_shorter(s); }
    !attr_step_fails(s) && match attr_step(s) {
        None => true,
        Some((_, _, r)) => extra_attrs_ok(r),
    }
}

/// Parses an extra-attribute list.
pub fn parse_extra_attrs(s: &[char]) -> (r: Vec<(String, String)>)
    requires
        extra_attrs_ok(s@),
    ensures
        pairs_view(r@) == extra_attrs(s@),
{
    let mut out: Vec<(String, String)> = Vec::new();
    let mut cur: &[char] = s;
    let eq: [char; 1] = ['='];
    let quote: [char; 1] = ['"'];
    assert(eq@ =~= seq!['=']);
    assert(quote@ =~= seq!['"']);
    assert(pairs_view(out@) =~= Seq::<(Seq<char>, Seq<char>)>::empty());
    loop
        invariant
            pairs_view(out@) + extra_attrs(cur@) == extra_attrs(s@),
            extra_attrs_ok(cur@),
            eq@ == seq!['='],
            quote@ == seq!['"'],
        decreases cur@.len(),
    {
        proof {
            lemma_attr_step_shorter(cur@);
            lemma_find_from_bounds(cur@, seq!['='], 0);
        }
        let e = match find_chars(cur, eq.as_slice()) {
            None => {
                assert(extra_attrs(cur@) =~= Seq::<(Seq<char>, Seq<char>)>::empty());
                assert(pairs_view(out@) + extra_attrs(cur@) =~= pairs_view(out@));
                return out;
            },
            Some(e) => e,
        };
        assert(find(cur@, seq!['=']) == Some(e as int));
        assert(e + 1 <= cur.len());
        let (a, b) = trim_bounds(cur, 0, e);
        assert(cur@.subrange(0, e as int) =~= cur@.take(e as int));
        if a == b {
            assert(extra_attrs(cur@) =~= Seq::<(Seq<char>, Seq<char>)>::empty());
            assert(pairs_view(out@) + extra_attrs(cur@) =~= pairs_view(out@));
            return out;
        }
        let n0 = &cur[a..b];
        let k = last_ws_end_in(n0, n0.len());
        let name = string_from_chars(&n0[k..n0.len()]);
        assert(name@ == last_word(n0@));
        let rs = e + 1 + leading_ws_in(cur, e + 1, cur.len());
        let rest = &cur[rs..cur.len()];
        assert(cur@.subrange(e + 1, cur@.len() as int) =~= cur@.skip(e + 1));
        assert(rest@ =~= trim_start(cur@.skip(e + 1)));
        let value: String;
        let next: &[char];
        if rest.len() > 0 && rest[0] == '"' {
            proof {
                lemma_find_from_suffix(rest@, seq!['"'], 1, 0);
                lemma_find_from_bounds(rest@, seq!['"'], 1);
            }
            assert(rest@.subrange(1, rest@.len() as int) =~= rest@.skip(1));
            match find_chars_from(rest, quote.as_slice(), 1) {
                None => {
                    assert(extra_attrs(cur@) =~= Seq::<(Seq<char>, Seq<char>)>::empty());
                    assert(pairs_view(out@) + extra_attrs(cur@) =~= pairs_view(out@));
                    return out;
                },
                Some(q1) => {
                    value = string_from_chars(&rest[1..q1]);
                    next = &rest[q1..rest.len()];
                    assert(next@ =~= rest@.skip(q1 as int));
                },
            }
        } else {
            proof { lemma_find_ws_from(rest@, 0); }
            match find_ws_in(rest, 0) {
                Some(w) => {
                    value = string_from_chars(&rest[0..w]);
                    next = &rest[w + 1..rest.len()];
                    assert(rest@.subrange(0, w as int) =~= rest@.take(w as int));
                    assert(next@ =~= rest@.skip(w + 1));
                },
                None => {
                    value = string_from_chars(rest);
                    next = &rest[rest.len()..rest.len()];
                    assert(next@ =~= Seq::<char>::empty());
                },
            }
        }
        assert(attr_step(cur@) == Some((name@, value@, next@)));
        let ghost before = pairs_view(out@);
        out.push((name, value));
        assert(pairs_view(out@) =~= before.push((name@, value@)));
        assert(extra_attrs(cur@) == seq![(name@, value@)] + extra_attrs(next@));
        assert(pairs_view(out@) + extra_attrs(next@) =~= before + extra_attrs(cur@));
        cur = next;
    }
}


// ------------------------------------------------------------------
// Lines: `function<TAB>name=value<TAB>name=value...`
// ------------------------------------------------------------------

/// A line split at its first tab into the function name and the rest.
pub open spec fn split_tab(t: Seq<char>) -> (Seq<char>, Option<Seq<char>>) {
    match find(t, seq!['\t']) {
        None => (t, None),
        Some(i) => (t.take(i), Some(t.skip(i + 1))),
    }
}

/// A `name=value` item split at its first `=`; the name is trimmed.
pub open spec fn nameval_parts(nv: Seq<char>) -> (Seq<char>, Option<Seq<char>>) {
    match find(nv, seq!['=']) {
        None => (trim(nv), None),
        Some(e) => (trim(nv.take(e)), Some(nv.skip(e + 1))),
    }
}

/// A value with its enclosing double quotes removed.
pub open spec fn unquote(v: Seq<char>) -> Seq<char> {
    if v.len() >= 2 && v[0] == '"' && v[v.len() - 1] == '"' {
        v.subrange(1, v.len() - 1)
    } else {
        v
    }
}

/// A value that is a lone `"` both starts and ends with a quote but has nothing between.
pub open spec fn value_ok(v: Seq<char>) -> bool {
    !(v.len() == 1 && v[0] == '"')
}

pub open spec fn apply_nameval(fa: FrameAttrsSpec, piece: Seq<char>) -> FrameAttrsSpec {
    let (name, value) = nameval_parts(piece);
    if name.len() == 0 {
        fa
    } else {
        match value {
            None => fa,
            Some(v0) => {
                let v = unquote(trim(v0));
                if name == "title"@ {
                    FrameAttrsSpec { title: Some(v), ..fa }
                } else if name == "id"@ {
                    FrameAttrsSpec { g_id: Some(v), ..fa }
                } else if name == "class"@ {
                    FrameAttrsSpec { g_class: Some(v), ..fa }
                } else if name == "href"@ {
                    FrameAttrsSpec { a_href: Some(v), ..fa }
                } else if name == "target"@ {
                    FrameAttrsSpec { a_target: Some(v), ..fa }
                } else if name == "g_extra"@ {
                    FrameAttrsSpec { g_extra: fa.g_extra + extra_attrs(v), ..fa }
                } else if name == "a_extra"@ {
                    FrameAttrsSpec { a_extra: fa.a_extra + extra_attrs(v), ..fa }
                } else {
                    fa
                }
            },
        }
    }
}

pub open spec fn nameval_ok(piece: Seq<char>) -> bool {
    let (name, value) = nameval_parts(piece);
    name.len() > 0 ==> match value {
        None => true,
        Some(v0) => value_ok(trim(v0)) && ((name == "g_extra"@ || name == "a_extra"@) ==> extra_attrs_ok(
            unquote(trim(v0)),
        )),
    }
}

pub open spec fn apply_namevals(fa: FrameAttrsSpec, pieces: Seq<Seq<char>>, k: int) -> FrameAttrsSpec
    decreases k,
{
    if k <= 0 {
        fa
    } else {
        apply_nameval(apply_namevals(fa, pieces, k - 1), pieces[k - 1])
    }
}

/// The attributes map after one more line.
pub open spec fn process_attr_line(m: Map<Seq<char>, FrameAttrsSpec>, line: Seq<char>) -> Map<Seq<char>, FrameAttrsSpec> {
    let (func, nv) = split_tab(trim(line));
    if func.len() == 0 {
        m
    } else {
        let base = if m.contains_key(func) { m[func] } else { default_attrs() };
        match nv {
            None => m.insert(func, base),
            Some(nv) => {
                let pieces = split_on(nv, '\t');
                m.insert(func, apply_namevals(base, pieces, pieces.len() as int))
            },
        }
    }
}

pub open spec fn attr_line_ok(line: Seq<char>) -> bool {
    let (func, nv) = split_tab(trim(line));
    func.len() > 0 ==> match nv {
        None => true,
        Some(nv) => forall|i: int| 0 <= i < split_on(nv, '\t').len() ==> nameval_ok(#[trigger] split_on(nv, '\t')[i]),
    }
}

pub open spec fn attrs_from_lines(lines: Seq<Seq<char>>, k: int) -> Map<Seq<char>, FrameAttrsSpec>
    decreases k,
{
    if k <= 0 {
        Map::empty()
    } else {
        process_attr_line(attrs_from_lines(lines, k - 1), lines[k - 1])
    }
}

/// The attributes file text: one entry per line.
pub open spec fn attrs_from_text(text: Seq<char>) -> Map<Seq<char>, FrameAttrsSpec> {
    attrs_from_lines(split_on(text, '\n'), split_on(text, '\n').len() as int)
}

pub open spec fn attrs_text_ok(text: Seq<char>) -> bool {
    forall|i: int| 0 <= i < split_on(text, '\n').len() ==> attr_line_ok(#[trigger] split_on(text, '\n')[i])
}

fn eq_lit(s: &[char], lit: &str) -> (b: bool)
    ensures
        b == (s@ == lit@),
{
    let l = chars_of(lit);
    slice_eq(s, l.as_slice())
}

/// Applies one `name=value` item.
fn apply_nameval_exec(fa: &mut FrameAttrs, piece: &[char])
    requires
        nameval_ok(piece@),
    ensures
        final(fa)@ == apply_nameval(old(fa)@, piece@),
{
    let eq: [char; 1] = ['='];
    assert(eq@ =~= seq!['=']);
    proof { lemma_find_from_bounds(piece@, seq!['='], 0); }
    let e = match find_chars(piece, eq.as_slice()) {
        None => return,
        Some(e) => e,
    };
    let n = piece.len();
    assert(occurs_at(piece@, seq!['='], e as int));
    let (a, b) = trim_bounds(piece, 0, e);
    assert(piece@.subrange(0, e as int) =~= piece@.take(e as int));
    if a == b {
        return;
    }
    let (mut va, mut vb) = trim_bounds(piece, e + 1, n);
    assert(piece@.subrange(e + 1, piece@.len() as int) =~= piece@.skip(e + 1));
    if vb - va >= 2 && piece[va] == '"' && piece[vb - 1] == '"' {
        va = va + 1;
        vb = vb - 1;
    }
    let v = &piece[va..vb];
    assert(v@ == unquote(trim(piece@.skip(e + 1))));
    let name = &piece[a..b];
    let ghost old_fa = fa@;
    if eq_lit(name, "title") {
        fa.title = Some(string_from_chars(v));
    } else if eq_lit(name, "id") {
        fa.g.id = Some(string_from_chars(v));
    } else if eq_lit(name, "class") {
        fa.g.class = Some(string_from_chars(v));
    } else if eq_lit(name, "href") {
        fa.a.href = Some(string_from_chars(v));
    } else if eq_lit(name, "target") {
        fa.a.target = Some(string_from_chars(v));
    } else if eq_lit(name, "g_extra") {
        let mut extra = parse_extra_attrs(v);
        fa.g.extra.append(&mut extra);
        assert(pairs_view(fa.g.extra@) =~= old_fa.g_extra + extra_attrs(v@));
    } else if eq_lit(name, "a_extra") {
        let mut extra = parse_extra_attrs(v);
        fa.a.extra.append(&mut extra);
        assert(pairs_view(fa.a.extra@) =~= old_fa.a_extra + extra_attrs(v@));
    }
}

/// Provides a way to customize the attributes on the SVG elements for a frame.
pub struct FuncFrameAttrsMap {
    entries: Vec<(String, FrameAttrs)>,
}

pub open spec fn attrs_entries_view(e: Seq<(String, FrameAttrs)>) -> Seq<(Seq<char>, FrameAttrsSpec)> {
    e.map_values(|x: (String, FrameAttrs)| (x.0@, x.1@))
}

impl View for FuncFrameAttrsMap {
    type V = Map<Seq<char>, FrameAttrsSpec>;

    closed spec fn view(&self) -> Map<Seq<char>, FrameAttrsSpec> {
        keyed_map(attrs_entries_view(self.entries@))
    }
}

impl FuncFrameAttrsMap {
    #[verifier::type_invariant]
    closed spec fn keys_distinct(self) -> bool {
        distinct_keys(attrs_entries_view(self.entries@))
    }

    pub fn new() -> (m: FuncFrameAttrsMap)
        ensures
            m@ == Map::<Seq<char>, FrameAttrsSpec>::empty(),
    {
        let m = FuncFrameAttrsMap { entries: Vec::new() };
        assert(m@ =~= Map::<Seq<char>, FrameAttrsSpec>::empty());
        m
    }

    fn index_of(&self, func: &[char]) -> (r: Option<usize>)
        ensures
            r matches Some(i) ==> i < self.entries@.len() && self.entries@[i as int].0@ == func@,
            r is None ==> forall|i: int| 0 <= i < self.entries@.len() ==> #[trigger] self.entries@[i].0@ != func@,
    {
        let mut i: usize = 0;
        while i < self.entries.len()
            invariant
                i <= self.entries@.len(),
                forall|j: int| 0 <= j < i ==> #[trigger] self.entries@[j].0@ != func@,
            decreases self.entries.len() - i,
        {
            let name = chars_of(self.entries[i].0.as_str());
            if slice_eq(name.as_slice(), func) {
                return Some(i);
            }
            i += 1;
        }
        None
    }

    /// Returns the attributes for the given function name, if it has any.
    pub fn frameattrs_for_func(&self, func: &str) -> (r: Option<&FrameAttrs>)
        ensures
            r matches Some(fa) ==> self@.contains_key(func@) && self@[func@] == fa@,
            r is None ==> !self@.contains_key(func@),
    {
        proof { use_type_invariant(self); }
        let f = chars_of(func);
        match self.index_of(f.as_slice()) {
            Some(i) => {
                proof { lemma_keyed_map_at(attrs_entries_view(self.entries@), i as int); }
                Some(&self.entries[i].1)
            },
            None => {
                proof {
                    let e = attrs_entries_view(self.entries@);
                    assert forall|j: int| 0 <= j < e.len() implies #[trigger] e[j].0 != func@ by {
                        assert(e[j].0 == self.entries@[j].0@);
                    }
                    lemma_keyed_map_absent(e, func@);
                }
                None
            },
        }
    }

    /// Applies one line of an attributes file.
    fn process_line(&mut self, line: &[char])
        requires
            attr_line_ok(line@),
        ensures
            final(self)@ == process_attr_line(old(self)@, line@),
    {
        proof { use_type_invariant(&*self); }
        let tab: [char; 1] = ['\t'];
        assert(tab@ =~= seq!['\t']);
        let (lo, hi) = trim_bounds(line, 0, line.len());
        assert(line@.subrange(0, line@.len() as int) =~= line@);
        let t = &line[lo..hi];
        proof { lemma_find_from_bounds(t@, seq!['\t'], 0); }
        let (func, rest): (&[char], Option<&[char]>) = match find_chars(t, tab.as_slice()) {
            None => (t, None),
            Some(i) => (&t[0..i], Some(&t[i + 1..t.len()])),
        };
        assert(func@ == split_tab(t@).0) by {
            if let Some(i) = find(t@, seq!['\t']) {
                assert(t@.subrange(0, i) =~= t@.take(i));
            }
        }
        if func.len() == 0 {
            return;
        }
        let idx = self.index_of(func);
        let mut entries: Vec<(String, FrameAttrs)> = Vec::new();
        core::mem::swap(&mut entries, &mut self.entries);
        let ghost e0 = attrs_entries_view(entries@);
        let mut fa = match idx {
            Some(i) => {
                proof { lemma_keyed_map_at(e0, i as int); }
                let (_, fa) = entries.remove(i);
                fa
            },
            None => {
                proof {
                    assert forall|j: int| 0 <= j < e0.len() implies #[trigger] e0[j].0 != func@ by {
                        assert(e0[j].0 == entries@[j].0@);
                    }
                    lemma_keyed_map_absent(e0, func@);
                }
                FrameAttrs::new()
            },
        };
        let ghost base = fa@;
        match rest {
            None => {},
            Some(nv) => {
                assert(nv@ == split_tab(t@).1->Some_0) by {
                    let i = find(t@, seq!['\t'])->Some_0;
                    assert(nv@ =~= t@.skip(i + 1));
                }
                let pieces = split_chars(nv, '\t');
                let ghost pv = split_on(nv@, '\t');
                let mut k: usize = 0;
                while k < pieces.len()
                    invariant
                        k <= pieces@.len(),
                        strs_view(pieces@) == pv,
                        forall|i: int| 0 <= i < pv.len() ==> nameval_ok(#[trigger] pv[i]),
                        fa@ == apply_namevals(base, pv, k as int),
                    decreases pieces.len() - k,
                {
                    let pc = chars_of(pieces[k].as_str());
                    assert(pv[k as int] == pieces@[k as int]@);
                    apply_nameval_exec(&mut fa, pc.as_slice());
                    k += 1;
                }
            },
        }
        let name = string_from_chars(func);
        match idx {
            Some(i) => {
                entries.insert(i, (name, fa));
                proof {
                    let e1 = attrs_entries_view(entries@);
                    assert(e1 =~= e0.update(i as int, (e0[i as int].0, fa@)));
                    lemma_keyed_map_update(e0, i as int, fa@);
                }
            },
            None => {
                entries.push((name, fa));
                proof {
                    let e1 = attrs_entries_view(entries@);
                    assert(e1 =~= e0.push((func@, fa@)));
                    lemma_keyed_map_push(e0, func@, fa@);
                }
            },
        }
        self.entries = entries;
    }

    /// Parses frame attributes from the text of an attributes file.
    ///
    /// Each line consists of a function name, a tab (`\t`), and then a sequence of
    /// tab-separated `name=value` pairs.
    pub fn from_reader(text: &str) -> (r: FuncFrameAttrsMap)
        requires
            attrs_text_ok(text@),
        ensures
            r@ == attrs_from_text(text@),
    {
        let chars = chars_of(text);
        let lines = split_chars(chars.as_slice(), '\n');
        let ghost lv = split_on(text@, '\n');
        let mut m = FuncFrameAttrsMap::new();
        let mut i: usize = 0;
        while i < lines.len()
            invariant
                i <= lines@.len(),
                strs_view(lines@) == lv,
                attrs_text_ok(text@),
                lv == split_on(text@, '\n'),
                m@ == attrs_from_lines(lv, i as int),
            decreases lines.len() - i,
        {
            let l = chars_of(lines[i].as_str());
            assert(lv[i as int] == lines@[i as int]@);
            m.process_line(l.as_slice());
            i += 1;
        }
        m
    }
}

} // verus!
