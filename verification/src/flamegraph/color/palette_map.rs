//! Consistent colors per function name.
use vstd::prelude::*;
use crate::flamegraph::color::decimal_u8;
use crate::flamegraph::color::push_decimal_u8;
use crate::text::{
    chars_lt, chars_lt_from, chars_of, find, find_chars, find_chars_from, lemma_chars_lt_irreflexive,
    lemma_chars_lt_total, lemma_chars_lt_transitive, lemma_find_from_bounds, lemma_find_from_suffix,
    parse_u8_in, parse_u8_text, push_range, str_eq, str_lt, string_from_chars, trim, trim_bounds,
    starts_with, ends_with,
};

verus! {

/// Mapping of function names to the colors used when drawing their frames.
pub struct PaletteMap {
    /// Entries in increasing order of name.
    entries: Vec<(String, (u8, u8, u8))>,
}

pub open spec fn entries_view(e: Seq<(String, (u8, u8, u8))>) -> Seq<(Seq<char>, (u8, u8, u8))> {
    e.map_values(|x: (String, (u8, u8, u8))| (x.0@, x.1))
}

/// Names strictly increase along the sequence.
pub open spec fn sorted_by_name(e: Seq<(Seq<char>, (u8, u8, u8))>) -> bool {
    forall|i: int, j: int| 0 <= i < j < e.len() ==> chars_lt(#[trigger] e[i].0, #[trigger] e[j].0)
}

pub open spec fn has_name(e: Seq<(Seq<char>, (u8, u8, u8))>, k: Seq<char>) -> bool {
    exists|i: int| 0 <= i < e.len() && #[trigger] e[i].0 == k
}

/// The map that a sequence of entries with distinct names stands for.
pub open spec fn entries_map(e: Seq<(Seq<char>, (u8, u8, u8))>) -> Map<Seq<char>, (u8, u8, u8)> {
    Map::new(
        |k: Seq<char>| has_name(e, k),
        |k: Seq<char>| e[choose|i: int| 0 <= i < e.len() && #[trigger] e[i].0 == k].1,
    )
}

/// In a sorted sequence, the entry of a name determines its value in the map.
pub proof fn lemma_entries_map_at(e: Seq<(Seq<char>, (u8, u8, u8))>, i: int)
    requires
        sorted_by_name(e),
        0 <= i < e.len(),
    ensures
        entries_map(e).contains_key(e[i].0),
        entries_map(e)[e[i].0] == e[i].1,
{
    assert(has_name(e, e[i].0));
    let j = choose|j: int| 0 <= j < e.len() && #[trigger] e[j].0 == e[i].0;
    if j != i {
        if j < i {
            assert(chars_lt(e[j].0, e[i].0));
        } else {
            assert(chars_lt(e[i].0, e[j].0));
        }
        lemma_chars_lt_irreflexive(e[i].0, 0);
    }
}

impl View for PaletteMap {
    type V = Map<Seq<char>, (u8, u8, u8)>;

    closed spec fn view(&self) -> Map<Seq<char>, (u8, u8, u8)> {
        entries_map(entries_view(self.entries@))
    }
}

impl PaletteMap {
    #[verifier::type_invariant]
    closed spec fn names_sorted(self) -> bool {
        sorted_by_name(entries_view(self.entries@))
    }

    /// An empty map.
    pub fn new() -> (m: PaletteMap)
        ensures
            m@ == Map::<Seq<char>, (u8, u8, u8)>::empty(),
    {
        let m = PaletteMap { entries: Vec::new() };
        assert(m@ =~= Map::<Seq<char>, (u8, u8, u8)>::empty());
        m
    }

    /// Position of the first entry whose name does not sort before `func`.
    fn position(&self, func: &str) -> (r: (usize, bool))
        ensures
            r.0 <= self.entries@.len(),
            forall|j: int| 0 <= j < r.0 ==> chars_lt(#[trigger] self.entries@[j].0@, func@),
            r.0 < self.entries@.len() ==> !chars_lt(self.entries@[r.0 as int].0@, func@),
            r.1 == (r.0 < self.entries@.len() && self.entries@[r.0 as int].0@ == func@),
    {
        let mut i: usize = 0;
        while i < self.entries.len() && str_lt(self.entries[i].0.as_str(), func)
            invariant
                i <= self.entries@.len(),
                forall|j: int| 0 <= j < i ==> chars_lt(#[trigger] self.entries@[j].0@, func@),
            decreases self.entries.len() - i,
        {
            i += 1;
        }
        let found = i < self.entries.len() && str_eq(self.entries[i].0.as_str(), func);
        (i, found)
    }

    /// Facts about where `func` stands relative to the (sorted) entries.
    proof fn lemma_position(self, func: Seq<char>, p: int)
        requires
            self.names_sorted(),
            0 <= p <= self.entries@.len(),
            forall|j: int| 0 <= j < p ==> chars_lt(#[trigger] self.entries@[j].0@, func),
            p < self.entries@.len() ==> !chars_lt(self.entries@[p].0@, func),
        ensures
            p < self.entries@.len() && self.entries@[p].0@ != func ==> forall|j: int|
                p <= j < self.entries@.len() ==> chars_lt(func, #[trigger] self.entries@[j].0@),
            !(p < self.entries@.len() && self.entries@[p].0@ == func) ==> !self@.contains_key(func),
    {
        let e = entries_view(self.entries@);
        if p < e.len() && e[p].0 != func {
            assert(e[p].0.take(0) =~= func.take(0));
            lemma_chars_lt_total(e[p].0, func, 0);
            assert forall|j: int| p <= j < e.len() implies chars_lt(func, #[trigger] self.entries@[j].0@) by {
                assert(e[j].0 == self.entries@[j].0@);
                if j > p {
                    lemma_chars_lt_transitive(func, e[p].0, e[j].0, 0);
                }
            }
        }
        if !(p < e.len() && e[p].0 == func) {
            if has_name(e, func) {
                let j = choose|j: int| 0 <= j < e.len() && #[trigger] e[j].0 == func;
                assert(e[j].0 == self.entries@[j].0@);
                lemma_chars_lt_irreflexive(func, 0);
                if j < p {
                    assert(chars_lt(self.entries@[j].0@, func));
                } else {
                    assert(chars_lt(func, self.entries@[j].0@));
                }
            }
        }
    }

    /// Returns the color of the given function name.
    pub fn get(&self, func: &str) -> (r: Option<(u8, u8, u8)>)
        ensures
            r == (if self@.contains_key(func@) { Some(self@[func@]) } else { None }),
    {
        proof { use_type_invariant(self); }
        let (i, found) = self.position(func);
        proof { self.lemma_position(func@, i as int); }
        if found {
            proof { lemma_entries_map_at(entries_view(self.entries@), i as int); }
            Some(self.entries[i].1)
        } else {
            None
        }
    }

    /// Inserts a function name/color pair, returning the color the name had before.
    pub fn insert(&mut self, func: &str, color: (u8, u8, u8)) -> (r: Option<(u8, u8, u8)>)
        ensures
            final(self)@ == old(self)@.insert(func@, color),
            r == (if old(self)@.contains_key(func@) { Some(old(self)@[func@]) } else { None }),
    {
        proof { use_type_invariant(&*self); }
        let (i, found) = self.position(func);
        proof { self.lemma_position(func@, i as int); }
        let ghost old_e = entries_view(self.entries@);
        let ghost old_map = self@;
        let name = func.to_owned();
        if found {
            proof { lemma_entries_map_at(old_e, i as int); }
            let prev = self.entries[i].1;
            let mut entries: Vec<(String, (u8, u8, u8))> = Vec::new();
            core::mem::swap(&mut entries, &mut self.entries);
            entries.set(i, (name, color));
            let ghost new_e = entries_view(entries@);
            assert(new_e =~= old_e.update(i as int, (func@, color)));
            proof { lemma_update_keeps_sorted(old_e, i as int, func@, color); }
            self.entries = entries;
            Some(prev)
        } else {
            let mut entries: Vec<(String, (u8, u8, u8))> = Vec::new();
            core::mem::swap(&mut entries, &mut self.entries);
            entries.insert(i, (name, color));
            let ghost new_e = entries_view(entries@);
            assert(new_e =~= old_e.insert(i as int, (func@, color)));
            proof { lemma_insert_keeps_sorted(old_e, i as int, func@, color); }
            self.entries = entries;
            None
        }
    }

    /// The entries of the map, in increasing order of name.
    pub fn iter(&self) -> (r: Vec<(String, (u8, u8, u8))>)
        ensures
            sorted_by_name(entries_view(r@)),
            entries_map(entries_view(r@)) == self@,
    {
        proof { use_type_invariant(self); }
        let mut r: Vec<(String, (u8, u8, u8))> = Vec::new();
        let mut i: usize = 0;
        while i < self.entries.len()
            invariant
                i <= self.entries@.len(),
                entries_view(r@) == entries_view(self.entries@).take(i as int),
            decreases self.entries.len() - i,
        {
            let e = (self.entries[i].0.clone(), self.entries[i].1);
            let ghost before = entries_view(r@);
            r.push(e);
            assert(entries_view(r@) =~= before.push((e.0@, e.1)));
            assert(entries_view(self.entries@).take(i + 1) =~= entries_view(self.entries@).take(i as int).push((e.0@, e.1)));
            i += 1;
        }
        assert(entries_view(self.entries@).take(i as int) =~= entries_view(self.entries@));
        r
    }

    /// Returns the color of `name` if it has one; otherwise computes a color with
    /// `compute_color`, records it for `name`, and returns it.
    pub fn find_color_for<F: FnOnce(&str) -> (u8, u8, u8)>(&mut self, name: &str, compute_color: F) -> (r: (u8, u8, u8))
        requires
            call_requires(compute_color, (name,)),
        ensures
            old(self)@.contains_key(name@) ==> r == old(self)@[name@] && final(self)@ == old(self)@,
            !old(self)@.contains_key(name@) ==> call_ensures(compute_color, (name,), r)
                && final(self)@ == old(self)@.insert(name@, r),
    {
        match self.get(name) {
            Some(c) => c,
            None => {
                let c = compute_color(name);
                self.insert(name, c);
                c
            },
        }
    }
}

/// One line of a palette file: `NAME->rgb(R,G,B)` followed by a newline.
pub open spec fn palette_line(name: Seq<char>, c: (u8, u8, u8)) -> Seq<char> {
    name + seq!['-', '>', 'r', 'g', 'b', '('] + decimal_u8(c.0) + seq![','] + decimal_u8(c.1)
        + seq![','] + decimal_u8(c.2) + seq![')', '\n']
}

/// The lines of the given entries, in order.
pub open spec fn palette_text(e: Seq<(Seq<char>, (u8, u8, u8))>) -> Seq<char>
    decreases e.len(),
{
    if e.len() == 0 {
        Seq::empty()
    } else {
        palette_text(e.drop_last()) + palette_line(e.last().0, e.last().1)
    }
}

impl PaletteMap {
    /// The map written as palette file lines (`NAME->rgb(R,G,B)`), sorted by name.
    pub fn to_stream(&self) -> (r: String)
        ensures
            exists|e: Seq<(Seq<char>, (u8, u8, u8))>| sorted_by_name(e) && entries_map(e) == self@
                && r@ == palette_text(e),
    {
        proof { use_type_invariant(self); }
        let ghost e = entries_view(self.entries@);
        let mut out: Vec<char> = Vec::new();
        let mut i: usize = 0;
        while i < self.entries.len()
            invariant
                i <= self.entries@.len(),
                e == entries_view(self.entries@),
                out@ == palette_text(e.take(i as int)),
            decreases self.entries.len() - i,
        {
            let name = chars_of(self.entries[i].0.as_str());
            let (r, g, b) = self.entries[i].1;
            let ghost before = out@;
            push_range(&mut out, name.as_slice(), 0, name.len());
            assert(name@.subrange(0, name@.len() as int) =~= name@);
            out.push('-');
            out.push('>');
            out.push('r');
            out.push('g');
            out.push('b');
            out.push('(');
            push_decimal_u8(&mut out, r);
            out.push(',');
            push_decimal_u8(&mut out, g);
            out.push(',');
            push_decimal_u8(&mut out, b);
            out.push(')');
            out.push('\n');
            assert(e.take(i + 1).drop_last() =~= e.take(i as int));
            assert(e[i as int] == (name@, (r, g, b)));
            assert(out@ =~= before + palette_line(name@, (r, g, b)));
            i += 1;
        }
        assert(e.take(i as int) =~= e);
        string_from_chars(out.as_slice())
    }
}

/// Why a palette file line could not be read.
#[derive(Debug, Clone, Copy, PartialEq, Eq, Structural)]
pub enum PaletteLineError {
    /// The line does not have exactly one `->` separator.
    InvalidInput,
    /// The color is not of the form `rgb(R, G, B)` with components from 0 to 255.
    InvalidData,
}

/// The color written `rgb(R, G, B)`; whitespace is allowed around the whole and around each
/// component, and each component is what `str::parse::<u8>` accepts.
pub open spec fn rgb_components(s: Seq<char>) -> Option<(u8, u8, u8)> {
    let t = trim(s);
    if !(starts_with(t, seq!['r', 'g', 'b', '(']) && ends_with(t, seq![')'])) {
        None
    } else {
        let inner = t.subrange(4, t.len() - 1);
        match find(inner, seq![',']) {
            None => None,
            Some(r_end) => match parse_u8_text(trim(inner.take(r_end))) {
                None => None,
                Some(r) => {
                    let rest = inner.skip(r_end + 1);
                    match find(rest, seq![',']) {
                        None => None,
                        Some(g_end) => match (parse_u8_text(trim(rest.take(g_end))), parse_u8_text(trim(rest.skip(g_end + 1)))) {
                            (Some(g), Some(b)) => Some((r, g, b)),
                            _ => None,
                        },
                    }
                },
            },
        }
    }
}

/// A palette file line `NAME->rgb(R, G, B)`, split at its only `->`.
pub open spec fn palette_entry(line: Seq<char>) -> Result<(Seq<char>, (u8, u8, u8)), PaletteLineError> {
    match find(line, seq!['-', '>']) {
        None => Err(PaletteLineError::InvalidInput),
        Some(i) => {
            let rest = line.skip(i + 2);
            if find(rest, seq!['-', '>']) is Some {
                Err(PaletteLineError::InvalidInput)
            } else {
                match rgb_components(rest) {
                    Some(c) => Ok((line.take(i), c)),
                    None => Err(PaletteLineError::InvalidData),
                }
            }
        },
    }
}

/// Parses `s[lo..hi]`, trimmed, as a component.
fn parse_component(s: &[char], lo: usize, hi: usize) -> (r: Option<u8>)
    requires
        lo <= hi <= s.len(),
    ensures
        r == parse_u8_text(trim(s@.subrange(lo as int, hi as int))),
{
    let (a, b) = trim_bounds(s, lo, hi);
    parse_u8_in(s, a, b)
}

/// Parses a color written `rgb(R, G, B)`.
pub fn parse_rgb_string(s: &str) -> (r: Option<(u8, u8, u8)>)
    ensures
        r == rgb_components(s@),
{
    let chars = chars_of(s);
    let (lo, hi) = trim_bounds(chars.as_slice(), 0, chars.len());
    assert(chars@.subrange(0, chars@.len() as int) =~= chars@);
    let t = &chars.as_slice()[lo..hi];
    assert(t@ == trim(s@));
    let open: [char; 4] = ['r', 'g', 'b', '('];
    let close: [char; 1] = [')'];
    let comma: [char; 1] = [','];
    assert(open@ =~= seq!['r', 'g', 'b', '(']);
    assert(close@ =~= seq![')']);
    assert(comma@ =~= seq![',']);
    if !(crate::text::starts_with_chars(t, open.as_slice()) && crate::text::ends_with_chars(t, close.as_slice())) {
        return None;
    }
    let inner = &t[4..t.len() - 1];
    assert(inner@ =~= t@.subrange(4, t@.len() - 1));
    proof { lemma_find_from_bounds(inner@, seq![','], 0); }
    let r_end = match find_chars(inner, comma.as_slice()) {
        None => return None,
        Some(x) => x,
    };
    assert(inner@.subrange(0, r_end as int) =~= inner@.take(r_end as int));
    let r = match parse_component(inner, 0, r_end) {
        None => return None,
        Some(x) => x,
    };
    let rest = &inner[r_end + 1..inner.len()];
    assert(rest@ =~= inner@.skip(r_end + 1));
    proof { lemma_find_from_bounds(rest@, seq![','], 0); }
    let g_end = match find_chars(rest, comma.as_slice()) {
        None => return None,
        Some(x) => x,
    };
    assert(rest@.subrange(0, g_end as int) =~= rest@.take(g_end as int));
    assert(rest@.subrange(g_end + 1, rest@.len() as int) =~= rest@.skip(g_end + 1));
    match (parse_component(rest, 0, g_end), parse_component(rest, g_end + 1, rest.len())) {
        (Some(g), Some(b)) => Some((r, g, b)),
        _ => None,
    }
}

/// Parses one palette file line, `NAME->rgb(R, G, B)`.
pub fn parse_line(line: &str) -> (r: Result<(String, (u8, u8, u8)), PaletteLineError>)
    ensures
        r matches Ok((n, c)) ==> palette_entry(line@) == Ok::<(Seq<char>, (u8, u8, u8)), PaletteLineError>((n@, c)),
        r matches Err(e) ==> palette_entry(line@) == Err::<(Seq<char>, (u8, u8, u8)), PaletteLineError>(e),
{
    let chars = chars_of(line);
    let arrow: [char; 2] = ['-', '>'];
    assert(arrow@ =~= seq!['-', '>']);
    proof { lemma_find_from_bounds(chars@, seq!['-', '>'], 0); }
    let i = match find_chars(chars.as_slice(), arrow.as_slice()) {
        None => return Err(PaletteLineError::InvalidInput),
        Some(i) => i,
    };
    let rest = &chars.as_slice()[i + 2..chars.len()];
    assert(rest@ =~= line@.skip(i + 2));
    if find_chars(rest, arrow.as_slice()).is_some() {
        return Err(PaletteLineError::InvalidInput);
    }
    let color_text = string_from_chars(rest);
    match parse_rgb_string(color_text.as_str()) {
        None => Err(PaletteLineError::InvalidData),
        Some(c) => {
            let name = string_from_chars(&chars.as_slice()[0..i]);
            assert(chars@.subrange(0, i as int) =~= line@.take(i as int));
            Ok((name, c))
        },
    }
}

/// The map built from palette file lines, later lines overriding earlier ones; the first
/// malformed line is an error.
pub open spec fn palette_from_lines(lines: Seq<Seq<char>>, k: int) -> Result<Map<Seq<char>, (u8, u8, u8)>, PaletteLineError>
    decreases k,
{
    if k <= 0 {
        Ok(Map::empty())
    } else {
        match palette_from_lines(lines, k - 1) {
            Err(e) => Err(e),
            Ok(m) => match palette_entry(lines[k - 1]) {
                Err(e) => Err(e),
                Ok((name, c)) => Ok(m.insert(name, c)),
            },
        }
    }
}

impl PaletteMap {
    /// Builds a map from palette file lines, each `NAME->rgb(RED, GREEN, BLUE)` with
    /// components from 0 to 255.
    pub fn from_lines(lines: &[&str]) -> (r: Result<PaletteMap, PaletteLineError>)
        ensures
            r matches Ok(m) ==> palette_from_lines(crate::flamegraph::merge::lines_view(lines@), lines@.len() as int) == Ok::<Map<Seq<char>, (u8, u8, u8)>, PaletteLineError>(m@),
            r matches Err(e) ==> palette_from_lines(crate::flamegraph::merge::lines_view(lines@), lines@.len() as int) == Err::<Map<Seq<char>, (u8, u8, u8)>, PaletteLineError>(e),
    {
        let ghost lv = crate::flamegraph::merge::lines_view(lines@);
        let mut m = PaletteMap::new();
        let mut i: usize = 0;
        while i < lines.len()
            invariant
                i <= lines@.len(),
                lv == crate::flamegraph::merge::lines_view(lines@),
                palette_from_lines(lv, i as int) == Ok::<Map<Seq<char>, (u8, u8, u8)>, PaletteLineError>(m@),
            decreases lines.len() - i,
        {
            assert(lv[i as int] == lines@[i as int]@);
            match parse_line(lines[i]) {
                Err(e) => {
                    assert(palette_from_lines(lv, i + 1) == Err::<Map<Seq<char>, (u8, u8, u8)>, PaletteLineError>(e));
                    proof { lemma_palette_error_sticks(lv, i + 1, lines@.len() as int); }
                    return Err(e);
                },
                Ok((name, c)) => {
                    m.insert(name.as_str(), c);
                },
            }
            i += 1;
        }
        Ok(m)
    }
}

/// Once a line is malformed, reading more lines keeps the error.
pub proof fn lemma_palette_error_sticks(lines: Seq<Seq<char>>, k: int, n: int)
    requires
        0 <= k <= n,
        palette_from_lines(lines, k) is Err,
    ensures
        palette_from_lines(lines, n) == palette_from_lines(lines, k),
    decreases n - k,
{
    if n > k {
        lemma_palette_error_sticks(lines, k, n - 1);
    }
}

impl Default for PaletteMap {
    fn default() -> (m: Self)
        ensures
            m@ == Map::<Seq<char>, (u8, u8, u8)>::empty(),
    {
        PaletteMap::new()
    }
}

proof fn lemma_update_keeps_sorted(e: Seq<(Seq<char>, (u8, u8, u8))>, i: int, k: Seq<char>, c: (u8, u8, u8))
    requires
        sorted_by_name(e),
        0 <= i < e.len(),
        e[i].0 == k,
    ensures
        sorted_by_name(e.update(i, (k, c))),
        entries_map(e.update(i, (k, c))) == entries_map(e).insert(k, c),
{
    let n = e.update(i, (k, c));
    assert forall|a: int, b: int| 0 <= a < b < n.len() implies chars_lt(#[trigger] n[a].0, #[trigger] n[b].0) by {
        assert(n[a].0 == e[a].0 && n[b].0 == e[b].0);
    }
    assert forall|x: Seq<char>| has_name(n, x) == (has_name(e, x) || x == k) by {
        if has_name(e, x) {
            let j = choose|j: int| 0 <= j < e.len() && #[trigger] e[j].0 == x;
            assert(n[j].0 == x);
        }
        if has_name(n, x) {
            let j = choose|j: int| 0 <= j < n.len() && #[trigger] n[j].0 == x;
            assert(e[j].0 == x);
        }
        if x == k {
            assert(n[i].0 == k);
        }
    }
    assert forall|x: Seq<char>| has_name(n, x) implies entries_map(n)[x] == entries_map(e).insert(k, c)[x] by {
        let j = choose|j: int| 0 <= j < n.len() && #[trigger] n[j].0 == x;
        lemma_entries_map_at(n, j);
        if j != i {
            assert(e[j] == n[j]);
            lemma_entries_map_at(e, j);
            lemma_chars_lt_irreflexive(k, 0);
            if j < i {
                assert(chars_lt(e[j].0, e[i].0));
            } else {
                assert(chars_lt(e[i].0, e[j].0));
            }
            assert(x != k);
            assert(entries_map(e).insert(k, c)[x] == entries_map(e)[x]);
        }
    }
    assert(entries_map(n) =~= entries_map(e).insert(k, c));
}

proof fn lemma_insert_keeps_sorted(e: Seq<(Seq<char>, (u8, u8, u8))>, i: int, k: Seq<char>, c: (u8, u8, u8))
    requires
        sorted_by_name(e),
        0 <= i <= e.len(),
        forall|j: int| 0 <= j < i ==> chars_lt(#[trigger] e[j].0, k),
        forall|j: int| i <= j < e.len() ==> chars_lt(k, #[trigger] e[j].0),
    ensures
        sorted_by_name(e.insert(i, (k, c))),
        entries_map(e.insert(i, (k, c))) == entries_map(e).insert(k, c),
{
    let n = e.insert(i, (k, c));
    assert forall|a: int, b: int| 0 <= a < b < n.len() implies chars_lt(#[trigger] n[a].0, #[trigger] n[b].0) by {
        if a < i && b < i {
            assert(n[a] == e[a] && n[b] == e[b]);
        } else if a < i && b == i {
            assert(n[a] == e[a]);
        } else if a < i {
            assert(n[a] == e[a] && n[b] == e[b - 1]);
            lemma_chars_lt_transitive(e[a].0, k, e[b - 1].0, 0);
        } else if a == i {
            assert(n[b] == e[b - 1]);
        } else {
            assert(n[a] == e[a - 1] && n[b] == e[b - 1]);
        }
    }
    assert forall|x: Seq<char>| has_name(n, x) == (has_name(e, x) || x == k) by {
        if has_name(e, x) {
            let j = choose|j: int| 0 <= j < e.len() && #[trigger] e[j].0 == x;
            if j < i {
                assert(n[j].0 == x);
            } else {
                assert(n[j + 1].0 == x);
            }
        }
        if has_name(n, x) {
            let j = choose|j: int| 0 <= j < n.len() && #[trigger] n[j].0 == x;
            if j < i {
                assert(e[j].0 == x);
            } else if j > i {
                assert(e[j - 1].0 == x);
            }
        }
        if x == k {
            assert(n[i].0 == k);
        }
    }
    assert forall|x: Seq<char>| has_name(n, x) implies entries_map(n)[x] == entries_map(e).insert(k, c)[x] by {
        let j = choose|j: int| 0 <= j < n.len() && #[trigger] n[j].0 == x;
        lemma_insert_value(e, i, k, c, j);
    }
    assert(entries_map(n) =~= entries_map(e).insert(k, c));
}

proof fn lemma_insert_value(e: Seq<(Seq<char>, (u8, u8, u8))>, i: int, k: Seq<char>, c: (u8, u8, u8), j: int)
    requires
        sorted_by_name(e),
        sorted_by_name(e.insert(i, (k, c))),
        0 <= i <= e.len(),
        0 <= j <= e.len(),
        forall|m: int| 0 <= m < i ==> chars_lt(#[trigger] e[m].0, k),
        forall|m: int| i <= m < e.len() ==> chars_lt(k, #[trigger] e[m].0),
    ensures
        entries_map(e.insert(i, (k, c)))[e.insert(i, (k, c))[j].0] == entries_map(e).insert(k, c)[e.insert(i, (k, c))[j].0],
{
    let n = e.insert(i, (k, c));
    let x = n[j].0;
    lemma_entries_map_at(n, j);
    lemma_chars_lt_irreflexive(k, 0);
    if j < i {
        assert(e[j] == n[j]);
        lemma_entries_map_at(e, j);
        assert(chars_lt(e[j].0, k));
    } else if j > i {
        assert(e[j - 1] == n[j]);
        lemma_entries_map_at(e, j - 1);
        assert(chars_lt(k, e[j - 1].0));
    }
}


// ------------------------------------------------------------------
// Reading back what was written
// ------------------------------------------------------------------

/// The decimal digits of a byte are digits, and read back as the byte.
proof fn lemma_decimal_u8_reads_back(v: u8)
    ensures
        crate::text::all_ascii_digits(decimal_u8(v)),
        decimal_u8(v).len() > 0,
        trim(decimal_u8(v)) == decimal_u8(v),
        parse_u8_text(decimal_u8(v)) == Some(v),
{
    let d = decimal_u8(v);
    let n = v as int;
    assert(forall|x: int| 0 <= x < 10 ==> crate::text::is_ascii_digit(#[trigger] crate::flamegraph::color::decimal_digit(x))
        && (crate::flamegraph::color::decimal_digit(x) as u32) - ('0' as u32) == x);
    if n < 10 {
        assert(d.drop_last() =~= Seq::<char>::empty());
    } else if n < 100 {
        assert(d.drop_last() =~= seq![crate::flamegraph::color::decimal_digit(n / 10)]);
        assert(d.drop_last().drop_last() =~= Seq::<char>::empty());
    } else {
        assert(d.drop_last() =~= seq![crate::flamegraph::color::decimal_digit(n / 100), crate::flamegraph::color::decimal_digit((n / 10) % 10)]);
        assert(d.drop_last().drop_last() =~= seq![crate::flamegraph::color::decimal_digit(n / 100)]);
        assert(d.drop_last().drop_last().drop_last() =~= Seq::<char>::empty());
    }
    assert(crate::text::decimal_value(d) == n) by {
        reveal_with_fuel(crate::text::decimal_value, 4);
        if n >= 100 {
            assert(n == (n / 100) * 100 + ((n / 10) % 10) * 10 + n % 10);
        } else if n >= 10 {
            assert(n == (n / 10) * 10 + n % 10);
        }
    }
    assert(!crate::text::is_whitespace(d[0]));
    assert(!crate::text::is_whitespace(d.last()));
    assert(crate::text::leading_ws(d) == 0);
    assert(d.skip(0) =~= d);
    assert(crate::text::trailing_ws(d) == 0);
    assert(d.take(d.len() as int) =~= d);
}


spec fn occurs_at_char(s: Seq<char>, c: char, i: int) -> bool {
    crate::text::occurs_at(s, seq![c], i)
}

/// The first `c` of `s` is at `i`.
proof fn lemma_find_char_at(s: Seq<char>, c: char, i: int)
    requires
        0 <= i < s.len(),
        s[i] == c,
        forall|j: int| 0 <= j < i ==> s[j] != c,
    ensures
        find(s, seq![c]) == Some(i),
{
    lemma_find_from_bounds(s, seq![c], 0);
    assert(s.subrange(i, i + 1) =~= seq![c]);
    assert(occurs_at_char(s, c, i));
    match find(s, seq![c]) {
        Some(k) => {
            if k < i {
                assert(s.subrange(k, k + 1)[0] == s[k]);
            }
            if k > i {
                assert(!crate::text::occurs_at(s, seq![c], i));
            }
        },
        None => {
            assert(!crate::text::occurs_at(s, seq![c], i));
        },
    }
}

/// Digits hold no comma.
proof fn lemma_digits_no_comma(d: Seq<char>)
    requires
        crate::text::all_ascii_digits(d),
    ensures
        forall|j: int| 0 <= j < d.len() ==> d[j] != ',',
{
    assert forall|j: int| 0 <= j < d.len() implies d[j] != ',' by {
        assert(crate::text::is_ascii_digit(d[j]));
    }
}

/// The color text of a palette line.
pub open spec fn color_text(c: (u8, u8, u8)) -> Seq<char> {
    seq!['r', 'g', 'b', '('] + decimal_u8(c.0) + seq![','] + decimal_u8(c.1) + seq![','] + decimal_u8(c.2) + seq![')']
}


/// The components between `rgb(` and `)` read back as the color.
proof fn lemma_components_read_back(c: (u8, u8, u8))
    ensures
        ({
            let inner = decimal_u8(c.0) + seq![','] + decimal_u8(c.1) + seq![','] + decimal_u8(c.2);
            &&& find(inner, seq![',']) == Some(decimal_u8(c.0).len() as int)
            &&& parse_u8_text(trim(inner.take(decimal_u8(c.0).len() as int))) == Some(c.0)
            &&& find(inner.skip(decimal_u8(c.0).len() + 1int), seq![',']) == Some(decimal_u8(c.1).len() as int)
            &&& parse_u8_text(trim(inner.skip(decimal_u8(c.0).len() + 1int).take(decimal_u8(c.1).len() as int))) == Some(c.1)
            &&& parse_u8_text(trim(inner.skip(decimal_u8(c.0).len() + 1int).skip(decimal_u8(c.1).len() + 1int))) == Some(c.2)
        }),
{
    let (dr, dg, db) = (decimal_u8(c.0), decimal_u8(c.1), decimal_u8(c.2));
    lemma_decimal_u8_reads_back(c.0);
    lemma_decimal_u8_reads_back(c.1);
    lemma_decimal_u8_reads_back(c.2);
    lemma_digits_no_comma(dr);
    lemma_digits_no_comma(dg);
    let inner = dr + seq![','] + dg + seq![','] + db;
    lemma_find_char_at(inner, ',', dr.len() as int);
    assert(inner.take(dr.len() as int) =~= dr);
    let rest = inner.skip(dr.len() + 1int);
    assert(rest =~= dg + seq![','] + db);
    lemma_find_char_at(rest, ',', dg.len() as int);
    assert(rest.take(dg.len() as int) =~= dg);
    assert(rest.skip(dg.len() + 1int) =~= db);
}

/// A color written `rgb(R,G,B)` reads back as that color.
proof fn lemma_rgb_reads_back(c: (u8, u8, u8))
    ensures
        rgb_components(color_text(c)) == Some(c),
{
    let s = color_text(c);
    let inner = decimal_u8(c.0) + seq![','] + decimal_u8(c.1) + seq![','] + decimal_u8(c.2);
    assert(s =~= seq!['r', 'g', 'b', '('] + inner + seq![')']);
    assert(!crate::text::is_whitespace(s[0]));
    assert(!crate::text::is_whitespace(s.last()));
    assert(crate::text::leading_ws(s) == 0);
    assert(s.skip(0) =~= s);
    assert(crate::text::trailing_ws(s) == 0);
    assert(s.take(s.len() as int) =~= s);
    assert(s.subrange(0, 4) =~= seq!['r', 'g', 'b', '(']);
    assert(s.subrange(s.len() - 1, s.len() as int) =~= seq![')']);
    assert(s.subrange(4, s.len() - 1) =~= inner);
    lemma_components_read_back(c);
}

/// `find_from` meets `i` first where nothing occurs between `from` and `i`.
proof fn lemma_find_from_first(s: Seq<char>, p: Seq<char>, from: int, i: int)
    requires
        0 <= from <= i,
        crate::text::occurs_at(s, p, i),
        forall|j: int| from <= j < i ==> !crate::text::occurs_at(s, p, j),
    ensures
        crate::text::find_from(s, p, from) == Some(i),
    decreases i - from,
{
    if from < i {
        lemma_find_from_first(s, p, from + 1, i);
    }
}

/// In `name->rest`, where the name holds no `->`, the first `->` is the one after the name.
proof fn lemma_first_arrow(name: Seq<char>, rest: Seq<char>)
    requires
        find(name, seq!['-', '>']) is None,
    ensures
        find(name + seq!['-', '>'] + rest, seq!['-', '>']) == Some(name.len() as int),
{
    let line = name + seq!['-', '>'] + rest;
    let p = seq!['-', '>'];
    let n = name.len() as int;
    lemma_find_from_bounds(name, p, 0);
    assert(line.subrange(n, n + 2) =~= p);
    assert forall|j: int| 0 <= j < n implies !#[trigger] crate::text::occurs_at(line, p, j) by {
        if crate::text::occurs_at(line, p, j) {
            if j + 2 <= n {
                assert(name.subrange(j, j + 2) =~= line.subrange(j, j + 2));
                assert(crate::text::occurs_at(name, p, j));
            } else {
                assert(line.subrange(j, j + 2)[1] == line[j + 1]);
                assert(line[j + 1] == '-');
            }
        }
    }
    lemma_find_from_first(line, p, 0, n);
}

/// A color text holds no `-`, so no `->`.
proof fn lemma_color_has_no_arrow(c: (u8, u8, u8))
    ensures
        find(color_text(c), seq!['-', '>']) is None,
        forall|k: int| 0 <= k < color_text(c).len() ==> #[trigger] color_text(c)[k] != '\n',
{
    let color = color_text(c);
    let p = seq!['-', '>'];
    let (dr, dg, db) = (decimal_u8(c.0), decimal_u8(c.1), decimal_u8(c.2));
    lemma_decimal_u8_reads_back(c.0);
    lemma_decimal_u8_reads_back(c.1);
    lemma_decimal_u8_reads_back(c.2);
    lemma_find_from_bounds(color, p, 0);
    assert forall|k: int| 0 <= k < color.len() implies color[k] != '-' && color[k] != '\n' by {
        if 4 <= k < 4 + dr.len() {
            assert(color[k] == dr[k - 4]);
            assert(crate::text::is_ascii_digit(dr[k - 4]));
        } else if 5 + dr.len() <= k < 5 + dr.len() + dg.len() {
            assert(color[k] == dg[k - 5 - dr.len()]);
            assert(crate::text::is_ascii_digit(dg[k - 5 - dr.len()]));
        } else if 6 + dr.len() + dg.len() <= k < 6 + dr.len() + dg.len() + db.len() {
            assert(color[k] == db[k - 6 - dr.len() - dg.len()]);
            assert(crate::text::is_ascii_digit(db[k - 6 - dr.len() - dg.len()]));
        }
    }
    if find(color, p) is Some {
        let k = find(color, p)->0;
        assert(color.subrange(k, k + 2)[0] == color[k]);
    }
}

/// A line `NAME->rgb(R,G,B)` reads back as the name and color, where the name holds no `->`.
proof fn lemma_entry_reads_back(name: Seq<char>, c: (u8, u8, u8))
    requires
        find(name, seq!['-', '>']) is None,
    ensures
        palette_entry(palette_line(name, c).drop_last()) == Ok::<(Seq<char>, (u8, u8, u8)), PaletteLineError>((name, c)),
{
    let line = name + seq!['-', '>'] + color_text(c);
    assert(palette_line(name, c).drop_last() =~= line);
    lemma_first_arrow(name, color_text(c));
    assert(line.take(name.len() as int) =~= name);
    assert(line.skip(name.len() + 2int) =~= color_text(c));
    lemma_color_has_no_arrow(c);
    lemma_rgb_reads_back(c);
}


/// The lines joined, each followed by a newline.
pub open spec fn joined_lines(ls: Seq<Seq<char>>) -> Seq<char>
    decreases ls.len(),
{
    if ls.len() == 0 {
        Seq::empty()
    } else {
        ls[0] + seq!['\n'] + joined_lines(ls.skip(1))
    }
}

proof fn lemma_joined_lines_push(ls: Seq<Seq<char>>, x: Seq<char>)
    ensures
        joined_lines(ls.push(x)) == joined_lines(ls) + x + seq!['\n'],
    decreases ls.len(),
{
    if ls.len() == 0 {
        assert(ls.push(x).skip(1) =~= Seq::<Seq<char>>::empty());
        assert(joined_lines(Seq::<Seq<char>>::empty()) == Seq::<char>::empty());
        assert(ls.push(x)[0] == x);
        assert(joined_lines(ls.push(x)) =~= x + seq!['\n']);
    } else {
        assert(ls.push(x).skip(1) =~= ls.skip(1).push(x));
        lemma_joined_lines_push(ls.skip(1), x);
        assert(joined_lines(ls.push(x)) =~= joined_lines(ls) + x + seq!['\n']);
    }
}

/// Splitting newline-ended lines that hold no newline gives them back, then an empty piece.
proof fn lemma_split_joined_lines(ls: Seq<Seq<char>>)
    requires
        forall|i: int, j: int| 0 <= i < ls.len() && 0 <= j < ls[i].len() ==> #[trigger] ls[i][j] != '\n',
    ensures
        crate::text::split_on(joined_lines(ls), '\n') == ls.push(Seq::<char>::empty()),
    decreases ls.len(),
{
    let t = joined_lines(ls);
    if ls.len() == 0 {
        lemma_find_from_bounds(t, seq!['\n'], 0);
        assert(crate::text::split_on(t, '\n') =~= seq![Seq::<char>::empty()]);
        assert(ls.push(Seq::<char>::empty()) =~= seq![Seq::<char>::empty()]);
    } else {
        let x = ls[0];
        let r = joined_lines(ls.skip(1));
        assert(t == x + seq!['\n'] + r);
        assert forall|j: int| 0 <= j < x.len() implies #[trigger] t[j] != '\n' by {
            assert(t[j] == ls[0][j]);
        }
        lemma_find_char_at(t, '\n', x.len() as int);
        assert(t.take(x.len() as int) =~= x);
        assert(t.skip(x.len() + 1int) =~= r);
        assert forall|i: int, j: int| 0 <= i < ls.skip(1).len() && 0 <= j < ls.skip(1)[i].len() implies #[trigger] ls.skip(1)[i][j] != '\n' by {
            assert(ls.skip(1)[i] == ls[i + 1]);
        }
        lemma_split_joined_lines(ls.skip(1));
        assert(crate::text::split_on(t, '\n') =~= seq![x] + ls.skip(1).push(Seq::<char>::empty()));
        assert(ls.push(Seq::<char>::empty()) =~= seq![x] + ls.skip(1).push(Seq::<char>::empty()));
    }
}

/// The lines of the entries, without their newlines.
pub open spec fn entry_lines(e: Seq<(Seq<char>, (u8, u8, u8))>) -> Seq<Seq<char>> {
    e.map_values(|x: (Seq<char>, (u8, u8, u8))| palette_line(x.0, x.1).drop_last())
}

proof fn lemma_palette_text_joined(e: Seq<(Seq<char>, (u8, u8, u8))>)
    ensures
        palette_text(e) == joined_lines(entry_lines(e)),
    decreases e.len(),
{
    if e.len() == 0 {
        assert(entry_lines(e) =~= Seq::<Seq<char>>::empty());
    } else {
        lemma_palette_text_joined(e.drop_last());
        assert(entry_lines(e) =~= entry_lines(e.drop_last()).push(palette_line(e.last().0, e.last().1).drop_last()));
        lemma_joined_lines_push(entry_lines(e.drop_last()), palette_line(e.last().0, e.last().1).drop_last());
        let l = palette_line(e.last().0, e.last().1);
        assert(l =~= l.drop_last() + seq!['\n']);
    }
}

/// Reading the lines of sorted entries builds the map they stand for.
proof fn lemma_lines_build_map(e: Seq<(Seq<char>, (u8, u8, u8))>, k: int)
    requires
        sorted_by_name(e),
        0 <= k <= e.len(),
        forall|i: int| 0 <= i < e.len() ==> find(#[trigger] e[i].0, seq!['-', '>']) is None,
    ensures
        palette_from_lines(entry_lines(e), k) == Ok::<Map<Seq<char>, (u8, u8, u8)>, PaletteLineError>(
            crate::keyed::keyed_map(e.take(k)),
        ),
    decreases k,
{
    if k == 0 {
        assert(crate::keyed::keyed_map(e.take(0)) =~= Map::<Seq<char>, (u8, u8, u8)>::empty());
    } else {
        lemma_lines_build_map(e, k - 1);
        lemma_entry_reads_back(e[k - 1].0, e[k - 1].1);
        assert(entry_lines(e)[k - 1] == palette_line(e[k - 1].0, e[k - 1].1).drop_last());
        crate::keyed::lemma_sorted_distinct(e);
        assert(e.take(k) =~= e.take(k - 1).push(e[k - 1]));
        assert forall|i: int| 0 <= i < e.take(k - 1).len() implies #[trigger] e.take(k - 1)[i].0 != e[k - 1].0 by {
            assert(e.take(k - 1)[i] == e[i]);
        }
        assert forall|a: int, b: int| 0 <= a < b < e.take(k - 1).len() implies #[trigger] e.take(k - 1)[a].0 != #[trigger] e.take(k - 1)[b].0 by {
            assert(e.take(k - 1)[a] == e[a] && e.take(k - 1)[b] == e[b]);
        }
        crate::keyed::lemma_keyed_map_absent(e.take(k - 1), e[k - 1].0);
        crate::keyed::lemma_keyed_map_push(e.take(k - 1), e[k - 1].0, e[k - 1].1);
    }
}

/// A palette line of a name without newlines holds no newline before its end.
proof fn lemma_line_has_no_newline(name: Seq<char>, c: (u8, u8, u8))
    requires
        forall|j: int| 0 <= j < name.len() ==> #[trigger] name[j] != '\n',
    ensures
        forall|j: int| 0 <= j < palette_line(name, c).drop_last().len() ==> #[trigger] palette_line(name, c).drop_last()[j] != '\n',
{
    let l = palette_line(name, c).drop_last();
    assert(l =~= name + seq!['-', '>'] + color_text(c));
    lemma_color_has_no_arrow(c);
    assert forall|j: int| 0 <= j < l.len() implies #[trigger] l[j] != '\n' by {
        if j < name.len() {
            assert(l[j] == name[j]);
        } else if j >= name.len() + 2 {
            assert(l[j] == color_text(c)[j - name.len() - 2]);
        }
    }
}

/// What `to_stream` writes, split into lines and read by `from_lines`, gives back the map it
/// was written from: the palette file keeps the colors from one drawing to the next. This
/// holds where no name holds `->` or a newline.
pub proof fn palette_written_reads_back(e: Seq<(Seq<char>, (u8, u8, u8))>)
    requires
        sorted_by_name(e),
        forall|i: int| 0 <= i < e.len() ==> find(#[trigger] e[i].0, seq!['-', '>']) is None,
        forall|i: int, j: int| 0 <= i < e.len() && 0 <= j < e[i].0.len() ==> #[trigger] e[i].0[j] != '\n',
    ensures
        palette_from_lines(
            crate::collapse::perf::read_lines(palette_text(e)),
            crate::collapse::perf::read_lines(palette_text(e)).len() as int,
        ) == Ok::<Map<Seq<char>, (u8, u8, u8)>, PaletteLineError>(entries_map(e)),
{
    let ls = entry_lines(e);
    lemma_palette_text_joined(e);
    assert forall|i: int, j: int| 0 <= i < ls.len() && 0 <= j < ls[i].len() implies #[trigger] ls[i][j] != '\n' by {
        assert(ls[i] == palette_line(e[i].0, e[i].1).drop_last());
        assert forall|j2: int| 0 <= j2 < e[i].0.len() implies #[trigger] e[i].0[j2] != '\n' by {}
        lemma_line_has_no_newline(e[i].0, e[i].1);
    }
    lemma_split_joined_lines(ls);
    let p = crate::text::split_on(palette_text(e), '\n');
    assert(p.last() == Seq::<char>::empty());
    assert(crate::collapse::perf::read_lines(palette_text(e)) =~= ls);
    lemma_lines_build_map(e, e.len() as int);
    assert(e.take(e.len() as int) =~= e);
    assert(crate::keyed::keyed_map(e) =~= entries_map(e));
}

} // verus!
