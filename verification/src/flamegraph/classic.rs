//! The named palettes of the classic flame graph: fifteen palettes, of which five pick one of
//! the plain ones by the function name; the background gradient of each; and the file of
//! consistent colors, one line `name->color` per function.
use vstd::prelude::*;
use crate::flamegraph::color::BasicPalette;
use crate::flamegraph::color::palettes::perl::perl_palette;
use crate::flamegraph::palettes::java::java_palette;
use crate::keyed::{
    distinct_keys, has_key, keyed_map, lemma_keyed_map_absent, lemma_keyed_map_at, lemma_keyed_map_update,
    lemma_sorted_distinct, lemma_sorted_insert, sorted_keys,
};
use crate::text::{
    chars_lt, chars_of, contains, contains_chars, ends_with, ends_with_chars, find, find_chars,
    lemma_chars_lt_total, lemma_chars_lt_transitive, lemma_find_from_bounds, push_str, split_at_pattern,
    split_pattern, str_eq, str_lt, string_from_chars, strs_view, trim, trim_bounds,
};

verus! {

/// The palettes a classic flame graph can be drawn with.
#[derive(Clone, Copy, PartialEq, Eq, Structural, Debug)]
pub enum Palette {
    Hot,
    Mem,
    Io,
    Wakeup,
    Chain,
    Java,
    Js,
    Perl,
    Red,
    Green,
    Blue,
    Aqua,
    Yellow,
    Purple,
    Orange,
}

impl Default for Palette {
    fn default() -> (p: Palette)
        ensures
            p == Palette::Hot,
    {
        Palette::Hot
    }
}

/// The palette a name stands for, if any.
pub open spec fn palette_named(s: Seq<char>) -> Option<Palette> {
    if s == "hot"@ {
        Some(Palette::Hot)
    } else if s == "mem"@ {
        Some(Palette::Mem)
    } else if s == "io"@ {
        Some(Palette::Io)
    } else if s == "wakeup"@ {
        Some(Palette::Wakeup)
    } else if s == "chain"@ {
        Some(Palette::Chain)
    } else if s == "java"@ {
        Some(Palette::Java)
    } else if s == "js"@ {
        Some(Palette::Js)
    } else if s == "perl"@ {
        Some(Palette::Perl)
    } else if s == "red"@ {
        Some(Palette::Red)
    } else if s == "green"@ {
        Some(Palette::Green)
    } else if s == "blue"@ {
        Some(Palette::Blue)
    } else if s == "aqua"@ {
        Some(Palette::Aqua)
    } else if s == "yellow"@ {
        Some(Palette::Yellow)
    } else if s == "purple"@ {
        Some(Palette::Purple)
    } else if s == "orange"@ {
        Some(Palette::Orange)
    } else {
        None
    }
}

/// Reads a palette name; an unknown name gives the message `unknown color palette: <name>`.
pub fn parse_palette(s: &str) -> (r: Result<Palette, String>)
    ensures
        match palette_named(s@) {
            Some(p) => r == Ok::<Palette, String>(p),
            None => r matches Err(m) && m@ == "unknown color palette: "@ + s@,
        },
{
    let names: [&str; 15] = [
        "hot", "mem", "io", "wakeup", "chain", "java", "js", "perl", "red", "green", "blue", "aqua",
        "yellow", "purple", "orange",
    ];
    let palettes: [Palette; 15] = [
        Palette::Hot,
        Palette::Mem,
        Palette::Io,
        Palette::Wakeup,
        Palette::Chain,
        Palette::Java,
        Palette::Js,
        Palette::Perl,
        Palette::Red,
        Palette::Green,
        Palette::Blue,
        Palette::Aqua,
        Palette::Yellow,
        Palette::Purple,
        Palette::Orange,
    ];
    let mut k: usize = 0;
    while k < 15
        invariant
            k <= 15,
            names@ == seq![
                "hot", "mem", "io", "wakeup", "chain", "java", "js", "perl", "red", "green", "blue", "aqua",
                "yellow", "purple", "orange",
            ],
            palettes@ == seq![
                Palette::Hot, Palette::Mem, Palette::Io, Palette::Wakeup, Palette::Chain, Palette::Java,
                Palette::Js, Palette::Perl, Palette::Red, Palette::Green, Palette::Blue, Palette::Aqua,
                Palette::Yellow, Palette::Purple, Palette::Orange,
            ],
            forall|j: int| 0 <= j < k ==> s@ != (#[trigger] names@[j])@,
        decreases 15 - k,
    {
        if str_eq(s, names[k]) {
            return Ok(palettes[k]);
        }
        k += 1;
    }
    assert(palette_named(s@) is None) by {
        assert(s@ != names@[0]@);
        assert(s@ != names@[1]@);
        assert(s@ != names@[2]@);
        assert(s@ != names@[3]@);
        assert(s@ != names@[4]@);
        assert(s@ != names@[5]@);
        assert(s@ != names@[6]@);
        assert(s@ != names@[7]@);
        assert(s@ != names@[8]@);
        assert(s@ != names@[9]@);
        assert(s@ != names@[10]@);
        assert(s@ != names@[11]@);
        assert(s@ != names@[12]@);
        assert(s@ != names@[13]@);
        assert(s@ != names@[14]@);
    }
    let mut m: Vec<char> = chars_of("unknown color palette: ");
    push_str(&mut m, s);
    Err(string_from_chars(m.as_slice()))
}

impl std::str::FromStr for Palette {
    type Err = String;

    fn from_str(s: &str) -> (r: Result<Self, Self::Err>)
        ensures
            match palette_named(s@) {
                Some(p) => r == Ok::<Palette, String>(p),
                None => r matches Err(m) && m@ == "unknown color palette: "@ + s@,
            },
    {
        parse_palette(s)
    }
}

/// The named palette of a plain one.
pub open spec fn basic_as_palette(b: BasicPalette) -> Palette {
    match b {
        BasicPalette::Hot => Palette::Hot,
        BasicPalette::Mem => Palette::Mem,
        BasicPalette::Io => Palette::Io,
        BasicPalette::Red => Palette::Red,
        BasicPalette::Green => Palette::Green,
        BasicPalette::Blue => Palette::Blue,
        BasicPalette::Aqua => Palette::Aqua,
        BasicPalette::Yellow => Palette::Yellow,
        BasicPalette::Purple => Palette::Purple,
        BasicPalette::Orange => Palette::Orange,
    }
}

fn as_palette(b: BasicPalette) -> (p: Palette)
    ensures
        p == basic_as_palette(b),
{
    match b {
        BasicPalette::Hot => Palette::Hot,
        BasicPalette::Mem => Palette::Mem,
        BasicPalette::Io => Palette::Io,
        BasicPalette::Red => Palette::Red,
        BasicPalette::Green => Palette::Green,
        BasicPalette::Blue => Palette::Blue,
        BasicPalette::Aqua => Palette::Aqua,
        BasicPalette::Yellow => Palette::Yellow,
        BasicPalette::Purple => Palette::Purple,
        BasicPalette::Orange => Palette::Orange,
    }
}

/// Annotations first (`_[k]` orange, `_[i]` aqua, `_[j]` green), then Java packages
/// (green), C++ (yellow), else system (red).
pub fn handle_java_palette(s: &str) -> (p: Palette)
    ensures
        p == basic_as_palette(java_palette(s@)),
{
    as_palette(crate::flamegraph::palettes::java::resolve(s))
}

/// Kernel (orange), Perl (green), C++ (yellow), else system (red).
pub fn handle_perl_palette(s: &str) -> (p: Palette)
    ensures
        p == basic_as_palette(perl_palette(s@)),
{
    as_palette(crate::flamegraph::palettes::perl::resolve(s))
}

/// The palette of a JavaScript frame.
pub open spec fn classic_js_palette(s: Seq<char>) -> Palette {
    if trim(s).len() == 0 {
        Palette::Green
    } else if ends_with(s, "_[k]"@) {
        Palette::Orange
    } else if contains(s, "::"@) {
        Palette::Yellow
    } else if contains(s, seq![':']) {
        Palette::Aqua
    } else {
        match find(s, seq!['/']) {
            Some(ai) => if contains(s.skip(ai), ".js"@) { Palette::Green } else { Palette::Red },
            None => if ends_with(s, "_[j]"@) { Palette::Aqua } else { Palette::Red },
        }
    }
}

/// Blank (green), kernel (orange), C++ (yellow), other `:` names (aqua), a path to a `.js`
/// file (green), an unpathed JIT frame (aqua), else red.
pub fn handle_js_palette(s: &str) -> (p: Palette)
    ensures
        p == classic_js_palette(s@),
{
    let chars = chars_of(s);
    let c = chars.as_slice();
    let (a, b) = trim_bounds(c, 0, c.len());
    assert(c@.subrange(0, c@.len() as int) =~= c@);
    let slash: [char; 1] = ['/'];
    let colon: [char; 1] = [':'];
    assert(slash@ =~= seq!['/']);
    assert(colon@ =~= seq![':']);
    if a == b {
        Palette::Green
    } else if ends_with_chars(c, chars_of("_[k]").as_slice()) {
        Palette::Orange
    } else if contains_chars(c, chars_of("::").as_slice()) {
        Palette::Yellow
    } else if contains_chars(c, colon.as_slice()) {
        Palette::Aqua
    } else {
        proof { lemma_find_from_bounds(c@, seq!['/'], 0); }
        match find_chars(c, slash.as_slice()) {
            Some(ai) => {
                let rest = &c[ai..c.len()];
                assert(rest@ =~= c@.skip(ai as int));
                if contains_chars(rest, chars_of(".js").as_slice()) { Palette::Green } else { Palette::Red }
            },
            None => if ends_with_chars(c, chars_of("_[j]").as_slice()) { Palette::Aqua } else { Palette::Red },
        }
    }
}

/// Wakeup frames are all aqua.
pub fn handle_wakeup_palette(_s: &str) -> (p: Palette)
    ensures
        p == Palette::Aqua,
{
    Palette::Aqua
}

/// Waker frames (`_[w]`) are aqua, the others blue.
pub fn handle_chain_palette(s: &str) -> (p: Palette)
    ensures
        p == (if contains(s@, "_[w]"@) { Palette::Aqua } else { Palette::Blue }),
{
    if contains_chars(chars_of(s).as_slice(), chars_of("_[w]").as_slice()) {
        Palette::Aqua
    } else {
        Palette::Blue
    }
}

/// The palette whose color range a frame is drawn from: the five name-dependent palettes
/// pick a plain one by the name, the plain ones stand for themselves.
pub open spec fn real_palette(palette: Palette, name: Seq<char>) -> Palette {
    match palette {
        Palette::Java => basic_as_palette(java_palette(name)),
        Palette::Perl => basic_as_palette(perl_palette(name)),
        Palette::Js => classic_js_palette(name),
        Palette::Wakeup => Palette::Aqua,
        Palette::Chain => if contains(name, "_[w]"@) { Palette::Aqua } else { Palette::Blue },
        _ => palette,
    }
}

/// Picks the palette whose color range a frame is drawn from.
pub fn resolve_palette(palette: Palette, name: &str) -> (p: Palette)
    ensures
        p == real_palette(palette, name@),
{
    match palette {
        Palette::Java => handle_java_palette(name),
        Palette::Perl => handle_perl_palette(name),
        Palette::Js => handle_js_palette(name),
        Palette::Wakeup => handle_wakeup_palette(name),
        Palette::Chain => handle_chain_palette(name),
        _ => palette,
    }
}

/// The background gradient of a palette, top color first: yellow for the hot, Java,
/// JavaScript and Perl palettes, blue for the memory and chain ones, grey otherwise.
pub fn bgcolor_for(palette: Palette) -> (r: (&'static str, &'static str))
    ensures
        r == (match palette {
            Palette::Hot | Palette::Java | Palette::Js | Palette::Perl => ("#eeeeee", "#eeeeb0"),
            Palette::Mem | Palette::Chain => ("#eeeeee", "#e0e0ff"),
            _ => ("#f8f8f8", "#e8e8e8"),
        }),
{
    match palette {
        Palette::Hot | Palette::Java | Palette::Js | Palette::Perl => ("#eeeeee", "#eeeeb0"),
        Palette::Mem | Palette::Chain => ("#eeeeee", "#e0e0ff"),
        _ => ("#f8f8f8", "#e8e8e8"),
    }
}

pub open spec fn pair_entries(e: Seq<(String, String)>) -> Seq<(Seq<char>, Seq<char>)> {
    e.map_values(|x: (String, String)| (x.0@, x.1@))
}

/// The colors chosen for function names, kept in increasing order of name.
pub struct NameColors {
    entries: Vec<(String, String)>,
}

impl View for NameColors {
    type V = Map<Seq<char>, Seq<char>>;

    closed spec fn view(&self) -> Map<Seq<char>, Seq<char>> {
        keyed_map(pair_entries(self.entries@))
    }
}

impl NameColors {
    #[verifier::type_invariant]
    closed spec fn names_sorted(self) -> bool {
        sorted_keys(pair_entries(self.entries@))
    }

    /// No colors chosen yet.
    pub fn new() -> (m: NameColors)
        ensures
            m@ == Map::<Seq<char>, Seq<char>>::empty(),
    {
        let m = NameColors { entries: Vec::new() };
        assert(pair_entries(m.entries@) =~= Seq::<(Seq<char>, Seq<char>)>::empty());
        assert(keyed_map(pair_entries(m.entries@)) =~= Map::<Seq<char>, Seq<char>>::empty());
        m
    }

    /// The position of the first entry whose name does not sort before `name`.
    fn position(&self, name: &str) -> (p: usize)
        ensures
            p <= self.entries@.len(),
            forall|j: int| 0 <= j < p ==> chars_lt(#[trigger] pair_entries(self.entries@)[j].0, name@),
            p < self.entries@.len() ==> !chars_lt(pair_entries(self.entries@)[p as int].0, name@),
    {
        let ghost e = pair_entries(self.entries@);
        let mut p: usize = 0;
        while p < self.entries.len() && str_lt(self.entries[p].0.as_str(), name)
            invariant
                p <= self.entries@.len(),
                e == pair_entries(self.entries@),
                forall|j: int| 0 <= j < p ==> chars_lt(#[trigger] e[j].0, name@),
            decreases self.entries.len() - p,
        {
            p += 1;
        }
        p
    }

    /// The color chosen for a name.
    pub fn get(&self, name: &str) -> (r: Option<String>)
        ensures
            match r {
                Some(c) => self@.contains_key(name@) && self@[name@] == c@,
                None => !self@.contains_key(name@),
            },
    {
        proof { use_type_invariant(self); }
        let ghost e = pair_entries(self.entries@);
        proof { lemma_sorted_distinct(e); }
        let p = self.position(name);
        if p < self.entries.len() && str_eq(self.entries[p].0.as_str(), name) {
            proof { lemma_keyed_map_at(e, p as int); }
            let c = string_from_chars(chars_of(self.entries[p].1.as_str()).as_slice());
            return Some(c);
        }
        proof {
            assert forall|j: int| 0 <= j < e.len() implies #[trigger] e[j].0 != name@ by {
                if j < p {
                    crate::text::lemma_chars_lt_irreflexive(name@, 0);
                } else if j == p {
                } else {
                    if e[j].0 == name@ {
                        assert(chars_lt(e[p as int].0, e[j].0));
                        assert(e[p as int].0.take(0) =~= name@.take(0));
                        lemma_chars_lt_total(e[p as int].0, name@, 0);
                    }
                }
            }
            lemma_keyed_map_absent(e, name@);
        }
        None
    }

    /// Chooses `color` for `name`, replacing what was chosen before.
    pub fn insert(&mut self, name: &str, color: &str)
        ensures
            final(self)@ == old(self)@.insert(name@, color@),
    {
        proof { use_type_invariant(&*self); }
        let ghost e = pair_entries(self.entries@);
        proof { lemma_sorted_distinct(e); }
        let p = self.position(name);
        let n = string_from_chars(chars_of(name).as_slice());
        let c = string_from_chars(chars_of(color).as_slice());
        if p < self.entries.len() && str_eq(self.entries[p].0.as_str(), name) {
            let mut entries: Vec<(String, String)> = Vec::new();
            std::mem::swap(&mut entries, &mut self.entries);
            proof { lemma_keyed_map_update(e, p as int, color@); }
            entries.set(p, (n, c));
            assert(pair_entries(entries@) =~= e.update(p as int, (e[p as int].0, color@)));
            assert forall|i: int, j: int| 0 <= i < j < pair_entries(entries@).len() implies chars_lt(
                #[trigger] pair_entries(entries@)[i].0,
                #[trigger] pair_entries(entries@)[j].0,
            ) by {
                assert(pair_entries(entries@)[i].0 == e[i].0 && pair_entries(entries@)[j].0 == e[j].0);
            }
            self.entries = entries;
        } else {
            proof {
                assert forall|j: int| p <= j < e.len() implies chars_lt(name@, #[trigger] e[j].0) by {
                    assert(e[p as int].0 != name@);
                    assert(e[p as int].0.take(0) =~= name@.take(0));
                    lemma_chars_lt_total(e[p as int].0, name@, 0);
                    if j > p {
                        lemma_chars_lt_transitive(name@, e[p as int].0, e[j].0, 0);
                    }
                }
                lemma_sorted_insert(e, p as int, name@, color@);
            }
            let mut entries: Vec<(String, String)> = Vec::new();
            std::mem::swap(&mut entries, &mut self.entries);
            entries.insert(p, (n, c));
            assert(pair_entries(entries@) =~= e.insert(p as int, (name@, color@)));
            self.entries = entries;
        }
    }

    /// The color of a name: the one chosen before, else the one `compute` gives, which is
    /// then kept.
    pub fn color_map<F: FnOnce(&str) -> String>(&mut self, name: &str, compute: F) -> (r: String)
        requires
            call_requires(compute, (name,)),
        ensures
            old(self)@.contains_key(name@) ==> r@ == old(self)@[name@] && final(self)@ == old(self)@,
            !old(self)@.contains_key(name@) ==> (exists|c: String| #[trigger] call_ensures(compute, (name,), c) && r@ == c@)
                && final(self)@ == old(self)@.insert(name@, r@),
    {
        match self.get(name) {
            Some(c) => c,
            None => {
                let c = compute(name);
                self.insert(name, c.as_str());
                c
            },
        }
    }

    /// The entries in increasing order of name.
    pub fn entries(&self) -> (r: Vec<(String, String)>)
        ensures
            sorted_keys(pair_entries(r@)),
            keyed_map(pair_entries(r@)) == self@,
    {
        proof { use_type_invariant(self); }
        let mut out: Vec<(String, String)> = Vec::new();
        let mut i: usize = 0;
        while i < self.entries.len()
            invariant
                i <= self.entries@.len(),
                pair_entries(out@) == pair_entries(self.entries@).take(i as int),
            decreases self.entries.len() - i,
        {
            let n = string_from_chars(chars_of(self.entries[i].0.as_str()).as_slice());
            let c = string_from_chars(chars_of(self.entries[i].1.as_str()).as_slice());
            assert(pair_entries(self.entries@)[i as int] == (n@, c@));
            let ghost before = pair_entries(out@);
            out.push((n, c));
            assert(pair_entries(out@) =~= before.push((n@, c@)));
            assert(pair_entries(out@) =~= pair_entries(self.entries@).take(i + 1));
            i += 1;
        }
        assert(pair_entries(self.entries@).take(self.entries@.len() as int) =~= pair_entries(self.entries@));
        out
    }
}

/// A line of the colors file: the name before the first `->` and the color between it and
/// the next `->` (or the end). `None` where the line has no `->`.
pub open spec fn palette_line(line: Seq<char>) -> Option<(Seq<char>, Seq<char>)> {
    let w = split_at_pattern(line, "->"@);
    if w.len() < 2 { None } else { Some((w[0], w[1])) }
}

/// Reads a line of the colors file.
pub fn parse_palette_line(line: &str) -> (r: Option<(String, String)>)
    ensures
        match palette_line(line@) {
            None => r is None,
            Some((n, c)) => r matches Some((rn, rc)) && rn@ == n && rc@ == c,
        },
{
    let arrow = chars_of("->");
    proof { reveal_strlit("->"); }
    let words = split_pattern(chars_of(line).as_slice(), arrow.as_slice());
    if words.len() < 2 {
        return None;
    }
    let ghost w = strs_view(words@);
    assert(w[0] == words@[0]@ && w[1] == words@[1]@);
    let n = string_from_chars(chars_of(words[0].as_str()).as_slice());
    let c = string_from_chars(chars_of(words[1].as_str()).as_slice());
    Some((n, c))
}

/// The colors of the lines of a colors file, a later line of a name replacing an earlier
/// one. `None` where a line has no `->`.
pub open spec fn palette_lines(lines: Seq<Seq<char>>, k: int) -> Option<Map<Seq<char>, Seq<char>>>
    decreases k,
{
    if k <= 0 {
        Some(Map::empty())
    } else {
        match palette_lines(lines, k - 1) {
            None => None,
            Some(m) => match palette_line(lines[k - 1]) {
                None => None,
                Some((n, c)) => Some(m.insert(n, c)),
            },
        }
    }
}

/// Reads a colors file, one line `name->color` per function.
pub fn read_palette(text: &str) -> (r: Option<NameColors>)
    ensures
        match palette_lines(crate::collapse::perf::read_lines(text@), crate::collapse::perf::read_lines(text@).len() as int) {
            None => r is None,
            Some(m) => r matches Some(p) && p@ == m,
        },
{
    let lines = crate::collapse::perf::input_lines(text);
    let ghost lv = crate::collapse::perf::read_lines(text@);
    let mut map = NameColors::new();
    let mut i: usize = 0;
    while i < lines.len()
        invariant
            strs_view(lines@) == lv,
            lv == crate::collapse::perf::read_lines(text@),
            i <= lines@.len(),
            palette_lines(lv, i as int) == Some(map@),
        decreases lines.len() - i,
    {
        assert(lv[i as int] == lines@[i as int]@);
        match parse_palette_line(lines[i].as_str()) {
            None => {
                proof { lemma_palette_lines_none_stays(lv, i + 1, lv.len() as int); }
                return None;
            },
            Some((n, c)) => {
                map.insert(n.as_str(), c.as_str());
            },
        }
        i += 1;
    }
    Some(map)
}

proof fn lemma_palette_lines_none_stays(lines: Seq<Seq<char>>, i: int, k: int)
    requires
        0 <= i <= k,
        palette_lines(lines, i) is None,
    ensures
        palette_lines(lines, k) is None,
    decreases k - i,
{
    if i < k {
        lemma_palette_lines_none_stays(lines, i, k - 1);
    }
}

/// The lines `name->color` of the entries, in order.
pub open spec fn palette_text(e: Seq<(Seq<char>, Seq<char>)>) -> Seq<char>
    decreases e.len(),
{
    if e.len() == 0 {
        Seq::empty()
    } else {
        palette_text(e.drop_last()) + e.last().0 + "->"@ + e.last().1 + seq!['\n']
    }
}

/// Writes the colors file: one line `name->color` per name, in increasing order of name.
pub fn write_palette(map: &NameColors) -> (r: String)
    ensures
        exists|e: Seq<(Seq<char>, Seq<char>)>| {
            &&& sorted_keys(e)
            &&& keyed_map(e) == map@
            &&& r@ == palette_text(e)
        },
{
    let entries = map.entries();
    let ghost e = pair_entries(entries@);
    let mut out: Vec<char> = Vec::new();
    let mut i: usize = 0;
    while i < entries.len()
        invariant
            i <= entries@.len(),
            e == pair_entries(entries@),
            out@ == palette_text(e.take(i as int)),
        decreases entries.len() - i,
    {
        let ghost before = out@;
        push_str(&mut out, entries[i].0.as_str());
        push_str(&mut out, "->");
        push_str(&mut out, entries[i].1.as_str());
        out.push('\n');
        assert(e.take(i + 1).drop_last() =~= e.take(i as int));
        assert(out@ =~= before + entries@[i as int].0@ + "->"@ + entries@[i as int].1@ + seq!['\n']);
        i += 1;
    }
    assert(e.take(entries@.len() as int) =~= e);
    string_from_chars(out.as_slice())
}

} // verus!
