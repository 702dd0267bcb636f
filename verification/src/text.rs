//! Character-level text helpers shared by the parsers.
use vstd::prelude::*;

verus! {

broadcast use vstd::string::group_string_axioms;

/// The characters of `s`, in order.
pub fn chars_of(s: &str) -> (v: Vec<char>)
    ensures
        v@ == s@,
{
    let mut v: Vec<char> = Vec::new();
    for c in it: s.chars()
        invariant
            v@ == it.seq().take(it.index() as int),
            it.seq() == s@,
    {
        v.push(c);
    }
    v
}

/// Appends one character to a string (`String::push`).
#[verifier::external_body]
pub fn push_char(s: &mut String, c: char)
    ensures
        final(s)@ == old(s)@.push(c),
{
    s.push(c);
}


/// Builds a string holding exactly the given characters (`String::from_iter`).
#[verifier::external_body]
pub fn string_from_chars(v: &[char]) -> (s: String)
    ensures
        s@ == v@,
{
    v.iter().collect()
}

/// `p` occurs in `s` starting at index `i`.
pub open spec fn occurs_at(s: Seq<char>, p: Seq<char>, i: int) -> bool {
    0 <= i && i + p.len() <= s.len() && s.subrange(i, i + p.len()) =~= p
}

pub open spec fn starts_with(s: Seq<char>, p: Seq<char>) -> bool {
    occurs_at(s, p, 0)
}

pub open spec fn ends_with(s: Seq<char>, p: Seq<char>) -> bool {
    p.len() <= s.len() && occurs_at(s, p, s.len() - p.len())
}

pub open spec fn contains(s: Seq<char>, p: Seq<char>) -> bool {
    exists|i: int| occurs_at(s, p, i)
}

/// Whether `p` occurs at the given position of a character slice.
pub fn matches_at(s: &[char], p: &[char], i: usize) -> (b: bool)
    ensures
        b == occurs_at(s@, p@, i as int),
{
    if i > s.len() || p.len() > s.len() - i {
        return false;
    }
    let mut k: usize = 0;
    while k < p.len()
        invariant
            i + p.len() <= s.len(),
            k <= p.len(),
            forall|j: int| 0 <= j < k ==> s@[i + j] == p@[j],
        decreases p.len() - k,
    {
        if s[i + k] != p[k] {
            assert(s@.subrange(i as int, i + p@.len())[k as int] != p@[k as int]);
            return false;
        }
        k += 1;
    }
    assert(s@.subrange(i as int, i + p@.len()) =~= p@);
    true
}

pub fn starts_with_chars(s: &[char], p: &[char]) -> (b: bool)
    ensures
        b == starts_with(s@, p@),
{
    matches_at(s, p, 0)
}

pub fn ends_with_chars(s: &[char], p: &[char]) -> (b: bool)
    ensures
        b == ends_with(s@, p@),
{
    if p.len() > s.len() {
        false
    } else {
        matches_at(s, p, s.len() - p.len())
    }
}

/// Index of the first occurrence of `p` in `s` at or after `from`.
pub open spec fn find_from(s: Seq<char>, p: Seq<char>, from: int) -> Option<int>
    decreases s.len() - from,
{
    if from < 0 || from + p.len() > s.len() {
        None
    } else if occurs_at(s, p, from) {
        Some(from)
    } else {
        find_from(s, p, from + 1)
    }
}

pub open spec fn find(s: Seq<char>, p: Seq<char>) -> Option<int> {
    find_from(s, p, 0)
}

/// Index of the last occurrence of `p` in `s` that starts strictly before `before`.
pub open spec fn rfind_before(s: Seq<char>, p: Seq<char>, before: int) -> Option<int>
    decreases before,
{
    if before <= 0 {
        None
    } else if occurs_at(s, p, before - 1) {
        Some(before - 1)
    } else {
        rfind_before(s, p, before - 1)
    }
}

pub open spec fn rfind(s: Seq<char>, p: Seq<char>) -> Option<int> {
    rfind_before(s, p, s.len() + 1int)
}

pub proof fn lemma_find_from_bounds(s: Seq<char>, p: Seq<char>, from: int)
    requires
        0 <= from,
    ensures
        find_from(s, p, from) matches Some(i) ==> from <= i && occurs_at(s, p, i)
            && forall|j: int| from <= j < i ==> !occurs_at(s, p, j),
        find_from(s, p, from) is None ==> forall|j: int| from <= j ==> !occurs_at(s, p, j),
    decreases s.len() - from,
{
    if from + p.len() > s.len() {
    } else if !occurs_at(s, p, from) {
        lemma_find_from_bounds(s, p, from + 1);
    }
}


/// First occurrence of `p` in `s` at or after `from`.
pub fn find_chars_from(s: &[char], p: &[char], from: usize) -> (r: Option<usize>)
    ensures
        r matches Some(i) ==> find_from(s@, p@, from as int) == Some(i as int),
        r is None ==> find_from(s@, p@, from as int) is None,
{
    let mut i = from;
    while i <= s.len() && p.len() <= s.len() - i
        invariant
            from <= i,
            find_from(s@, p@, from as int) == find_from(s@, p@, i as int),
        decreases s.len() + 1 - i,
    {
        if matches_at(s, p, i) {
            return Some(i);
        }
        i += 1;
    }
    None
}

pub fn find_chars(s: &[char], p: &[char]) -> (r: Option<usize>)
    ensures
        r matches Some(i) ==> find(s@, p@) == Some(i as int),
        r is None ==> find(s@, p@) is None,
{
    find_chars_from(s, p, 0)
}

/// Last occurrence of `p` in `s`.
pub fn rfind_chars(s: &[char], p: &[char]) -> (r: Option<usize>)
    ensures
        r matches Some(i) ==> rfind(s@, p@) == Some(i as int),
        r is None ==> rfind(s@, p@) is None,
{
    if p.len() > s.len() {
        proof { lemma_rfind_none_when_long(s@, p@, s@.len() + 1int); }
        return None;
    }
    let mut c = s.len() - p.len();
    proof { lemma_rfind_skip_tail(s@, p@, s@.len() + 1int, c + 1int); }
    loop
        invariant
            c + p.len() <= s.len(),
            rfind(s@, p@) == rfind_before(s@, p@, c + 1int),
        decreases c,
    {
        if matches_at(s, p, c) {
            return Some(c);
        }
        if c == 0 {
            assert(rfind_before(s@, p@, 0) is None);
            return None;
        }
        c -= 1;
    }
}

proof fn lemma_rfind_none_when_long(s: Seq<char>, p: Seq<char>, before: int)
    requires
        p.len() > s.len(),
    ensures
        rfind_before(s, p, before) is None,
    decreases before,
{
    if before > 0 {
        lemma_rfind_none_when_long(s, p, before - 1);
    }
}

/// Starting positions past `s.len() - p.len()` cannot hold a match.
proof fn lemma_rfind_skip_tail(s: Seq<char>, p: Seq<char>, before: int, b: int)
    requires
        p.len() <= s.len(),
        b == s.len() - p.len() + 1,
        b <= before,
    ensures
        rfind_before(s, p, before) == rfind_before(s, p, b),
    decreases before - b,
{
    if before > b {
        lemma_rfind_skip_tail(s, p, before - 1, b);
    }
}


/// Searching a suffix of `s` is searching `s` from a later position.
pub proof fn lemma_find_from_suffix(s: Seq<char>, p: Seq<char>, lo: int, from: int)
    requires
        0 <= lo <= s.len(),
        0 <= from,
    ensures
        find_from(s.subrange(lo, s.len() as int), p, from) == (match find_from(s, p, lo + from) {
            Some(k) => Some(k - lo),
            None => None,
        }),
    decreases s.len() - lo - from,
{
    let t = s.subrange(lo, s.len() as int);
    if from + p.len() > t.len() {
    } else {
        assert(t.subrange(from, from + p.len()) =~= s.subrange(lo + from, lo + from + p.len()));
        if !occurs_at(t, p, from) {
            lemma_find_from_suffix(s, p, lo, from + 1);
        }
    }
}


/// Appends `s[lo..hi]` to `out`.
pub fn push_range(out: &mut Vec<char>, s: &[char], lo: usize, hi: usize)
    requires
        lo <= hi <= s.len(),
    ensures
        final(out)@ == old(out)@ + s@.subrange(lo as int, hi as int),
{
    let mut k = lo;
    while k < hi
        invariant
            lo <= k <= hi <= s.len(),
            out@ == old(out)@ + s@.subrange(lo as int, k as int),
        decreases hi - k,
    {
        out.push(s[k]);
        assert(s@.subrange(lo as int, k + 1) =~= s@.subrange(lo as int, k as int).push(s@[k as int]));
        k += 1;
    }
}


/// The Unicode `White_Space` property, which `char::is_whitespace` tests.
pub open spec fn is_whitespace(c: char) -> bool {
    ('\u{9}' <= c && c <= '\u{d}') || c == ' ' || c == '\u{85}' || c == '\u{a0}'
        || c == '\u{1680}' || ('\u{2000}' <= c && c <= '\u{200a}') || c == '\u{2028}'
        || c == '\u{2029}' || c == '\u{202f}' || c == '\u{205f}' || c == '\u{3000}'
}

pub fn is_whitespace_char(c: char) -> (b: bool)
    ensures
        b == is_whitespace(c),
{
    ('\u{9}' <= c && c <= '\u{d}') || c == ' ' || c == '\u{85}' || c == '\u{a0}'
        || c == '\u{1680}' || ('\u{2000}' <= c && c <= '\u{200a}') || c == '\u{2028}'
        || c == '\u{2029}' || c == '\u{202f}' || c == '\u{205f}' || c == '\u{3000}'
}

/// Number of leading whitespace characters.
pub open spec fn leading_ws(s: Seq<char>) -> nat
    decreases s.len(),
{
    if s.len() > 0 && is_whitespace(s[0]) {
        1 + leading_ws(s.skip(1))
    } else {
        0
    }
}

/// Number of trailing whitespace characters.
pub open spec fn trailing_ws(s: Seq<char>) -> nat
    decreases s.len(),
{
    if s.len() > 0 && is_whitespace(s.last()) {
        1 + trailing_ws(s.drop_last())
    } else {
        0
    }
}

pub open spec fn trim_start(s: Seq<char>) -> Seq<char> {
    s.skip(leading_ws(s) as int)
}

pub open spec fn trim_end(s: Seq<char>) -> Seq<char> {
    s.take(s.len() - trailing_ws(s))
}

pub open spec fn trim(s: Seq<char>) -> Seq<char> {
    trim_end(trim_start(s))
}

pub proof fn lemma_leading_ws_bound(s: Seq<char>)
    ensures
        leading_ws(s) <= s.len(),
        forall|i: int| 0 <= i < leading_ws(s) ==> is_whitespace(#[trigger] s[i]),
        leading_ws(s) < s.len() ==> !is_whitespace(s[leading_ws(s) as int]),
    decreases s.len(),
{
    if s.len() > 0 && is_whitespace(s[0]) {
        lemma_leading_ws_bound(s.skip(1));
        assert forall|i: int| 0 <= i < leading_ws(s) implies is_whitespace(#[trigger] s[i]) by {
            if i > 0 {
                assert(s[i] == s.skip(1)[i - 1]);
            }
        }
        if leading_ws(s) < s.len() {
            assert(s[leading_ws(s) as int] == s.skip(1)[leading_ws(s.skip(1)) as int]);
        }
    }
}

pub proof fn lemma_trailing_ws_bound(s: Seq<char>)
    ensures
        trailing_ws(s) <= s.len(),
        forall|i: int| s.len() - trailing_ws(s) <= i < s.len() ==> is_whitespace(#[trigger] s[i]),
        trailing_ws(s) < s.len() ==> !is_whitespace(s[s.len() - trailing_ws(s) - 1]),
    decreases s.len(),
{
    if s.len() > 0 && is_whitespace(s.last()) {
        lemma_trailing_ws_bound(s.drop_last());
        assert forall|i: int| s.len() - trailing_ws(s) <= i < s.len() implies is_whitespace(
            #[trigger] s[i],
        ) by {
            if i < s.len() - 1 {
                assert(s[i] == s.drop_last()[i]);
            }
        }
        if trailing_ws(s) < s.len() {
            assert(s[s.len() - trailing_ws(s) - 1] == s.drop_last()[s.drop_last().len() - trailing_ws(s.drop_last()) - 1]);
        }
    }
}

/// `leading_ws` of `s[lo..hi]`, computed by scanning.
pub fn leading_ws_in(s: &[char], lo: usize, hi: usize) -> (k: usize)
    requires
        lo <= hi <= s.len(),
    ensures
        k as nat == leading_ws(s@.subrange(lo as int, hi as int)),
        lo + k <= hi,
{
    let mut i = lo;
    while i < hi && is_whitespace_char(s[i])
        invariant
            lo <= i <= hi <= s.len(),
            leading_ws(s@.subrange(lo as int, hi as int)) == (i - lo) + leading_ws(
                s@.subrange(i as int, hi as int),
            ),
        decreases hi - i,
    {
        assert(s@.subrange(i as int, hi as int).skip(1) =~= s@.subrange(i + 1, hi as int));
        i += 1;
    }
    i - lo
}

/// `trailing_ws` of `s[lo..hi]`, computed by scanning.
pub fn trailing_ws_in(s: &[char], lo: usize, hi: usize) -> (k: usize)
    requires
        lo <= hi <= s.len(),
    ensures
        k as nat == trailing_ws(s@.subrange(lo as int, hi as int)),
        lo + k <= hi,
{
    let mut j = hi;
    while j > lo && is_whitespace_char(s[j - 1])
        invariant
            lo <= j <= hi <= s.len(),
            trailing_ws(s@.subrange(lo as int, hi as int)) == (hi - j) + trailing_ws(
                s@.subrange(lo as int, j as int),
            ),
        decreases j,
    {
        assert(s@.subrange(lo as int, j as int).drop_last() =~= s@.subrange(lo as int, j - 1));
        j -= 1;
    }
    hi - j
}

/// Bounds of `trim(s[lo..hi])` within `s`.
pub fn trim_bounds(s: &[char], lo: usize, hi: usize) -> (r: (usize, usize))
    requires
        lo <= hi <= s.len(),
    ensures
        lo <= r.0 <= r.1 <= hi,
        s@.subrange(r.0 as int, r.1 as int) == trim(s@.subrange(lo as int, hi as int)),
{
    let a = lo + leading_ws_in(s, lo, hi);
    assert(s@.subrange(a as int, hi as int) =~= trim_start(s@.subrange(lo as int, hi as int)));
    let b = hi - trailing_ws_in(s, a, hi);
    assert(s@.subrange(a as int, b as int) =~= trim(s@.subrange(lo as int, hi as int)));
    (a, b)
}

pub open spec fn is_ascii_digit(c: char) -> bool {
    '0' <= c && c <= '9'
}

pub open spec fn all_ascii_digits(s: Seq<char>) -> bool {
    forall|i: int| 0 <= i < s.len() ==> is_ascii_digit(#[trigger] s[i])
}

pub fn all_ascii_digits_in(s: &[char], lo: usize, hi: usize) -> (b: bool)
    requires
        lo <= hi <= s.len(),
    ensures
        b == all_ascii_digits(s@.subrange(lo as int, hi as int)),
{
    let mut i = lo;
    while i < hi
        invariant
            lo <= i <= hi <= s.len(),
            forall|k: int| lo <= k < i ==> is_ascii_digit(s@[k]),
        decreases hi - i,
    {
        if !('0' <= s[i] && s[i] <= '9') {
            assert(!is_ascii_digit(s@.subrange(lo as int, hi as int)[i - lo]));
            return false;
        }
        i += 1;
    }
    assert forall|k: int| 0 <= k < s@.subrange(lo as int, hi as int).len() implies is_ascii_digit(
        #[trigger] s@.subrange(lo as int, hi as int)[k],
    ) by {
        assert(s@.subrange(lo as int, hi as int)[k] == s@[lo + k]);
    }
    true
}

/// Value of a decimal digit string.
pub open spec fn decimal_value(s: Seq<char>) -> nat
    decreases s.len(),
{
    if s.len() == 0 {
        0
    } else {
        decimal_value(s.drop_last()) * 10 + ((s.last() as u32) - ('0' as u32)) as nat
    }
}

/// What `str::parse::<u64>` gives for a string of ASCII digits.
pub open spec fn parse_u64_digits(s: Seq<char>) -> Option<u64> {
    if s.len() > 0 && decimal_value(s) <= u64::MAX {
        Some(decimal_value(s) as u64)
    } else {
        None
    }
}

/// Parses `s[lo..hi]`, which holds only ASCII digits, as a `u64`.
pub fn parse_u64_in(s: &[char], lo: usize, hi: usize) -> (r: Option<u64>)
    requires
        lo <= hi <= s.len(),
        all_ascii_digits(s@.subrange(lo as int, hi as int)),
    ensures
        r == parse_u64_digits(s@.subrange(lo as int, hi as int)),
{
    if lo == hi {
        return None;
    }
    let mut v: u64 = 0;
    let mut i = lo;
    while i < hi
        invariant
            lo <= i <= hi <= s.len(),
            all_ascii_digits(s@.subrange(lo as int, hi as int)),
            v as nat == decimal_value(s@.subrange(lo as int, i as int)),
        decreases hi - i,
    {
        assert(s@.subrange(lo as int, i + 1).drop_last() =~= s@.subrange(lo as int, i as int));
        assert(s@.subrange(lo as int, hi as int)[i - lo] == s@[i as int]);
        let d = (s[i] as u32 - '0' as u32) as u64;
        if v > (u64::MAX - d) / 10 {
            proof { lemma_decimal_value_monotone(s@.subrange(lo as int, hi as int), i + 1 - lo); }
            assert(s@.subrange(lo as int, hi as int).take(i + 1 - lo) =~= s@.subrange(lo as int, i + 1));
            return None;
        }
        v = v * 10 + d;
        i += 1;
    }
    Some(v)
}

/// A longer digit string never has a smaller value.
pub proof fn lemma_decimal_value_monotone(s: Seq<char>, k: int)
    requires
        0 <= k <= s.len(),
        all_ascii_digits(s),
    ensures
        decimal_value(s.take(k)) <= decimal_value(s),
    decreases s.len() - k,
{
    if k < s.len() {
        lemma_decimal_value_monotone(s, k + 1);
        assert(s.take(k + 1).drop_last() =~= s.take(k));
        assert(s.take(k + 1).last() == s[k]);
        assert(is_ascii_digit(s[k]));
    } else {
        assert(s.take(k) =~= s);
    }
}

/// Splits `s` at every occurrence of `c`, as `str::split` with a character pattern does.
pub open spec fn split_on(s: Seq<char>, c: char) -> Seq<Seq<char>>
    decreases s.len(),
{
    match find(s, seq![c]) {
        Some(i) => if 0 <= i < s.len() {
            seq![s.take(i)] + split_on(s.skip(i + 1), c)
        } else {
            seq![s]
        },
        None => seq![s],
    }
}


/// The views of a sequence of strings.
pub open spec fn strs_view(v: Seq<String>) -> Seq<Seq<char>> {
    v.map_values(|x: String| x@)
}

/// Splits `s` at every `c`, giving the pieces as strings.
pub fn split_chars(s: &[char], c: char) -> (r: Vec<String>)
    ensures
        strs_view(r@) == split_on(s@, c),
{
    let pat: [char; 1] = [c];
    assert(pat@ =~= seq![c]);
    let mut r: Vec<String> = Vec::new();
    let mut i: usize = 0;
    assert(s@.subrange(0, s@.len() as int) =~= s@);
    loop
        invariant
            i <= s.len(),
            pat@ == seq![c],
            strs_view(r@) + split_on(s@.subrange(i as int, s@.len() as int), c) == split_on(s@, c),
        decreases s.len() - i,
    {
        let ghost rest = s@.subrange(i as int, s@.len() as int);
        proof {
            lemma_find_from_suffix(s@, seq![c], i as int, 0);
            lemma_find_from_bounds(s@, seq![c], i as int);
        }
        match find_chars_from(s, pat.as_slice(), i) {
            Some(j) => {
                let piece = string_from_chars(&s[i..j]);
                assert(rest.take(j - i) =~= s@.subrange(i as int, j as int));
                assert(rest.skip(j - i + 1) =~= s@.subrange(j + 1, s@.len() as int));
                let ghost before = strs_view(r@);
                r.push(piece);
                assert(strs_view(r@) =~= before.push(piece@));
                assert(split_on(rest, c) == seq![rest.take(j - i)] + split_on(rest.skip(j - i + 1), c));
                assert(strs_view(r@) + split_on(s@.subrange(j + 1, s@.len() as int), c) =~= before + split_on(rest, c));
                i = j + 1;
            },
            None => {
                let piece = string_from_chars(&s[i..s.len()]);
                let ghost before = strs_view(r@);
                r.push(piece);
                assert(strs_view(r@) =~= before.push(piece@));
                assert(strs_view(r@) =~= before + split_on(rest, c));
                return r;
            },
        }
    }
}


pub proof fn lemma_split_on_nonempty(s: Seq<char>, c: char)
    ensures
        split_on(s, c).len() > 0,
{
}

pub proof fn lemma_rfind_bounds(s: Seq<char>, p: Seq<char>)
    ensures
        rfind(s, p) matches Some(i) ==> occurs_at(s, p, i) && 0 <= i && i + p.len() <= s.len(),
{
    lemma_rfind_before_bounds(s, p, s.len() + 1int);
}

pub proof fn lemma_rfind_before_bounds(s: Seq<char>, p: Seq<char>, before: int)
    ensures
        rfind_before(s, p, before) matches Some(i) ==> occurs_at(s, p, i) && i < before,
    decreases before,
{
    if before > 0 && !occurs_at(s, p, before - 1) {
        lemma_rfind_before_bounds(s, p, before - 1);
    }
}


/// Whether two strings hold the same characters.
pub fn str_eq(a: &str, b: &str) -> (r: bool)
    ensures
        r == (a@ == b@),
{
    let x = chars_of(a);
    let y = chars_of(b);
    if x.len() != y.len() {
        return false;
    }
    let mut i: usize = 0;
    while i < x.len()
        invariant
            i <= x.len() == y.len(),
            x@ == a@,
            y@ == b@,
            forall|j: int| 0 <= j < i ==> x@[j] == y@[j],
        decreases x.len() - i,
    {
        if x[i] != y[i] {
            return false;
        }
        i += 1;
    }
    assert(x@ =~= y@);
    true
}

/// `a` followed by `b`.
pub fn concat_str(a: &str, b: &str) -> (r: String)
    ensures
        r@ == a@ + b@,
{
    let mut v = chars_of(a);
    let w = chars_of(b);
    let n = v.len();
    push_range(&mut v, w.as_slice(), 0, w.len());
    assert(w@.subrange(0, w@.len() as int) =~= w@);
    string_from_chars(v.as_slice())
}

/// Whether `p` occurs anywhere in `s`.
pub fn contains_chars(s: &[char], p: &[char]) -> (b: bool)
    ensures
        b == contains(s@, p@),
{
    proof { lemma_find_from_bounds(s@, p@, 0); }
    match find_chars(s, p) {
        Some(i) => true,
        None => {
            assert forall|j: int| !occurs_at(s@, p@, j) by {
                if j < 0 {
                }
            }
            false
        },
    }
}

/// Lexicographic `<` on character sequences from position `i` on (the order of `str`).
pub open spec fn chars_lt_from(a: Seq<char>, b: Seq<char>, i: int) -> bool
    decreases a.len() - i,
{
    if i >= a.len() {
        i < b.len()
    } else if i >= b.len() {
        false
    } else if a[i] != b[i] {
        a[i] < b[i]
    } else {
        chars_lt_from(a, b, i + 1)
    }
}

pub open spec fn chars_lt(a: Seq<char>, b: Seq<char>) -> bool {
    chars_lt_from(a, b, 0)
}

pub fn str_lt(a: &str, b: &str) -> (r: bool)
    ensures
        r == chars_lt(a@, b@),
{
    let x = chars_of(a);
    let y = chars_of(b);
    let mut i: usize = 0;
    while i < x.len() && i < y.len() && x[i] == y[i]
        invariant
            i <= x.len(),
            i <= y.len(),
            x@ == a@,
            y@ == b@,
            chars_lt(a@, b@) == chars_lt_from(a@, b@, i as int),
        decreases x.len() - i,
    {
        i += 1;
    }
    if i >= x.len() {
        i < y.len()
    } else if i >= y.len() {
        false
    } else {
        x[i] < y[i]
    }
}


pub proof fn lemma_chars_lt_irreflexive(a: Seq<char>, i: int)
    requires
        0 <= i,
    ensures
        !chars_lt_from(a, a, i),
    decreases a.len() - i,
{
    if i < a.len() {
        lemma_chars_lt_irreflexive(a, i + 1);
    }
}

pub proof fn lemma_chars_lt_transitive(a: Seq<char>, b: Seq<char>, c: Seq<char>, i: int)
    requires
        0 <= i,
        chars_lt_from(a, b, i),
        chars_lt_from(b, c, i),
    ensures
        chars_lt_from(a, c, i),
    decreases a.len() - i,
{
    if i < a.len() && i < b.len() && i < c.len() && a[i] == b[i] && b[i] == c[i] {
        lemma_chars_lt_transitive(a, b, c, i + 1);
    }
}

/// Two different sequences that agree before `i` are ordered one way or the other.
pub proof fn lemma_chars_lt_total(a: Seq<char>, b: Seq<char>, i: int)
    requires
        0 <= i <= a.len(),
        i <= b.len(),
        a != b,
        a.take(i) == b.take(i),
    ensures
        chars_lt_from(a, b, i) || chars_lt_from(b, a, i),
    decreases a.len() - i,
{
    if i == a.len() && i == b.len() {
        assert(a =~= a.take(i));
        assert(b =~= b.take(i));
    } else if i < a.len() && i < b.len() && a[i] == b[i] {
        assert(a.take(i + 1) =~= a.take(i).push(a[i]));
        assert(b.take(i + 1) =~= b.take(i).push(b[i]));
        lemma_chars_lt_total(a, b, i + 1);
    }
}

/// What `str::parse::<u8>` gives: an optional `+` followed by decimal digits worth at most 255.
pub open spec fn parse_u8_text(s: Seq<char>) -> Option<u8> {
    let d = if s.len() > 0 && s[0] == '+' { s.skip(1) } else { s };
    if d.len() > 0 && all_ascii_digits(d) && decimal_value(d) <= 255 {
        Some(decimal_value(d) as u8)
    } else {
        None
    }
}

/// Parses `s[lo..hi]` as `str::parse::<u8>` does.
pub fn parse_u8_in(s: &[char], lo: usize, hi: usize) -> (r: Option<u8>)
    requires
        lo <= hi <= s.len(),
    ensures
        r == parse_u8_text(s@.subrange(lo as int, hi as int)),
{
    let ghost t = s@.subrange(lo as int, hi as int);
    let start = if lo < hi && s[lo] == '+' { lo + 1 } else { lo };
    assert(s@.subrange(start as int, hi as int) =~= (if t.len() > 0 && t[0] == '+' { t.skip(1) } else { t }));
    if start == hi || !all_ascii_digits_in(s, start, hi) {
        return None;
    }
    let ghost d = s@.subrange(start as int, hi as int);
    let mut v: u64 = 0;
    let mut i = start;
    while i < hi
        invariant
            start <= i <= hi <= s.len(),
            d == s@.subrange(start as int, hi as int),
            t == s@.subrange(lo as int, hi as int),
            d == (if t.len() > 0 && t[0] == '+' { t.skip(1) } else { t }),
            all_ascii_digits(d),
            v as nat == decimal_value(s@.subrange(start as int, i as int)),
            v <= 255,
        decreases hi - i,
    {
        assert(s@.subrange(start as int, i + 1).drop_last() =~= s@.subrange(start as int, i as int));
        assert(d[i - start] == s@[i as int]);
        let dv = (s[i] as u32 - '0' as u32) as u64;
        let nv = v * 10 + dv;
        assert(s@.subrange(start as int, i + 1).last() == s@[i as int]);
        assert(nv as nat == decimal_value(s@.subrange(start as int, i + 1)));
        if nv > 255 {
            proof {
                lemma_decimal_value_monotone(d, i + 1 - start);
                assert(d.take(i + 1 - start) =~= s@.subrange(start as int, i + 1));
            }
            return None;
        }
        v = nv;
        i += 1;
    }
    Some(v as u8)
}


/// Index of the first whitespace character at or after `i`.
pub open spec fn find_ws_from(s: Seq<char>, i: int) -> Option<int>
    decreases s.len() - i,
{
    if i < 0 || i >= s.len() {
        None
    } else if is_whitespace(s[i]) {
        Some(i)
    } else {
        find_ws_from(s, i + 1)
    }
}

pub proof fn lemma_find_ws_from(s: Seq<char>, i: int)
    requires
        0 <= i,
    ensures
        find_ws_from(s, i) matches Some(w) ==> i <= w < s.len() && is_whitespace(s[w]),
    decreases s.len() - i,
{
    if i < s.len() && !is_whitespace(s[i]) {
        lemma_find_ws_from(s, i + 1);
    }
}

pub fn find_ws_in(s: &[char], from: usize) -> (r: Option<usize>)
    ensures
        r matches Some(w) ==> find_ws_from(s@, from as int) == Some(w as int),
        r is None ==> find_ws_from(s@, from as int) is None,
{
    let mut i = from;
    while i < s.len()
        invariant
            from <= i,
            find_ws_from(s@, from as int) == find_ws_from(s@, i as int),
        decreases s.len() - i,
    {
        if is_whitespace_char(s[i]) {
            return Some(i);
        }
        i += 1;
    }
    None
}

/// Index just past the last whitespace character before `end` (0 if there is none).
pub open spec fn last_ws_end(s: Seq<char>, end: int) -> int
    decreases end,
{
    if end <= 0 || end > s.len() {
        0
    } else if is_whitespace(s[end - 1]) {
        end
    } else {
        last_ws_end(s, end - 1)
    }
}

pub proof fn lemma_last_ws_end(s: Seq<char>, end: int)
    requires
        0 <= end <= s.len(),
    ensures
        0 <= last_ws_end(s, end) <= end,
    decreases end,
{
    if end > 0 && !is_whitespace(s[end - 1]) {
        lemma_last_ws_end(s, end - 1);
    }
}

pub fn last_ws_end_in(s: &[char], end: usize) -> (r: usize)
    requires
        end <= s.len(),
    ensures
        r as int == last_ws_end(s@, end as int),
        r <= end,
{
    let mut e = end;
    while e > 0 && !is_whitespace_char(s[e - 1])
        invariant
            e <= end <= s.len(),
            last_ws_end(s@, end as int) == last_ws_end(s@, e as int),
        decreases e,
    {
        e -= 1;
    }
    e
}

/// The last word of `s` when split at whitespace (`str::split_whitespace().next_back()`), for
/// an `s` that does not end in whitespace.
pub open spec fn last_word(s: Seq<char>) -> Seq<char> {
    s.skip(last_ws_end(s, s.len() as int))
}


/// Whether two character slices are equal.
pub fn slice_eq(a: &[char], b: &[char]) -> (r: bool)
    ensures
        r == (a@ == b@),
{
    if a.len() != b.len() {
        return false;
    }
    let mut i: usize = 0;
    while i < a.len()
        invariant
            i <= a.len() == b.len(),
            forall|j: int| 0 <= j < i ==> a@[j] == b@[j],
        decreases a.len() - i,
    {
        if a[i] != b[i] {
            return false;
        }
        i += 1;
    }
    assert(a@ =~= b@);
    true
}

/// The views of a sequence of string pairs.
pub open spec fn pairs_view(v: Seq<(String, String)>) -> Seq<(Seq<char>, Seq<char>)> {
    v.map_values(|x: (String, String)| (x.0@, x.1@))
}

pub open spec fn opt_str_view(o: Option<String>) -> Option<Seq<char>> {
    match o {
        Some(s) => Some(s@),
        None => None,
    }
}

/// The character of a decimal digit.
pub open spec fn digit_char(x: int) -> char {
    (('0' as u32) + x) as char
}

/// The decimal notation of `n`, without leading zeros.
pub open spec fn decimal_text(n: nat) -> Seq<char>
    decreases n,
{
    if n < 10 {
        seq![digit_char(n as int)]
    } else {
        decimal_text(n / 10).push(digit_char((n % 10) as int))
    }
}

/// Appends the decimal notation of `n` to `out`.
pub fn push_decimal(out: &mut Vec<char>, n: u64)
    ensures
        final(out)@ == old(out)@ + decimal_text(n as nat),
    decreases n,
{
    if n >= 10 {
        push_decimal(out, n / 10);
    }
    let d: u8 = (n % 10) as u8;
    let c: char = (('0' as u8) + d) as char;
    assert(c == digit_char((n % 10) as int));
    out.push(c);
    assert(final(out)@ =~= old(out)@ + decimal_text(n as nat));
}

/// The decimal digits of a number are ASCII digits, and they read back as the number.
pub proof fn lemma_decimal_text_parses(n: nat)
    ensures
        decimal_text(n).len() > 0,
        all_ascii_digits(decimal_text(n)),
        decimal_value(decimal_text(n)) == n,
    decreases n,
{
    let t = decimal_text(n);
    let d = n % 10;
    assert(digit_char(d as int) as u32 == '0' as u32 + d);
    if n >= 10 {
        lemma_decimal_text_parses(n / 10);
        assert(t.drop_last() =~= decimal_text(n / 10));
        assert(n == (n / 10) * 10 + n % 10) by (nonlinear_arith)
            requires n >= 0;
    } else {
        assert(t.drop_last() =~= Seq::<char>::empty());
        assert(decimal_value(t.drop_last()) == 0);
    }
}

/// What `str::parse::<u64>` gives: an optional `+` followed by decimal digits worth at most
/// `u64::MAX`.
pub open spec fn parse_u64_text(s: Seq<char>) -> Option<u64> {
    let d = if s.len() > 0 && s[0] == '+' { s.skip(1) } else { s };
    if all_ascii_digits(d) { parse_u64_digits(d) } else { None }
}

/// Parses `s` as `str::parse::<u64>` does.
pub fn parse_u64_str(s: &str) -> (r: Option<u64>)
    ensures
        r == parse_u64_text(s@),
{
    let v = chars_of(s);
    let n = v.len();
    let start: usize = if n > 0 && v[0] == '+' { 1 } else { 0 };
    assert(v@.subrange(start as int, n as int) =~= (if s@.len() > 0 && s@[0] == '+' { s@.skip(1) } else { s@ }));
    if !all_ascii_digits_in(v.as_slice(), start, n) {
        return None;
    }
    parse_u64_in(v.as_slice(), start, n)
}

/// Appends the characters of `s` to `out`.
pub fn push_str(out: &mut Vec<char>, s: &str)
    ensures
        final(out)@ == old(out)@ + s@,
{
    let v = chars_of(s);
    push_range(out, v.as_slice(), 0, v.len());
    assert(v@.subrange(0, v@.len() as int) =~= s@);
}

/// `s` with every `from` replaced by `to`.
pub open spec fn replace_char(s: Seq<char>, from: char, to: char) -> Seq<char> {
    s.map_values(|c: char| if c == from { to } else { c })
}

pub fn replaced(s: &[char], from: char, to: char) -> (r: Vec<char>)
    ensures
        r@ == replace_char(s@, from, to),
{
    let mut out: Vec<char> = Vec::new();
    let mut i: usize = 0;
    while i < s.len()
        invariant
            i <= s@.len(),
            out@ == replace_char(s@.take(i as int), from, to),
        decreases s.len() - i,
    {
        out.push(if s[i] == from { to } else { s[i] });
        i += 1;
        assert(replace_char(s@.take(i as int), from, to) =~= replace_char(s@.take(i - 1), from, to).push(
            if s@[i - 1] == from { to } else { s@[i - 1] },
        ));
    }
    assert(s@.take(s@.len() as int) =~= s@);
    out
}

/// `s` split at every occurrence of `p` (which is not empty), as `str::split` does.
pub open spec fn split_at_pattern(s: Seq<char>, p: Seq<char>) -> Seq<Seq<char>>
    decreases s.len(),
{
    match find(s, p) {
        Some(i) => if p.len() > 0 && 0 <= i && i + p.len() <= s.len() {
            seq![s.take(i)] + split_at_pattern(s.skip(i + p.len()), p)
        } else {
            seq![s]
        },
        None => seq![s],
    }
}

/// Splits `s` at every occurrence of the (non-empty) pattern `p`.
pub fn split_pattern(s: &[char], p: &[char]) -> (r: Vec<String>)
    requires
        p@.len() > 0,
    ensures
        strs_view(r@) == split_at_pattern(s@, p@),
{
    let mut r: Vec<String> = Vec::new();
    let mut i: usize = 0;
    let n = s.len();
    assert(s@.subrange(0, s@.len() as int) =~= s@);
    loop
        invariant
            i <= n == s@.len(),
            p@.len() > 0,
            strs_view(r@) + split_at_pattern(s@.subrange(i as int, s@.len() as int), p@) == split_at_pattern(s@, p@),
        decreases n - i,
    {
        let ghost rest = s@.subrange(i as int, s@.len() as int);
        proof {
            lemma_find_from_suffix(s@, p@, i as int, 0);
            lemma_find_from_bounds(s@, p@, i as int);
        }
        match find_chars_from(s, p, i) {
            Some(j) => {
                let piece = string_from_chars(&s[i..j]);
                let pl = p.len();
                assert(rest.take(j - i) =~= s@.subrange(i as int, j as int));
                assert(rest.skip(j - i + pl) =~= s@.subrange(j + pl, s@.len() as int));
                let ghost before = strs_view(r@);
                r.push(piece);
                assert(strs_view(r@) =~= before.push(piece@));
                assert(split_at_pattern(rest, p@) == seq![rest.take(j - i)] + split_at_pattern(rest.skip(j - i + pl), p@));
                assert(strs_view(r@) + split_at_pattern(s@.subrange(j + pl, s@.len() as int), p@) =~= before
                    + split_at_pattern(rest, p@));
                i = j + pl;
            },
            None => {
                let piece = string_from_chars(&s[i..n]);
                let ghost before = strs_view(r@);
                r.push(piece);
                assert(strs_view(r@) =~= before.push(piece@));
                assert(strs_view(r@) =~= before + split_at_pattern(rest, p@));
                return r;
            },
        }
    }
}


/// What `str::parse::<usize>` gives for a text.
pub open spec fn parse_usize_text(s: Seq<char>) -> Option<usize> {
    match parse_u64_text(s) {
        Some(v) => if v <= usize::MAX { Some(v as usize) } else { None },
        None => None,
    }
}

pub fn parse_usize_str(s: &str) -> (r: Option<usize>)
    ensures
        r == parse_usize_text(s@),
{
    match parse_u64_str(s) {
        Some(v) => if v <= usize::MAX as u64 { Some(v as usize) } else { None },
        None => None,
    }
}


pub open spec fn is_hex_digit(c: char) -> bool {
    ('0' <= c && c <= '9') || ('a' <= c && c <= 'f') || ('A' <= c && c <= 'F')
}

pub open spec fn hex_digit_value(c: char) -> nat {
    if '0' <= c && c <= '9' {
        ((c as u32) - ('0' as u32)) as nat
    } else if 'a' <= c && c <= 'f' {
        ((c as u32) - ('a' as u32) + 10) as nat
    } else {
        ((c as u32) - ('A' as u32) + 10) as nat
    }
}

/// Value of a hexadecimal digit string.
pub open spec fn hex_value(s: Seq<char>) -> nat
    decreases s.len(),
{
    if s.len() == 0 {
        0
    } else {
        hex_value(s.drop_last()) * 16 + hex_digit_value(s.last())
    }
}

/// Whether `usize::from_str_radix(s, 16)` succeeds: an optional `+` followed by at least
/// one hexadecimal digit, worth at most `usize::MAX`.
pub open spec fn hex_usize_text_ok(s: Seq<char>) -> bool {
    let d = if s.len() > 0 && s[0] == '+' { s.skip(1) } else { s };
    &&& d.len() > 0
    &&& all_hex_digits(d)
    &&& hex_value(d) <= usize::MAX
}

pub open spec fn all_hex_digits(d: Seq<char>) -> bool {
    forall|i: int| 0 <= i < d.len() ==> is_hex_digit(#[trigger] d[i])
}

/// Whether `s` parses as a hexadecimal `usize`, as `usize::from_str_radix(s, 16)` does.
pub fn hex_usize_ok(s: &[char]) -> (b: bool)
    ensures
        b == hex_usize_text_ok(s@),
{
    let n = s.len();
    let start: usize = if n > 0 && s[0] == '+' { 1 } else { 0 };
    let ghost d = if s@.len() > 0 && s@[0] == '+' { s@.skip(1) } else { s@ };
    assert(d =~= s@.subrange(start as int, n as int));
    if start == n {
        return false;
    }
    let mut v: usize = 0;
    let mut over = false;
    let mut i = start;
    while i < n
        invariant
            start <= i <= n == s@.len(),
            d == s@.subrange(start as int, n as int),
            d == (if s@.len() > 0 && s@[0] == '+' { s@.skip(1) } else { s@ }),
            forall|k: int| start <= k < i ==> is_hex_digit(#[trigger] s@[k]),
            !over ==> v as nat == hex_value(s@.subrange(start as int, i as int)),
            over ==> hex_value(s@.subrange(start as int, i as int)) > usize::MAX,
        decreases n - i,
    {
        let c = s[i];
        let dv: usize = if '0' <= c && c <= '9' {
            (c as u32 - '0' as u32) as usize
        } else if 'a' <= c && c <= 'f' {
            (c as u32 - 'a' as u32 + 10) as usize
        } else if 'A' <= c && c <= 'F' {
            (c as u32 - 'A' as u32 + 10) as usize
        } else {
            assert(d[i - start] == c);
            assert(!is_hex_digit(d[i - start]));
            return false;
        };
        assert(s@.subrange(start as int, i + 1).drop_last() =~= s@.subrange(start as int, i as int));
        assert(s@.subrange(start as int, i + 1).last() == c);
        if !over {
            if v > (usize::MAX - dv) / 16 {
                over = true;
            } else {
                v = v * 16 + dv;
            }
        }
        i += 1;
    }
    assert(s@.subrange(start as int, n as int) =~= d);
    assert forall|k: int| 0 <= k < d.len() implies is_hex_digit(#[trigger] d[k]) by {
        assert(d[k] == s@[start + k]);
    }
    !over
}


/// The frames joined by `;`.
pub open spec fn joined(s: Seq<Seq<char>>) -> Seq<char>
    decreases s.len(),
{
    if s.len() == 0 {
        Seq::empty()
    } else if s.len() == 1 {
        s[0]
    } else {
        joined(s.drop_last()) + seq![';'] + s.last()
    }
}

/// Appends the frames joined by `;` to `out`.
pub fn push_joined(out: &mut Vec<char>, frames: &[String])
    ensures
        final(out)@ == old(out)@ + joined(strs_view(frames@)),
{
    let ghost fv = strs_view(frames@);
    let ghost base = out@;
    let n = frames.len();
    let mut i: usize = 0;
    while i < n
        invariant
            n == frames@.len() == fv.len(),
            fv == strs_view(frames@),
            i <= n,
            out@ == base + joined(fv.take(i as int)),
        decreases n - i,
    {
        if i > 0 {
            out.push(';');
        }
        assert(fv[i as int] == frames@[i as int]@);
        push_str(out, frames[i].as_str());
        proof {
            assert(fv.take(i + 1).drop_last() =~= fv.take(i as int));
            if i == 0 {
                assert(fv.take(1) =~= seq![fv[0]]);
            }
        }
        i += 1;
    }
    assert(fv.take(n as int) =~= fv);
}


/// `p` occurs in the bytes `s` starting at index `i`.
pub open spec fn bytes_occur_at(s: Seq<u8>, p: Seq<u8>, i: int) -> bool {
    0 <= i && i + p.len() <= s.len() && s.subrange(i, i + p.len()) =~= p
}

/// Index of the first occurrence of `p` in the bytes `s` at or after `from`.
pub open spec fn bytes_find_from(s: Seq<u8>, p: Seq<u8>, from: int) -> Option<int>
    decreases s.len() - from,
{
    if from < 0 || from + p.len() > s.len() {
        None
    } else if bytes_occur_at(s, p, from) {
        Some(from)
    } else {
        bytes_find_from(s, p, from + 1)
    }
}

/// Index of the last occurrence of `p` in the bytes `s` that starts before `before`.
pub open spec fn bytes_rfind_before(s: Seq<u8>, p: Seq<u8>, before: int) -> Option<int>
    decreases before,
{
    if before <= 0 {
        None
    } else if bytes_occur_at(s, p, before - 1) {
        Some(before - 1)
    } else {
        bytes_rfind_before(s, p, before - 1)
    }
}

pub proof fn lemma_bytes_rfind_bounds(s: Seq<u8>, p: Seq<u8>, before: int)
    ensures
        bytes_rfind_before(s, p, before) matches Some(i) ==> bytes_occur_at(s, p, i),
    decreases before,
{
    if before > 0 && !bytes_occur_at(s, p, before - 1) {
        lemma_bytes_rfind_bounds(s, p, before - 1);
    }
}

fn bytes_match_at(s: &[u8], p: &[u8], i: usize) -> (b: bool)
    ensures
        b == bytes_occur_at(s@, p@, i as int),
{
    if i > s.len() || p.len() > s.len() - i {
        return false;
    }
    let mut k: usize = 0;
    while k < p.len()
        invariant
            i + p.len() <= s.len(),
            k <= p.len(),
            forall|j: int| 0 <= j < k ==> s@[i + j] == p@[j],
        decreases p.len() - k,
    {
        if s[i + k] != p[k] {
            assert(s@.subrange(i as int, i + p@.len())[k as int] != p@[k as int]);
            return false;
        }
        k += 1;
    }
    assert(s@.subrange(i as int, i + p@.len()) =~= p@);
    true
}

/// First occurrence of `p` in the bytes `s`.
pub fn find_bytes(s: &[u8], p: &[u8]) -> (r: Option<usize>)
    ensures
        r matches Some(i) ==> bytes_find_from(s@, p@, 0) == Some(i as int),
        r is None ==> bytes_find_from(s@, p@, 0) is None,
{
    let mut i: usize = 0;
    while i <= s.len() && p.len() <= s.len() - i
        invariant
            bytes_find_from(s@, p@, 0) == bytes_find_from(s@, p@, i as int),
        decreases s.len() + 1 - i,
    {
        if bytes_match_at(s, p, i) {
            return Some(i);
        }
        i += 1;
    }
    None
}

/// Last occurrence of `p` in the bytes `s`.
pub fn rfind_bytes(s: &[u8], p: &[u8]) -> (r: Option<usize>)
    ensures
        r matches Some(i) ==> bytes_rfind_before(s@, p@, s@.len() + 1int) == Some(i as int),
        r is None ==> bytes_rfind_before(s@, p@, s@.len() + 1int) is None,
{
    if p.len() > s.len() {
        proof { lemma_bytes_rfind_none(s@, p@, s@.len() + 1int); }
        return None;
    }
    let mut c = s.len() - p.len();
    proof { lemma_bytes_rfind_tail(s@, p@, s@.len() + 1int, c + 1int); }
    loop
        invariant
            c + p.len() <= s.len(),
            bytes_rfind_before(s@, p@, s@.len() + 1int) == bytes_rfind_before(s@, p@, c + 1),
        decreases c,
    {
        if bytes_match_at(s, p, c) {
            return Some(c);
        }
        if c == 0 {
            assert(bytes_rfind_before(s@, p@, 0) is None);
            return None;
        }
        c -= 1;
    }
}

proof fn lemma_bytes_rfind_none(s: Seq<u8>, p: Seq<u8>, before: int)
    requires
        p.len() > s.len(),
    ensures
        bytes_rfind_before(s, p, before) is None,
    decreases before,
{
    if before > 0 {
        lemma_bytes_rfind_none(s, p, before - 1);
    }
}

proof fn lemma_bytes_rfind_tail(s: Seq<u8>, p: Seq<u8>, before: int, b: int)
    requires
        b <= before,
        p.len() <= s.len(),
        b == s.len() - p.len() + 1,
    ensures
        bytes_rfind_before(s, p, before) == bytes_rfind_before(s, p, b),
    decreases before - b,
{
    if before > b {
        assert(!bytes_occur_at(s, p, before - 1));
        lemma_bytes_rfind_tail(s, p, before - 1, b);
    }
}

/// The end of the word that runs from `i`: the first whitespace at or after `i`.
pub open spec fn word_end(s: Seq<char>, i: int) -> int
    decreases s.len() - i,
{
    if i < 0 || i >= s.len() || is_whitespace(s[i]) {
        i
    } else {
        word_end(s, i + 1)
    }
}

pub proof fn lemma_word_end(s: Seq<char>, i: int)
    requires
        0 <= i <= s.len(),
    ensures
        i <= word_end(s, i) <= s.len(),
        forall|k: int| i <= k < word_end(s, i) ==> !is_whitespace(#[trigger] s[k]),
    decreases s.len() - i,
{
    if i < s.len() && !is_whitespace(s[i]) {
        lemma_word_end(s, i + 1);
    }
}

/// The whitespace-separated words of `s` from position `i` on, as `str::split_whitespace`
/// gives them.
pub open spec fn words_from(s: Seq<char>, i: int) -> Seq<Seq<char>>
    decreases s.len() - i,
{
    if i < 0 || i >= s.len() {
        Seq::empty()
    } else if is_whitespace(s[i]) {
        words_from(s, i + 1)
    } else {
        let e = word_end(s, i + 1);
        proof {
            lemma_word_end(s, i + 1);
        }
        seq![s.subrange(i, e)] + words_from(s, e)
    }
}

/// The end of the word that runs from `i`, found by scanning.
pub fn word_end_in(s: &[char], i: usize) -> (e: usize)
    requires
        i <= s.len(),
    ensures
        e == word_end(s@, i as int),
{
    let mut e = i;
    while e < s.len() && !is_whitespace_char(s[e])
        invariant
            i <= e <= s.len(),
            word_end(s@, i as int) == word_end(s@, e as int),
        decreases s.len() - e,
    {
        e += 1;
    }
    e
}


} // verus!
