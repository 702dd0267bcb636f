//! Color palettes and options for flame graph generation.
use vstd::prelude::*;
use crate::text::{chars_of, concat_str, str_eq, string_from_chars};

pub mod palette_map;
pub mod palettes;

pub use palette_map::PaletteMap;

verus! {

/// An RGB color with 8-bit components.
#[derive(Clone, Copy, Debug, PartialEq, Eq, Structural)]
pub struct Color {
    pub r: u8,
    pub g: u8,
    pub b: u8,
}

/// The color of the `--` frames that stand for truncated stacks.
pub fn vdgrey() -> (c: Color)
    ensures
        c == (Color { r: 160, g: 160, b: 160 }),
{
    Color { r: 160, g: 160, b: 160 }
}

/// The color of the `-` frames that separate kernel and user stacks.
pub fn dgrey() -> (c: Color)
    ensures
        c == (Color { r: 200, g: 200, b: 200 }),
{
    Color { r: 200, g: 200, b: 200 }
}

/// A flame graph background color.
///
/// The default background color usually depends on the color scheme:
///
///  - [`BasicPalette::Mem`] defaults to [`BackgroundColor::Green`].
///  - [`BasicPalette::Io`] and [`MultiPalette::Wakeup`] default to [`BackgroundColor::Blue`].
///  - [`BasicPalette::Hot`] defaults to [`BackgroundColor::Yellow`].
///  - All other [`BasicPalette`] variants default to [`BackgroundColor::Grey`].
///  - All other [`MultiPalette`] variants default to [`BackgroundColor::Yellow`].
///
/// `BackgroundColor::default()` is `Yellow`.
#[derive(Clone, Copy, Debug, PartialEq, Eq, Structural)]
pub enum BackgroundColor {
    /// A yellow gradient from `#EEEEEE` to `#EEEEB0`.
    Yellow,
    /// A blue gradient from `#EEEEEE` to `#E0E0FF`.
    Blue,
    /// A green gradient from `#EEF2EE` to `#E0FFE0`.
    Green,
    /// A grey gradient from `#F8F8F8` to `#E8E8E8`.
    Grey,
    /// A flat background color, written `#RRGGBB` in hexadecimal.
    Flat(Color),
}

impl Default for BackgroundColor {
    fn default() -> (r: Self)
        ensures
            r == BackgroundColor::Yellow,
    {
        BackgroundColor::Yellow
    }
}

/// A plain color palette in which the color is not chosen based on function semantics.
#[derive(Clone, Copy, Debug, PartialEq, Eq, Structural)]
pub enum BasicPalette {
    /// Colors from a red-yellow spectrum.
    Hot,
    /// Colors from a green-blue spectrum.
    Mem,
    /// Colors from a wide blue spectrum.
    Io,
    /// Colors from a red spectrum.
    Red,
    /// Colors from a green spectrum.
    Green,
    /// Colors from a blue spectrum.
    Blue,
    /// Colors from an aqua-tinted spectrum.
    Aqua,
    /// Colors from a yellow spectrum.
    Yellow,
    /// Colors from a purple spectrum.
    Purple,
    /// Colors from an orange spectrum.
    Orange,
}

/// A semantic color palette in which different hues signify semantic aspects of
/// function names (kernel functions, JIT functions, etc.).
#[derive(Clone, Copy, Debug, PartialEq, Eq, Structural)]
pub enum MultiPalette {
    /// Use Java semantics to color frames.
    Java,
    /// Use JavaScript semantics to color frames.
    Js,
    /// Use Perl semantics to color frames.
    Perl,
    /// Equivalent to [`BasicPalette::Aqua`] with [`BackgroundColor::Blue`].
    Wakeup,
}

/// A flame graph color palette. Defaults to [`BasicPalette::Hot`].
#[derive(Clone, Copy, Debug, PartialEq, Eq, Structural)]
pub enum Palette {
    /// A plain color palette.
    Basic(BasicPalette),
    /// A semantic color palette.
    Multi(MultiPalette),
}

impl Default for Palette {
    fn default() -> (r: Self)
        ensures
            r == Palette::Basic(BasicPalette::Hot),
    {
        Palette::Basic(BasicPalette::Hot)
    }
}

/// The palette named by `s`, as accepted on the command line.
pub open spec fn palette_named(s: Seq<char>) -> Option<Palette> {
    if s == "hot"@ { Some(Palette::Basic(BasicPalette::Hot)) }
    else if s == "mem"@ { Some(Palette::Basic(BasicPalette::Mem)) }
    else if s == "io"@ { Some(Palette::Basic(BasicPalette::Io)) }
    else if s == "wakeup"@ { Some(Palette::Multi(MultiPalette::Wakeup)) }
    else if s == "java"@ { Some(Palette::Multi(MultiPalette::Java)) }
    else if s == "js"@ { Some(Palette::Multi(MultiPalette::Js)) }
    else if s == "perl"@ { Some(Palette::Multi(MultiPalette::Perl)) }
    else if s == "red"@ { Some(Palette::Basic(BasicPalette::Red)) }
    else if s == "green"@ { Some(Palette::Basic(BasicPalette::Green)) }
    else if s == "blue"@ { Some(Palette::Basic(BasicPalette::Blue)) }
    else if s == "aqua"@ { Some(Palette::Basic(BasicPalette::Aqua)) }
    else if s == "yellow"@ { Some(Palette::Basic(BasicPalette::Yellow)) }
    else if s == "purple"@ { Some(Palette::Basic(BasicPalette::Purple)) }
    else if s == "orange"@ { Some(Palette::Basic(BasicPalette::Orange)) }
    else { None }
}

impl Palette {
    /// Parses a palette name such as `hot` or `java`.
    pub fn from_name(s: &str) -> (r: Result<Palette, String>)
        ensures
            r matches Ok(p) ==> palette_named(s@) == Some(p),
            r matches Err(e) ==> palette_named(s@) is None && e@ == "unknown color palette: "@ + s@,
    {
        if str_eq(s, "hot") { Ok(Palette::Basic(BasicPalette::Hot)) }
        else if str_eq(s, "mem") { Ok(Palette::Basic(BasicPalette::Mem)) }
        else if str_eq(s, "io") { Ok(Palette::Basic(BasicPalette::Io)) }
        else if str_eq(s, "wakeup") { Ok(Palette::Multi(MultiPalette::Wakeup)) }
        else if str_eq(s, "java") { Ok(Palette::Multi(MultiPalette::Java)) }
        else if str_eq(s, "js") { Ok(Palette::Multi(MultiPalette::Js)) }
        else if str_eq(s, "perl") { Ok(Palette::Multi(MultiPalette::Perl)) }
        else if str_eq(s, "red") { Ok(Palette::Basic(BasicPalette::Red)) }
        else if str_eq(s, "green") { Ok(Palette::Basic(BasicPalette::Green)) }
        else if str_eq(s, "blue") { Ok(Palette::Basic(BasicPalette::Blue)) }
        else if str_eq(s, "aqua") { Ok(Palette::Basic(BasicPalette::Aqua)) }
        else if str_eq(s, "yellow") { Ok(Palette::Basic(BasicPalette::Yellow)) }
        else if str_eq(s, "purple") { Ok(Palette::Basic(BasicPalette::Purple)) }
        else if str_eq(s, "orange") { Ok(Palette::Basic(BasicPalette::Orange)) }
        else { Err(concat_str("unknown color palette: ", s)) }
    }
}

impl core::str::FromStr for Palette {
    type Err = String;

    fn from_str(s: &str) -> (r: Result<Self, Self::Err>)
        ensures
            r matches Ok(p) ==> palette_named(s@) == Some(p),
            r matches Err(e) ==> palette_named(s@) is None && e@ == "unknown color palette: "@ + s@,
    {
        Palette::from_name(s)
    }
}

/// The value of a hexadecimal digit.
pub open spec fn hex_value(c: char) -> Option<u8> {
    if '0' <= c && c <= '9' {
        Some(((c as u32) - ('0' as u32)) as u8)
    } else if 'a' <= c && c <= 'f' {
        Some(((c as u32) - ('a' as u32) + 10) as u8)
    } else if 'A' <= c && c <= 'F' {
        Some(((c as u32) - ('A' as u32) + 10) as u8)
    } else {
        None
    }
}

fn hex_value_of(c: char) -> (r: Option<u8>)
    ensures
        r == hex_value(c),
        r matches Some(v) ==> v < 16,
{
    if '0' <= c && c <= '9' {
        Some((c as u32 - '0' as u32) as u8)
    } else if 'a' <= c && c <= 'f' {
        Some((c as u32 - 'a' as u32 + 10) as u8)
    } else if 'A' <= c && c <= 'F' {
        Some((c as u32 - 'A' as u32 + 10) as u8)
    } else {
        None
    }
}

/// The byte written by the two hexadecimal digits `hi` and `lo`.
pub open spec fn hex_byte(hi: char, lo: char) -> Option<u8> {
    match (hex_value(hi), hex_value(lo)) {
        (Some(a), Some(b)) => Some((a * 16 + b) as u8),
        _ => None,
    }
}

/// A color written `#rrggbb` in hexadecimal (either case).
pub open spec fn flat_color(s: Seq<char>) -> Option<Color> {
    if s.len() == 7 && s[0] == '#' {
        match (hex_byte(s[1], s[2]), hex_byte(s[3], s[4]), hex_byte(s[5], s[6])) {
            (Some(r), Some(g), Some(b)) => Some(Color { r, g, b }),
            _ => None,
        }
    } else {
        None
    }
}

fn hex_byte_of(hi: char, lo: char) -> (r: Option<u8>)
    ensures
        r == hex_byte(hi, lo),
{
    match (hex_value_of(hi), hex_value_of(lo)) {
        (Some(a), Some(b)) => Some(a * 16 + b),
        _ => None,
    }
}

/// Parses a flat color written `#rrggbb`.
pub fn parse_flat_bgcolor(s: &str) -> (r: Option<Color>)
    ensures
        r == flat_color(s@),
{
    let c = chars_of(s);
    if c.len() != 7 || c[0] != '#' {
        return None;
    }
    match (hex_byte_of(c[1], c[2]), hex_byte_of(c[3], c[4]), hex_byte_of(c[5], c[6])) {
        (Some(r), Some(g), Some(b)) => Some(Color { r, g, b }),
        _ => None,
    }
}

/// The background color named by `s`.
pub open spec fn background_named(s: Seq<char>) -> Option<BackgroundColor> {
    if s == "yellow"@ { Some(BackgroundColor::Yellow) }
    else if s == "blue"@ { Some(BackgroundColor::Blue) }
    else if s == "green"@ { Some(BackgroundColor::Green) }
    else if s == "grey"@ { Some(BackgroundColor::Grey) }
    else {
        match flat_color(s) {
            Some(c) => Some(BackgroundColor::Flat(c)),
            None => None,
        }
    }
}

impl BackgroundColor {
    /// Parses a gradient name (`yellow`, `blue`, `green`, `grey`) or a flat `#rrggbb` color.
    pub fn from_name(s: &str) -> (r: Result<BackgroundColor, String>)
        ensures
            r matches Ok(b) ==> background_named(s@) == Some(b),
            r matches Err(e) ==> background_named(s@) is None && e@ == "unknown background color: "@ + s@,
    {
        if str_eq(s, "yellow") { Ok(BackgroundColor::Yellow) }
        else if str_eq(s, "blue") { Ok(BackgroundColor::Blue) }
        else if str_eq(s, "green") { Ok(BackgroundColor::Green) }
        else if str_eq(s, "grey") { Ok(BackgroundColor::Grey) }
        else {
            match parse_flat_bgcolor(s) {
                Some(c) => Ok(BackgroundColor::Flat(c)),
                None => Err(concat_str("unknown background color: ", s)),
            }
        }
    }
}

impl core::str::FromStr for BackgroundColor {
    type Err = String;

    fn from_str(s: &str) -> (r: Result<Self, Self::Err>)
        ensures
            r matches Ok(b) ==> background_named(s@) == Some(b),
            r matches Err(e) ==> background_named(s@) is None && e@ == "unknown background color: "@ + s@,
    {
        BackgroundColor::from_name(s)
    }
}

/// The color used to highlight search matches. `SearchColor::default()` is `rgb(230,0,230)`.
#[derive(Clone, Copy, Debug, PartialEq, Eq, Structural)]
pub struct SearchColor(pub Color);

impl Default for SearchColor {
    fn default() -> (r: Self)
        ensures
            r == SearchColor(Color { r: 230, g: 0, b: 230 }),
    {
        SearchColor(Color { r: 230, g: 0, b: 230 })
    }
}

pub open spec fn decimal_digit(x: int) -> char {
    (('0' as u32) + x) as char
}

/// The decimal digits of a byte, without leading zeros.
pub open spec fn decimal_u8(v: u8) -> Seq<char> {
    let n = v as int;
    if n < 10 {
        seq![decimal_digit(n)]
    } else if n < 100 {
        seq![decimal_digit(n / 10), decimal_digit(n % 10)]
    } else {
        seq![decimal_digit(n / 100), decimal_digit((n / 10) % 10), decimal_digit(n % 10)]
    }
}

fn digit_char(x: u8) -> (c: char)
    requires
        x < 10,
    ensures
        c == decimal_digit(x as int),
{
    (('0' as u8) + x) as char
}

/// Appends the decimal digits of `v` to `out`.
pub fn push_decimal_u8(out: &mut Vec<char>, v: u8)
    ensures
        final(out)@ == old(out)@ + decimal_u8(v),
{
    if v < 10 {
        out.push(digit_char(v));
    } else if v < 100 {
        out.push(digit_char(v / 10));
        out.push(digit_char(v % 10));
    } else {
        out.push(digit_char(v / 100));
        out.push(digit_char((v / 10) % 10));
        out.push(digit_char(v % 10));
    }
    assert(final(out)@ =~= old(out)@ + decimal_u8(v));
}

/// `rgb(r,g,b)` with decimal components.
pub open spec fn rgb_text(c: Color) -> Seq<char> {
    "rgb("@ + decimal_u8(c.r) + seq![','] + decimal_u8(c.g) + seq![','] + decimal_u8(c.b) + seq![')']
}

/// Writes a color as `rgb(r,g,b)`.
pub fn rgb_string(c: Color) -> (s: String)
    ensures
        s@ == rgb_text(c),
{
    let mut v = chars_of("rgb(");
    push_decimal_u8(&mut v, c.r);
    v.push(',');
    push_decimal_u8(&mut v, c.g);
    v.push(',');
    push_decimal_u8(&mut v, c.b);
    v.push(')');
    string_from_chars(v.as_slice())
}

impl SearchColor {
    /// Parses a flat `#rrggbb` color.
    pub fn from_name(s: &str) -> (r: Result<SearchColor, String>)
        ensures
            r matches Ok(c) ==> flat_color(s@) == Some(c.0),
            r matches Err(e) ==> flat_color(s@) is None && e@ == "unknown color: "@ + s@,
    {
        match parse_flat_bgcolor(s) {
            Some(c) => Ok(SearchColor(c)),
            None => Err(concat_str("unknown color: ", s)),
        }
    }

    /// The color as written in the SVG script: `rgb(r,g,b)`.
    pub fn to_rgb_string(&self) -> (s: String)
        ensures
            s@ == rgb_text(self.0),
    {
        rgb_string(self.0)
    }
}

impl core::str::FromStr for SearchColor {
    type Err = String;

    fn from_str(s: &str) -> (r: Result<Self, Self::Err>)
        ensures
            r matches Ok(c) ==> flat_color(s@) == Some(c.0),
            r matches Err(e) ==> flat_color(s@) is None && e@ == "unknown color: "@ + s@,
    {
        SearchColor::from_name(s)
    }
}

/// The background used when none is given, which depends on the palette.
pub open spec fn default_background(palette: Palette) -> BackgroundColor {
    match palette {
        Palette::Basic(BasicPalette::Mem) => BackgroundColor::Green,
        Palette::Basic(BasicPalette::Io) | Palette::Multi(MultiPalette::Wakeup) => BackgroundColor::Blue,
        Palette::Basic(BasicPalette::Red) | Palette::Basic(BasicPalette::Green)
        | Palette::Basic(BasicPalette::Blue) | Palette::Basic(BasicPalette::Aqua)
        | Palette::Basic(BasicPalette::Yellow) | Palette::Basic(BasicPalette::Purple)
        | Palette::Basic(BasicPalette::Orange) => BackgroundColor::Grey,
        _ => BackgroundColor::Yellow,
    }
}

pub fn default_bg_color_for(palette: Palette) -> (r: BackgroundColor)
    ensures
        r == default_background(palette),
{
    match palette {
        Palette::Basic(BasicPalette::Mem) => BackgroundColor::Green,
        Palette::Basic(BasicPalette::Io) | Palette::Multi(MultiPalette::Wakeup) => BackgroundColor::Blue,
        Palette::Basic(BasicPalette::Red) | Palette::Basic(BasicPalette::Green)
        | Palette::Basic(BasicPalette::Blue) | Palette::Basic(BasicPalette::Aqua)
        | Palette::Basic(BasicPalette::Yellow) | Palette::Basic(BasicPalette::Purple)
        | Palette::Basic(BasicPalette::Orange) => BackgroundColor::Grey,
        _ => BackgroundColor::Yellow,
    }
}

/// A lowercase hexadecimal digit.
pub open spec fn hex_digit_lower(x: int) -> char {
    if x < 10 { (('0' as u32) + x) as char } else { (('a' as u32) + x - 10) as char }
}

/// `#rrggbb` in lowercase hexadecimal.
pub open spec fn hex_color_text(c: Color) -> Seq<char> {
    seq![
        '#',
        hex_digit_lower((c.r / 16) as int), hex_digit_lower((c.r % 16) as int),
        hex_digit_lower((c.g / 16) as int), hex_digit_lower((c.g % 16) as int),
        hex_digit_lower((c.b / 16) as int), hex_digit_lower((c.b % 16) as int),
    ]
}

fn hex_digit_char(x: u8) -> (c: char)
    requires
        x < 16,
    ensures
        c == hex_digit_lower(x as int),
{
    if x < 10 { (('0' as u8) + x) as char } else { (('a' as u8) + x - 10) as char }
}

/// The two gradient stops of a background color: `#rrggbb` twice for a flat color.
pub open spec fn background_gradient(bg: BackgroundColor) -> (Seq<char>, Seq<char>) {
    match bg {
        BackgroundColor::Yellow => ("#eeeeee"@, "#eeeeb0"@),
        BackgroundColor::Blue => ("#eeeeee"@, "#e0e0ff"@),
        BackgroundColor::Green => ("#eef2ee"@, "#e0ffe0"@),
        BackgroundColor::Grey => ("#f8f8f8"@, "#e8e8e8"@),
        BackgroundColor::Flat(c) => (hex_color_text(c), hex_color_text(c)),
    }
}

/// The gradient stops for the given background, or for the palette's default background.
pub fn bgcolor_for(bgcolor: Option<BackgroundColor>, palette: Palette) -> (r: (String, String))
    ensures
        (r.0@, r.1@) == background_gradient(
            match bgcolor {
                Some(b) => b,
                None => default_background(palette),
            },
        ),
{
    let bg = match bgcolor {
        Some(b) => b,
        None => default_bg_color_for(palette),
    };
    match bg {
        BackgroundColor::Yellow => ("#eeeeee".to_owned(), "#eeeeb0".to_owned()),
        BackgroundColor::Blue => ("#eeeeee".to_owned(), "#e0e0ff".to_owned()),
        BackgroundColor::Green => ("#eef2ee".to_owned(), "#e0ffe0".to_owned()),
        BackgroundColor::Grey => ("#f8f8f8".to_owned(), "#e8e8e8".to_owned()),
        BackgroundColor::Flat(c) => {
            let v: Vec<char> = vec![
                '#',
                hex_digit_char(c.r / 16), hex_digit_char(c.r % 16),
                hex_digit_char(c.g / 16), hex_digit_char(c.g % 16),
                hex_digit_char(c.b / 16), hex_digit_char(c.b % 16),
            ];
            assert(v@ =~= hex_color_text(c));
            let first = string_from_chars(v.as_slice());
            let second = first.clone();
            (first, second)
        },
    }
}


/// Integer division rounding toward zero, as Rust's `/` does.
pub open spec fn div_toward_zero(a: int, b: int) -> int {
    if a >= 0 { a / b } else { -((-a) / b) }
}

/// The shade of a differential frame: white for no change, red for more samples, blue for
/// fewer, the stronger the larger the change is against `max`.
pub open spec fn scaled_color(value: int, max: int) -> Color {
    if value == 0 {
        Color { r: 255, g: 255, b: 255 }
    } else if value > 0 {
        let c = div_toward_zero(210 * (max - value), max) as u8;
        Color { r: 255, g: c, b: c }
    } else {
        let c = div_toward_zero(210 * (max + value), max) as u8;
        Color { r: c, g: c, b: 255 }
    }
}

/// The color of a differential frame whose count changed by `value`, where `max` is the
/// largest change of any frame.
pub fn color_scale(value: isize, max: usize) -> (c: Color)
    requires
        0 < max <= isize::MAX,
        value > 0 ==> isize::MIN <= 210 * (max - value) <= isize::MAX,
        value < 0 ==> isize::MIN <= 210 * (max + value) <= isize::MAX,
    ensures
        c == scaled_color(value as int, max as int),
{
    if value == 0 {
        Color { r: 255, g: 255, b: 255 }
    } else if value > 0 {
        let m = max as isize;
        let q = 210 * (m - value) / m;
        assert(q == div_toward_zero(210 * (max - value), max as int));
        let c = q as u8;
        Color { r: 255, g: c, b: c }
    } else {
        let m = max as isize;
        let q = 210 * (m + value) / m;
        assert(q == div_toward_zero(210 * (max + value), max as int));
        let c = q as u8;
        Color { r: c, g: c, b: 255 }
    }
}


/// The plain palette whose color range a frame is drawn from: a semantic palette picks one by
/// the function name, a plain palette stands for itself.
pub open spec fn basic_palette_of(palette: Palette, name: Seq<char>) -> BasicPalette {
    match palette {
        Palette::Basic(b) => b,
        Palette::Multi(MultiPalette::Java) => crate::flamegraph::color::palettes::java::java_palette(name),
        Palette::Multi(MultiPalette::Perl) => crate::flamegraph::color::palettes::perl::perl_palette(name),
        Palette::Multi(MultiPalette::Js) => crate::flamegraph::color::palettes::js::js_palette(name),
        Palette::Multi(MultiPalette::Wakeup) => BasicPalette::Aqua,
    }
}

/// Picks the plain palette a frame is drawn from.
pub fn basic_palette_for(palette: Palette, name: &str) -> (b: BasicPalette)
    ensures
        b == basic_palette_of(palette, name@),
{
    match palette {
        Palette::Basic(b) => b,
        Palette::Multi(MultiPalette::Java) => crate::flamegraph::color::palettes::java::resolve(name),
        Palette::Multi(MultiPalette::Perl) => crate::flamegraph::color::palettes::perl::resolve(name),
        Palette::Multi(MultiPalette::Js) => crate::flamegraph::color::palettes::js::resolve(name),
        Palette::Multi(MultiPalette::Wakeup) => crate::flamegraph::color::palettes::wakeup::resolve(name),
    }
}

} // verus!
