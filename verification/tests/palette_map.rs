use inferno::flamegraph::color::palette_map::{parse_line, parse_rgb_string, PaletteLineError};
use inferno::flamegraph::color::PaletteMap;

#[test]
fn palette_map_test() {
    let mut palette = PaletteMap::default();

    assert_eq!(palette.insert("foo", (0, 50, 255)), None);
    assert_eq!(palette.insert("bar", (50, 0, 60)), None);
    assert_eq!(palette.insert("foo", (80, 20, 63)), Some((0, 50, 255)));
    assert_eq!(palette.insert("foo", (128, 128, 128)), Some((80, 20, 63)));
    assert_eq!(palette.insert("baz", (255, 0, 255)), None);

    assert_eq!(palette.get("func"), None);
    assert_eq!(palette.get("bar"), Some((50, 0, 60)));
    assert_eq!(palette.get("foo"), Some((128, 128, 128)));
    assert_eq!(palette.get("baz"), Some((255, 0, 255)));

    let mut vec: Vec<(String, (u8, u8, u8))> = palette.iter();
    vec.sort_unstable();
    let mut iter = vec.iter().map(|(n, c)| (n.as_str(), *c));

    assert_eq!(iter.next(), Some(("bar", (50, 0, 60))));
    assert_eq!(iter.next(), Some(("baz", (255, 0, 255))));
    assert_eq!(iter.next(), Some(("foo", (128, 128, 128))));
    assert_eq!(iter.next(), None);
}

#[test]
fn parse_line_test() {
    let (name, color) = parse_line("func->rgb(0, 0, 0)").unwrap();
    assert_eq!((name.as_str(), color), ("func", (0, 0, 0)));
    let (name, color) = parse_line("->rgb(255, 255, 255)").unwrap();
    assert_eq!((name.as_str(), color), ("", (255, 255, 255)));

    assert!(parse_line("").is_err());
    assert!(parse_line("func->(0, 0, 0)").is_err());
    assert!(parse_line("func->").is_err());
    assert!(parse_line("func->foo->rgb(0, 0, 0)").is_err());
    assert!(parse_line("func->rgb(0, 0, 0)->foo").is_err());
    assert!(parse_line("func->rgb(255, 255, 256)").is_err());
    assert!(parse_line("func->rgb(-1, 255, 255)").is_err());
}

#[test]
fn parse_line_error_kinds() {
    assert_eq!(parse_line("no arrow").err(), Some(PaletteLineError::InvalidInput));
    assert_eq!(parse_line("a->b->c").err(), Some(PaletteLineError::InvalidInput));
    assert_eq!(parse_line("a->rgb(1,2)").err(), Some(PaletteLineError::InvalidData));
}

#[test]
fn parse_rgb_string_accepts_plus_and_spaces() {
    assert_eq!(parse_rgb_string("  rgb( +1 ,02, 255 ) "), Some((1, 2, 255)));
    assert_eq!(parse_rgb_string("rgb(1,2,3"), None);
    assert_eq!(parse_rgb_string("rgb(+,2,3)"), None);
}

#[test]
fn palette_map_to_stream_is_sorted() {
    let mut palette = PaletteMap::new();
    palette.insert("zeta", (1, 2, 3));
    palette.insert("alpha", (10, 200, 0));
    assert_eq!(palette.to_stream(), "alpha->rgb(10,200,0)\nzeta->rgb(1,2,3)\n");
}

#[test]
fn palette_map_round_trip() {
    let mut palette = PaletteMap::new();
    palette.insert("f", (9, 99, 199));
    palette.insert("g", (0, 0, 0));
    let text = palette.to_stream();
    let lines: Vec<&str> = text.lines().collect();
    let back = PaletteMap::from_lines(&lines).unwrap();
    assert_eq!(back.get("f"), Some((9, 99, 199)));
    assert_eq!(back.get("g"), Some((0, 0, 0)));
    assert_eq!(back.iter().len(), 2);
}

#[test]
fn find_color_for_computes_once() {
    let mut palette = PaletteMap::new();
    let c1 = palette.find_color_for("main", |_| (1, 2, 3));
    let c2 = palette.find_color_for("main", |_| (4, 5, 6));
    assert_eq!(c1, (1, 2, 3));
    assert_eq!(c2, (1, 2, 3));
    assert_eq!(palette.get("main"), Some((1, 2, 3)));
}
