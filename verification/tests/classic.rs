use inferno::flamegraph::classic::{
    bgcolor_for, handle_chain_palette, handle_java_palette, handle_js_palette, handle_perl_palette,
    handle_wakeup_palette, parse_palette, parse_palette_line, read_palette, resolve_palette, write_palette,
    NameColors, Palette,
};

#[test]
fn classic_palette_names() {
    assert_eq!(parse_palette("hot"), Ok(Palette::Hot));
    assert_eq!(parse_palette("orange"), Ok(Palette::Orange));
    assert_eq!(parse_palette("chain"), Ok(Palette::Chain));
    assert_eq!(parse_palette("HOT"), Err("unknown color palette: HOT".to_string()));
    assert_eq!("js".parse::<Palette>(), Ok(Palette::Js));
    assert_eq!(Palette::default(), Palette::Hot);
}

#[test]
fn classic_java_palette() {
    assert_eq!(handle_java_palette("foo_[k]"), Palette::Orange);
    assert_eq!(handle_java_palette("foo_[i]"), Palette::Aqua);
    assert_eq!(handle_java_palette("foo_[j]"), Palette::Green);
    assert_eq!(handle_java_palette("Ljava/lang/Thread;::run"), Palette::Green);
    assert_eq!(handle_java_palette("std::vector"), Palette::Yellow);
    assert_eq!(handle_java_palette("read"), Palette::Red);
}

#[test]
fn classic_perl_palette() {
    assert_eq!(handle_perl_palette("x_[k]"), Palette::Orange);
    assert_eq!(handle_perl_palette("Perl_pp_add"), Palette::Green);
    assert_eq!(handle_perl_palette("a.pl:10"), Palette::Green);
    assert_eq!(handle_perl_palette("Foo::bar"), Palette::Yellow);
    assert_eq!(handle_perl_palette("main"), Palette::Red);
}

#[test]
fn classic_js_palette() {
    assert_eq!(handle_js_palette("  "), Palette::Green);
    assert_eq!(handle_js_palette("x_[k]"), Palette::Orange);
    assert_eq!(handle_js_palette("v8::internal"), Palette::Yellow);
    assert_eq!(handle_js_palette("LazyCompile:foo"), Palette::Aqua);
    assert_eq!(handle_js_palette("foo /app/main.js"), Palette::Green);
    assert_eq!(handle_js_palette("foo /app/main.rs"), Palette::Red);
    assert_eq!(handle_js_palette("foo_[j]"), Palette::Aqua);
    assert_eq!(handle_js_palette("/path/foo_[j]"), Palette::Red);
    assert_eq!(handle_js_palette("plain"), Palette::Red);
}

#[test]
fn classic_wakeup_and_chain_palettes() {
    assert_eq!(handle_wakeup_palette("anything"), Palette::Aqua);
    assert_eq!(handle_chain_palette("wake_[w]"), Palette::Aqua);
    assert_eq!(handle_chain_palette("sleep"), Palette::Blue);
}

#[test]
fn classic_resolve_palette() {
    assert_eq!(resolve_palette(Palette::Hot, "x_[k]"), Palette::Hot);
    assert_eq!(resolve_palette(Palette::Java, "x_[k]"), Palette::Orange);
    assert_eq!(resolve_palette(Palette::Chain, "x_[w]"), Palette::Aqua);
}

#[test]
fn classic_background_gradients() {
    assert_eq!(bgcolor_for(Palette::Hot), ("#eeeeee", "#eeeeb0"));
    assert_eq!(bgcolor_for(Palette::Perl), ("#eeeeee", "#eeeeb0"));
    assert_eq!(bgcolor_for(Palette::Chain), ("#eeeeee", "#e0e0ff"));
    assert_eq!(bgcolor_for(Palette::Red), ("#f8f8f8", "#e8e8e8"));
}

#[test]
fn classic_palette_file_round_trip() {
    assert_eq!(
        parse_palette_line("main->rgb(1,2,3)"),
        Some(("main".to_string(), "rgb(1,2,3)".to_string()))
    );
    assert_eq!(parse_palette_line("a->b->c"), Some(("a".to_string(), "b".to_string())));
    assert_eq!(parse_palette_line("no arrow"), None);

    let map = read_palette("b->rgb(0,0,1)\na->rgb(0,0,2)\nb->rgb(0,0,3)\n").unwrap();
    assert_eq!(map.get("b"), Some("rgb(0,0,3)".to_string()));
    assert_eq!(map.get("c"), None);
    assert_eq!(write_palette(&map), "a->rgb(0,0,2)\nb->rgb(0,0,3)\n");
    assert!(read_palette("x\n").is_none());
}

#[test]
fn classic_color_map_computes_once() {
    let mut map = NameColors::new();
    let c = map.color_map("f", |_| "rgb(1,1,1)".to_string());
    assert_eq!(c, "rgb(1,1,1)");
    let c = map.color_map("f", |_| "rgb(2,2,2)".to_string());
    assert_eq!(c, "rgb(1,1,1)");
    map.insert("f", "rgb(3,3,3)");
    assert_eq!(map.get("f"), Some("rgb(3,3,3)".to_string()));
}
