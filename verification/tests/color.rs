use inferno::flamegraph::color::{
    basic_palette_for, bgcolor_for, color_scale, parse_flat_bgcolor, BackgroundColor, BasicPalette, Color, MultiPalette, Palette,
    SearchColor,
};

#[test]
fn bgcolor_parse_test() {
    assert_eq!(parse_flat_bgcolor("#ffffff"), Some(Color { r: 0xff, g: 0xff, b: 0xff }));
    assert_eq!(parse_flat_bgcolor("#000000"), Some(Color { r: 0x00, g: 0x00, b: 0x00 }));
    assert_eq!(parse_flat_bgcolor("#abcdef"), Some(Color { r: 0xab, g: 0xcd, b: 0xef }));
    assert_eq!(parse_flat_bgcolor("#123456"), Some(Color { r: 0x12, g: 0x34, b: 0x56 }));
    assert_eq!(parse_flat_bgcolor("#789000"), Some(Color { r: 0x78, g: 0x90, b: 0x00 }));
    assert_eq!(parse_flat_bgcolor("ffffff"), None);
    assert_eq!(parse_flat_bgcolor("#fffffff"), None);
    assert_eq!(parse_flat_bgcolor("#xfffff"), None);
    assert_eq!(parse_flat_bgcolor("# fffff"), None);
}

#[test]
fn palette_names() {
    assert_eq!("hot".parse::<Palette>(), Ok(Palette::Basic(BasicPalette::Hot)));
    assert_eq!("wakeup".parse::<Palette>(), Ok(Palette::Multi(MultiPalette::Wakeup)));
    assert_eq!(Palette::from_name("orange"), Ok(Palette::Basic(BasicPalette::Orange)));
    assert_eq!(
        "chain".parse::<Palette>(),
        Err("unknown color palette: chain".to_string())
    );
    assert_eq!(Palette::default(), Palette::Basic(BasicPalette::Hot));
}

#[test]
fn background_names() {
    assert_eq!("grey".parse::<BackgroundColor>(), Ok(BackgroundColor::Grey));
    assert_eq!(
        "#0A0b0C".parse::<BackgroundColor>(),
        Ok(BackgroundColor::Flat(Color { r: 10, g: 11, b: 12 }))
    );
    assert_eq!(
        "purple".parse::<BackgroundColor>(),
        Err("unknown background color: purple".to_string())
    );
    assert_eq!(BackgroundColor::default(), BackgroundColor::Yellow);
}

#[test]
fn background_gradients() {
    assert_eq!(
        bgcolor_for(None, Palette::Basic(BasicPalette::Mem)),
        ("#eef2ee".to_string(), "#e0ffe0".to_string())
    );
    assert_eq!(
        bgcolor_for(None, Palette::Multi(MultiPalette::Wakeup)),
        ("#eeeeee".to_string(), "#e0e0ff".to_string())
    );
    assert_eq!(
        bgcolor_for(None, Palette::Basic(BasicPalette::Red)),
        ("#f8f8f8".to_string(), "#e8e8e8".to_string())
    );
    assert_eq!(
        bgcolor_for(None, Palette::Multi(MultiPalette::Java)),
        ("#eeeeee".to_string(), "#eeeeb0".to_string())
    );
    assert_eq!(
        bgcolor_for(Some(BackgroundColor::Flat(Color { r: 1, g: 171, b: 255 })), Palette::default()),
        ("#01abff".to_string(), "#01abff".to_string())
    );
}

#[test]
fn search_color_text() {
    assert_eq!(SearchColor::default().to_rgb_string(), "rgb(230,0,230)");
    assert_eq!("#0a0b0c".parse::<SearchColor>().unwrap().to_rgb_string(), "rgb(10,11,12)");
    assert_eq!("nope".parse::<SearchColor>(), Err("unknown color: nope".to_string()));
}

#[test]
fn color_scale_shades_differences() {
    assert_eq!(color_scale(0, 10), Color { r: 255, g: 255, b: 255 });
    assert_eq!(color_scale(5, 10), Color { r: 255, g: 105, b: 105 });
    assert_eq!(color_scale(-5, 10), Color { r: 105, g: 105, b: 255 });
    assert_eq!(color_scale(10, 10), Color { r: 255, g: 0, b: 0 });
    assert_eq!(color_scale(-3, 7), Color { r: 120, g: 120, b: 255 });
}

#[test]
fn basic_palette_for_names() {
    assert_eq!(basic_palette_for(Palette::Basic(BasicPalette::Mem), "x_[k]"), BasicPalette::Mem);
    assert_eq!(basic_palette_for(Palette::Multi(MultiPalette::Java), "x_[k]"), BasicPalette::Orange);
    assert_eq!(basic_palette_for(Palette::Multi(MultiPalette::Wakeup), "x"), BasicPalette::Aqua);
    assert_eq!(basic_palette_for(Palette::Multi(MultiPalette::Perl), "Perl_run"), BasicPalette::Green);
}
