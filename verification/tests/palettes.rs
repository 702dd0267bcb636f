use inferno::flamegraph::color::palettes::{java, js, perl};
use inferno::flamegraph::palettes::java as narrow_java;
use inferno::flamegraph::palettes::js as narrow_js;
use inferno::flamegraph::palettes::perl as narrow_perl;
use inferno::flamegraph::color::BasicPalette;

struct TestData {
    input: String,
    output: BasicPalette,
}

#[test]
fn java_mod_resolves() {

    let test_names = [
        TestData {
            input: String::from("_[k]"),
            output: BasicPalette::Orange,
        },
        TestData {
            input: String::from("_[j]_[k]"),
            output: BasicPalette::Orange,
        },
        TestData {
            input: String::from("_[]_[k]"),
            output: BasicPalette::Orange,
        },
        TestData {
            input: String::from("_[j]"),
            output: BasicPalette::Green,
        },
        TestData {
            input: String::from("_[k]_[j]"),
            output: BasicPalette::Green,
        },
        TestData {
            input: String::from("_[]_[j]"),
            output: BasicPalette::Green,
        },
        TestData {
            input: String::from("_[i]"),
            output: BasicPalette::Aqua,
        },
        TestData {
            input: String::from("_[j]_[i]"),
            output: BasicPalette::Aqua,
        },
        TestData {
            input: String::from("_[]_[i]"),
            output: BasicPalette::Aqua,
        },
        TestData {
            input: String::from("_[j]_[]"),
            output: BasicPalette::Red,
        },
        TestData {
            input: String::from("_[j]_[jj]"),
            output: BasicPalette::Red,
        },
        TestData {
            input: String::from("_[jk]"),
            output: BasicPalette::Red,
        },
        TestData {
            input: String::from("_[i]blah"),
            output: BasicPalette::Red,
        },
        TestData {
            input: String::from("java/"),
            output: BasicPalette::Green,
        },
        TestData {
            input: String::from("java/somestuff"),
            output: BasicPalette::Green,
        },
        TestData {
            input: String::from("javax/"),
            output: BasicPalette::Green,
        },
        TestData {
            input: String::from("javax/somestuff"),
            output: BasicPalette::Green,
        },
        TestData {
            input: String::from("jdk/"),
            output: BasicPalette::Green,
        },
        TestData {
            input: String::from("jdk/somestuff"),
            output: BasicPalette::Green,
        },
        TestData {
            input: String::from("net/"),
            output: BasicPalette::Green,
        },
        TestData {
            input: String::from("net/somestuff"),
            output: BasicPalette::Green,
        },
        TestData {
            input: String::from("org/"),
            output: BasicPalette::Green,
        },
        TestData {
            input: String::from("org/somestuff"),
            output: BasicPalette::Green,
        },
        TestData {
            input: String::from("com/"),
            output: BasicPalette::Green,
        },
        TestData {
            input: String::from("com/somestuff"),
            output: BasicPalette::Green,
        },
        TestData {
            input: String::from("io/"),
            output: BasicPalette::Green,
        },
        TestData {
            input: String::from("io/somestuff"),
            output: BasicPalette::Green,
        },
        TestData {
            input: String::from("sun/"),
            output: BasicPalette::Green,
        },
        TestData {
            input: String::from("sun/somestuff"),
            output: BasicPalette::Green,
        },
        TestData {
            input: String::from("Ljava/"),
            output: BasicPalette::Green,
        },
        TestData {
            input: String::from("Ljavax/"),
            output: BasicPalette::Green,
        },
        TestData {
            input: String::from("Ljdk/"),
            output: BasicPalette::Green,
        },
        TestData {
            input: String::from("Lnet/"),
            output: BasicPalette::Green,
        },
        TestData {
            input: String::from("Lorg/"),
            output: BasicPalette::Green,
        },
        TestData {
            input: String::from("Lcom/"),
            output: BasicPalette::Green,
        },
        TestData {
            input: String::from("Lio/"),
            output: BasicPalette::Green,
        },
        TestData {
            input: String::from("Lsun/"),
            output: BasicPalette::Green,
        },
        TestData {
            input: String::from("jdk/_[ki]"),
            output: BasicPalette::Green,
        },
        TestData {
            input: String::from("jdk/::[ki]"),
            output: BasicPalette::Green,
        },
        TestData {
            input: String::from("Ajdk/_[ki]"),
            output: BasicPalette::Red,
        },
        TestData {
            input: String::from("Ajdk/::[ki]"),
            output: BasicPalette::Yellow,
        },
        TestData {
            input: String::from("jdk::[ki]"),
            output: BasicPalette::Yellow,
        },
        TestData {
            input: String::from("::[ki]"),
            output: BasicPalette::Yellow,
        },
        TestData {
            input: String::from("::"),
            output: BasicPalette::Yellow,
        },
        TestData {
            input: String::from("some::st_[jk]uff"),
            output: BasicPalette::Yellow,
        },
        TestData {
            input: String::from("jdk"),
            output: BasicPalette::Red,
        },
        TestData {
            input: String::from("Ljdk"),
            output: BasicPalette::Red,
        },
        TestData {
            input: String::from(" "),
            output: BasicPalette::Red,
        },
        TestData {
            input: String::from(""),
            output: BasicPalette::Red,
        },
        TestData {
            input: String::from("something"),
            output: BasicPalette::Red,
        },
        TestData {
            input: String::from("some:thing"),
            output: BasicPalette::Red,
        },
    ];

    for item in test_names.iter() {
        let resolved_color = java::resolve(&item.input);
        assert_eq!(resolved_color, item.output)
    }
}
#[test]
fn perl_mod_resolves() {

    let test_names = [
        TestData {
            input: String::from(" "),
            output: BasicPalette::Red,
        },
        TestData {
            input: String::from(""),
            output: BasicPalette::Red,
        },
        TestData {
            input: String::from("something"),
            output: BasicPalette::Red,
        },
        TestData {
            input: String::from("somethingpl"),
            output: BasicPalette::Red,
        },
        TestData {
            input: String::from("something/_[k]"),
            output: BasicPalette::Orange,
        },
        TestData {
            input: String::from("something_[k]"),
            output: BasicPalette::Orange,
        },
        TestData {
            input: String::from("some::thing"),
            output: BasicPalette::Yellow,
        },
        TestData {
            input: String::from("some/ai.pl"),
            output: BasicPalette::Green,
        },
        TestData {
            input: String::from("someai.pl"),
            output: BasicPalette::Green,
        },
        TestData {
            input: String::from("something/Perl"),
            output: BasicPalette::Green,
        },
        TestData {
            input: String::from("somethingPerl"),
            output: BasicPalette::Green,
        },
    ];

    for item in test_names.iter() {
        let resolved_color = perl::resolve(&item.input);
        assert_eq!(resolved_color, item.output)
    }
}

#[test]
fn js_returns_correct() {

    let test_data = [
        TestData {
            input: String::from(" "),
            output: BasicPalette::Green,
        },
        TestData {
            input: String::from("something_[k]"),
            output: BasicPalette::Orange,
        },
        TestData {
            input: String::from("something/_[j]"),
            output: BasicPalette::Green,
        },
        TestData {
            input: String::from("something_[j]"),
            output: BasicPalette::Aqua,
        },
        TestData {
            input: String::from("some::thing"),
            output: BasicPalette::Yellow,
        },
        TestData {
            input: String::from("some:thing"),
            output: BasicPalette::Aqua,
        },
        TestData {
            input: String::from("some/ai.js"),
            output: BasicPalette::Green,
        },
        TestData {
            input: String::from("someai.js"),
            output: BasicPalette::Red,
        },
    ];
    for elem in test_data.iter() {
        let result = js::resolve(&elem.input);
        assert_eq!(result, elem.output);
    }
}

#[test]
fn wakeup_is_always_aqua() {
    assert_eq!(inferno::flamegraph::color::palettes::wakeup::resolve("anything"), BasicPalette::Aqua);
    assert_eq!(inferno::flamegraph::palettes::wakeup::resolve(""), BasicPalette::Aqua);
}

#[test]
fn narrow_java_palette_skips_javax() {
    assert_eq!(narrow_java::resolve("javax/foo"), BasicPalette::Red);
    assert_eq!(narrow_java::resolve("Ljava/foo"), BasicPalette::Green);
    assert_eq!(narrow_java::resolve("foo_[i]"), BasicPalette::Aqua);
    assert_eq!(narrow_java::resolve("a::b"), BasicPalette::Yellow);
}

#[test]
fn narrow_js_palette_treats_empty_as_blank() {
    assert_eq!(narrow_js::resolve(""), BasicPalette::Green);
    assert_eq!(inferno::flamegraph::color::palettes::js::resolve(""), BasicPalette::Red);
    assert_eq!(narrow_js::resolve("a/b.js"), BasicPalette::Green);
    assert_eq!(narrow_js::resolve("x_[j]"), BasicPalette::Aqua);
}

#[test]
fn perl_palette_variants_agree() {
    assert_eq!(narrow_perl::resolve("x.pl"), BasicPalette::Green);
    assert_eq!(narrow_perl::resolve("x_[k]"), BasicPalette::Orange);
}
