use inferno::parse::dtrace::{Options, Parser};

const INPUT: &str = "CPU     ID                    FUNCTION:NAME

  unix`tsc_read+0x3
  genunix`gethrtime+0xa
  3

  libc.so.1`foo::bar(int)+0x10
  5
";

#[test]
fn parser_reads_traces_in_order() {
    let mut p = Parser::new(Options::default(), INPUT);
    let t = p.next().unwrap();
    assert_eq!(t.stack, vec!["genunix`gethrtime".to_string(), "unix`tsc_read".to_string()]);
    assert_eq!(t.count, 3);
    let t = p.next().unwrap();
    assert_eq!(t.stack, vec!["libc.so.1`foo::bar".to_string()]);
    assert_eq!(t.count, 5);
    assert!(p.next().is_none());
    assert!(p.next().is_none());
}

#[test]
fn parser_keeps_offsets_but_on_the_leaf() {
    let mut p = Parser::new(Options { includeoffset: true }, INPUT);
    let t = p.next().unwrap();
    assert_eq!(t.stack, vec!["genunix`gethrtime+0xa".to_string(), "unix`tsc_read".to_string()]);
    assert_eq!(t.count, 3);
}

#[test]
fn parser_without_header_end_gives_nothing() {
    let mut p = Parser::new(Options::default(), "only a header\n  unix`a+0x1\n  1\n");
    assert!(p.next().is_none());
}

#[test]
fn parser_recognizes_dtrace_output() {
    let mut p = Parser::default();
    assert_eq!(p.is_applicable(INPUT), Some(true));
    assert_eq!(p.is_applicable("header\n\n  1\n"), Some(false));
    assert_eq!(p.is_applicable("header\n\nnot a frame\n"), Some(false));
    assert_eq!(p.is_applicable("header\n\n  unix`a\n"), None);
}
