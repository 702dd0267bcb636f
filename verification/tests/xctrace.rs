use inferno::collapse::xctrace::{is_interested_tag, Folder, XctraceError, XmlEvent};

fn start(name: &str, attrs: &[(&str, &str)]) -> XmlEvent {
    XmlEvent::Start {
        name: name.to_string(),
        attributes: attrs.iter().map(|(k, v)| (k.to_string(), v.to_string())).collect(),
    }
}

fn empty(name: &str, attrs: &[(&str, &str)]) -> XmlEvent {
    XmlEvent::Empty {
        name: name.to_string(),
        attributes: attrs.iter().map(|(k, v)| (k.to_string(), v.to_string())).collect(),
    }
}

fn end(name: &str) -> XmlEvent {
    XmlEvent::End { name: name.to_string() }
}

fn run(events: Vec<XmlEvent>) -> Result<String, XctraceError> {
    let mut folder = Folder::new();
    for ev in events {
        if let Some(nodes) = folder.on_event(ev)? {
            return Ok(folder.folded_text(&nodes));
        }
    }
    Err(XctraceError::UnexpectedEof)
}

fn frame(id: &str, name: &str) -> Vec<XmlEvent> {
    vec![start("frame", &[("id", id), ("name", name), ("addr", "0x1")]), end("frame")]
}

fn sample_document() -> Vec<XmlEvent> {
    let mut ev = vec![XmlEvent::Other, start("trace-query-result", &[]), start("node", &[])];
    // A first backtrace, described in full.
    ev.push(start("row", &[]));
    ev.push(start("backtrace", &[("id", "10")]));
    ev.extend(frame("11", "0x18d3df0f1"));
    ev.extend(frame("13", "start"));
    ev.push(end("backtrace"));
    ev.push(end("row"));
    // A second one, with an escaped name and a Rust hash.
    ev.push(start("row", &[]));
    ev.push(start("backtrace", &[("id", "15")]));
    ev.extend(frame("16", "rust_test2::foo::ha31fba0d06a8a3eb"));
    ev.push(empty("frame", &[("ref", "13")]));
    ev.push(end("backtrace"));
    ev.push(end("row"));
    // The second backtrace again, by reference.
    ev.push(start("row", &[]));
    ev.push(empty("backtrace", &[("ref", "15")]));
    ev.push(end("row"));
    // A row without a backtrace is ignored.
    ev.push(start("row", &[]));
    ev.push(empty("sentinel", &[]));
    ev.push(end("row"));
    ev.push(end("node"));
    ev.push(end("trace-query-result"));
    ev
}

#[test]
fn collapse_xctrace_small_document() {
    let out = run(sample_document()).expect("the document is valid");
    assert_eq!(out, "start;0x18d3df0f1 1\nstart;rust_test2::foo 2\n");
}

#[test]
fn xctrace_unpaired_closing_tag_is_an_error() {
    let ev = vec![start("trace-query-result", &[]), start("node", &[]), end("row")];
    match run(ev) {
        Err(XctraceError::UnpairedTag(_)) => {}
        other => panic!("unexpected result: {:?}", other),
    }
}

#[test]
fn xctrace_repeated_backtrace_id_is_an_error() {
    let mut ev = vec![start("trace-query-result", &[]), start("node", &[])];
    for _ in 0..2 {
        ev.push(start("row", &[]));
        ev.push(empty("backtrace", &[("id", "7")]));
        ev.push(end("row"));
    }
    match run(ev) {
        Err(XctraceError::RepeatedBacktraceId(7)) => {}
        other => panic!("unexpected result: {:?}", other),
    }
}

#[test]
fn xctrace_bad_references_and_attributes_are_errors() {
    let ev = vec![
        start("trace-query-result", &[]),
        start("node", &[]),
        start("row", &[]),
        empty("backtrace", &[("ref", "99")]),
    ];
    assert!(matches!(run(ev), Err(XctraceError::InvalidBacktraceRef(99))));

    let ev = vec![
        start("trace-query-result", &[]),
        start("node", &[]),
        start("row", &[]),
        start("backtrace", &[("id", "x1")]),
    ];
    match run(ev) {
        Err(XctraceError::BadNumber(_, v)) => assert_eq!(v, "x1"),
        other => panic!("unexpected result: {:?}", other),
    }

    let ev = vec![
        start("trace-query-result", &[]),
        start("node", &[]),
        start("row", &[]),
        start("backtrace", &[("id", "1")]),
        empty("frame", &[("addr", "0x1")]),
    ];
    assert!(matches!(run(ev), Err(XctraceError::FrameWithoutId)));

    let ev = vec![start("trace-query-result", &[]), XmlEvent::Eof];
    assert!(matches!(run(ev), Err(XctraceError::UnexpectedEof)));
}

#[test]
fn xctrace_frame_names_are_unescaped() {
    let mut ev = vec![start("trace-query-result", &[]), start("node", &[]), start("row", &[])];
    ev.push(start("backtrace", &[("id", "1")]));
    ev.extend(frame("2", "dyld4::prepare(dyld4::APIs&amp;)"));
    ev.push(end("backtrace"));
    ev.push(end("row"));
    ev.push(end("node"));
    ev.push(end("trace-query-result"));
    assert_eq!(run(ev).unwrap(), "dyld4::prepare(dyld4::APIs&) 1\n");
}

#[test]
fn xctrace_detects_its_input() {
    let mut f = Folder::new();
    assert_eq!(
        f.is_applicable("<?xml version=\"1.0\"?>\n<trace-query-result>\n"),
        Some(true)
    );
    assert_eq!(f.is_applicable("<?xml version=\"1.0\"?>\n<other>\n"), None);
    assert!(is_interested_tag("backtrace"));
    assert!(!is_interested_tag("sentinel"));
}

const SMALL_XML: &str = r#"<?xml version="1.0"?>
<trace-query-result>
<node xpath='//trace-toc[1]/run[1]/data[1]/table[11]'>
    <row>
        <backtrace id="10">
            <frame id="11" name="0x18d3df0f1" addr="0x18d3df0f1"></frame>
            <frame id="13" name="start" addr="0x18d373904"></frame>
        </backtrace>
    </row>
    <row>
        <backtrace id="15">
            <frame id="16" name="dyld4::prepare(dyld4::APIs&amp;, dyld3::MachOAnalyzer const*)" addr="0x18d374c1d"></frame>
            <frame ref="13"/>
        </backtrace>
    </row>
    <row>
        <backtrace ref="15"/>
    </row>
    <row>
        <sentinel/>
    </row>
</node>
</trace-query-result>
"#;

#[test]
fn xctrace_collapses_xml_text() {
    let mut folder = Folder::new();
    let out = folder.collapse_text(SMALL_XML).expect("the document is valid");
    assert_eq!(
        out,
        "start;0x18d3df0f1 1\nstart;dyld4::prepare(dyld4::APIs&, dyld3::MachOAnalyzer const*) 2\n"
    );
}

#[test]
fn xctrace_truncated_xml_is_an_error() {
    let mut folder = Folder::new();
    let cut = &SMALL_XML[..SMALL_XML.find("</node>").unwrap()];
    assert!(matches!(folder.collapse_text(cut), Err(XctraceError::UnexpectedEof)));
}

#[test]
fn xctrace_malformed_xml_is_an_error() {
    let mut folder = Folder::new();
    let bad = "<?xml version=\"1.0\"?>\n<trace-query-result>\n<node></row></node>\n</trace-query-result>\n";
    assert!(folder.collapse_text(bad).is_err());
}

#[test]
fn xctrace_folds_repeated_backtraces_root_first() {
    let xml = r#"<trace-query-result><node><row><backtrace id="1"><frame id="2" name="foo"/><frame id="3" name="main"/></backtrace></row><row><backtrace id="4"><frame id="5" name="foo"/><frame ref="3"/></backtrace></row><row><backtrace ref="1"/></row></node></trace-query-result>"#;
    let mut folder = Folder::new();
    assert_eq!(folder.collapse_text(xml).unwrap(), "main;foo 3\n");
}

#[test]
fn xctrace_names_that_end_in_wide_characters_are_kept() {
    let xml = "<trace-query-result><node><row><backtrace id=\"1\"><frame id=\"2\" name=\"\u{e9}\u{e9}\u{e9}\u{e9}\u{e9}\u{e9}\u{e9}\u{e9}\u{e9}\"/></backtrace></row></node></trace-query-result>";
    let mut folder = Folder::new();
    assert_eq!(folder.collapse_text(xml).unwrap(), "\u{e9}\u{e9}\u{e9}\u{e9}\u{e9}\u{e9}\u{e9}\u{e9}\u{e9} 1\n");
}
