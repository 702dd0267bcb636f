use inferno::flamegraph::attrs::FuncFrameAttrsMap;

fn pairs(v: &[(&str, &str)]) -> Vec<(String, String)> {
    v.iter().map(|(a, b)| (a.to_string(), b.to_string())).collect()
}

#[test]
fn func_frame_attrs_map_from_reader() {
    let foo = vec![
        "foo",
        // Without quotes
        "title=foo title",
        // With quotes
        r#"class="foo class""#,
        // gextra1 without quotes, gextra2 with quotes
        r#"g_extra=gextra1=gextra1 gextra2="foo gextra2""#,
        "href=foo href",
        "target=foo target",
        // Extra quotes around a_extra value
        r#"a_extra="aextra1="foo aextra1" aextra2="foo aextra2"""#,
    ]
    .join("\t");

    let bar = vec![
        "bar",
        "class=bar class",
        "href=bar href",
        // With an invalid attribute that has no value; it is skipped.
        r#"a_extra=aextra1=foo invalid aextra2=bar"#,
    ]
    .join("\t");

    let s = vec![foo, bar].join("\n");
    let result = FuncFrameAttrsMap::from_reader(&s);

    let foo_attrs = result.frameattrs_for_func("foo").expect("foo has attributes");
    assert_eq!(foo_attrs.title, Some("foo title".to_owned()));
    assert_eq!(foo_attrs.g.id, None);
    assert_eq!(foo_attrs.g.class, Some("foo class".to_owned()));
    assert_eq!(
        foo_attrs.g.extra,
        pairs(&[("gextra1", "gextra1"), ("gextra2", "foo gextra2")])
    );
    assert_eq!(foo_attrs.a.href, Some("foo href".to_owned()));
    assert_eq!(foo_attrs.a.target, Some("foo target".to_owned()));
    assert_eq!(
        foo_attrs.a.extra,
        pairs(&[("aextra1", "foo aextra1"), ("aextra2", "foo aextra2")])
    );

    let bar_attrs = result.frameattrs_for_func("bar").expect("bar has attributes");
    assert_eq!(bar_attrs.title, None);
    assert_eq!(bar_attrs.g.id, None);
    assert_eq!(bar_attrs.g.class, Some("bar class".to_owned()));
    assert!(bar_attrs.g.extra.is_empty());
    assert_eq!(bar_attrs.a.href, Some("bar href".to_owned()));
    assert_eq!(bar_attrs.a.target, None);
    assert_eq!(
        bar_attrs.a.extra,
        pairs(&[("aextra1", "foo"), ("aextra2", "bar")])
    );

    assert!(result.frameattrs_for_func("baz").is_none());
}

#[test]
fn later_lines_for_the_same_function_add_to_its_attributes() {
    let s = "f\ttitle=one\nf\tclass=two\ng\n\n  \t x=y";
    let result = FuncFrameAttrsMap::from_reader(s);
    let f = result.frameattrs_for_func("f").expect("f has attributes");
    assert_eq!(f.title, Some("one".to_owned()));
    assert_eq!(f.g.class, Some("two".to_owned()));
    let g = result.frameattrs_for_func("g").expect("a bare name still gets an entry");
    assert_eq!(g.title, None);
    assert!(g.a.extra.is_empty());
}

#[test]
fn unknown_and_nameless_attributes_are_ignored() {
    let s = "f\tcolour=red\t=oops\tnovalue\tid= spaced ";
    let result = FuncFrameAttrsMap::from_reader(s);
    let f = result.frameattrs_for_func("f").expect("f has attributes");
    assert_eq!(f.g.id, Some("spaced".to_owned()));
    assert_eq!(f.title, None);
    assert_eq!(f.g.class, None);
}
