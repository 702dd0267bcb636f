use inferno::flamegraph::attrs::FrameAttrs;
use inferno::flamegraph::render::{
    deannotate, override_or_add_attributes, reverse_stack_line, rfind_samples, truncated_label,
    Direction, Rectangle,
};

#[test]
fn default_attributes_without_an_entry() {
    let a = override_or_add_attributes("main (5 samples, 100%)", None);
    assert_eq!(a.title, "main (5 samples, 100%)");
    assert_eq!(a.class, "func_g");
    assert_eq!(a.onmouseover, "s(this)");
    assert_eq!(a.onmouseout, "c()");
    assert_eq!(a.onclick, "zoom(this)");
    assert_eq!(a.style, None);
    assert!(a.g_extra.is_none());
    assert_eq!(a.href, None);
    assert_eq!(a.target, "_top");
    assert!(a.a_extra.is_none());
}

#[test]
fn entries_override_and_add_attributes() {
    let mut fa = FrameAttrs::new();
    fa.title = Some("custom".to_owned());
    fa.g.class = Some("special".to_owned());
    fa.g.style = Some("opacity: 0.5".to_owned());
    fa.g.extra.push(("data-x".to_owned(), "1".to_owned()));
    fa.a.href = Some("http://example.com".to_owned());
    let a = override_or_add_attributes("ignored title", Some(&fa));
    assert_eq!(a.title, "custom");
    assert_eq!(a.class, "special");
    assert_eq!(a.onclick, "zoom(this)");
    assert_eq!(a.style, Some("opacity: 0.5"));
    assert_eq!(a.g_extra.unwrap().len(), 1);
    assert_eq!(a.href, Some("http://example.com"));
    assert_eq!(a.target, "_top");
    assert_eq!(a.a_extra.unwrap().len(), 0);
}

#[test]
fn annotations_are_removed() {
    assert_eq!(deannotate("foo_[k]"), "foo");
    assert_eq!(deannotate("foo_[j]"), "foo");
    assert_eq!(deannotate("foo_[x]"), "foo_[x]");
    assert_eq!(deannotate("foo_[kk]"), "foo_[kk]");
    assert_eq!(deannotate("foo"), "foo");
}

#[test]
fn labels_are_cut_to_fit() {
    assert_eq!(truncated_label("abcdef", 2), "");
    assert_eq!(truncated_label("abcdef", 7), "abcdef");
    assert_eq!(truncated_label("abcdef", 5), "abc..");
    assert_eq!(truncated_label("abcdef", 6), "abcd..");
    assert_eq!(truncated_label("foo_[k]", 10), "foo");
}

#[test]
fn stacks_are_reversed_before_their_counts() {
    assert_eq!(reverse_stack_line("a;b;c 10"), "c;b;a 10");
    assert_eq!(reverse_stack_line("a;b 3 4"), "b;a 3 4");
    assert_eq!(reverse_stack_line(" a;b 1.5"), "b;a 1.5");
    assert_eq!(reverse_stack_line("a;b"), "b;a ");
}

#[test]
fn sample_counts_are_found_at_the_end() {
    let c: Vec<char> = "a;b 12".chars().collect();
    assert_eq!(rfind_samples(&c), Some(4));
    let c: Vec<char> = "a;b 1.5".chars().collect();
    assert_eq!(rfind_samples(&c), Some(4));
    let c: Vec<char> = "a;b x".chars().collect();
    assert_eq!(rfind_samples(&c), None);
    let c: Vec<char> = "ab".chars().collect();
    assert_eq!(rfind_samples(&c), None);
}

#[test]
fn rectangles_and_direction() {
    let r = Rectangle { x1: 10, y1: 20, x2: 15, y2: 36 };
    assert_eq!(r.width(), 5);
    assert_eq!(r.height(), 16);
    assert_eq!(Direction::default(), Direction::Straight);
}
