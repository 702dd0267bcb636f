use inferno::collapse::perf::{
    applicability_fails, event_line_parts, stack_line_parts, tidy_generic, tidy_java,
    with_module_fallback, Folder, Options,
};

const TWO_EVENTS: &str = "# a comment\n\
java 25607 4794564.109216: cycles:\n\
\tffffffff8103ce3b native_safe_halt ([kernel.kallsyms])\n\
\t7f533952bc77 _dl_check_map_versions+0x597 (/usr/lib/ld-2.28.so)\n\
\t7f53389994d0 [unknown] ([unknown])\n\
\n\
java 25607 4794564.109217: cycles:\n\
\tffffffff8103ce3b native_safe_halt ([kernel.kallsyms])\n\
\t7f533952bc77 _dl_check_map_versions+0x597 (/usr/lib/ld-2.28.so)\n\
\t7f53389994d0 [unknown] ([unknown])\n\
\n\
java 25607 4794564.109218: instructions:\n\
\tffffffff8103ce3b other ([kernel.kallsyms])\n\
\n";

#[test]
fn collapse_perf_counts_stacks_of_the_first_event_type() {
    let mut folder = Folder::default();
    let out = folder.collapse_text(TWO_EVENTS).unwrap();
    assert_eq!(out, "java;[unknown];_dl_check_map_versions;native_safe_halt 2\n");
}

#[test]
fn collapse_perf_with_options() {
    let mut opt = Options::default();
    opt.annotate_kernel = true;
    opt.include_tid = true;
    opt.include_addrs = true;
    let mut folder = Folder::from_options(opt);
    let out = folder.collapse_text(TWO_EVENTS).unwrap();
    assert_eq!(
        out,
        "java-?/25607;[unknown <7f53389994d0>];_dl_check_map_versions;native_safe_halt_[k] 2\n"
    );
}

#[test]
fn collapse_perf_java_inlining() {
    let text = "java 12688/12764 6544038.708352: cpu-clock:\n\
\t7f722d142778 Lfoo/Bar;.baz(I)V->Lqux/Q;.x (/tmp/perf-19982.map)\n\
\t7f00 main (/usr/bin/java)\n\
\n";
    let mut opt = Options::default();
    opt.annotate_jit = true;
    let mut folder = Folder::from_options(opt);
    let out = folder.collapse_text(text).unwrap();
    assert_eq!(out, "java;main;foo/Bar:.baz_[j];qux/Q:.x_[i] 1\n");
}

#[test]
fn collapse_perf_last_event_needs_its_blank_line() {
    let text = "a 1 1.0: ev:\n\tf x (m)\n\na 1 1.0: ev:\n\tg y (m)";
    let mut folder = Folder::default();
    assert_eq!(folder.collapse_text(text).unwrap(), "a;x 1\n");
}

#[test]
fn perf_line_parts() {
    assert_eq!(
        event_line_parts("java 24636/25607 [000] 4794564.109216: cycles:"),
        Some(("java".to_owned(), "24636".to_owned(), "25607".to_owned()))
    );
    assert_eq!(
        event_line_parts("V8 WorkerThread 25607 4794564.109216: cycles:"),
        Some(("V8 WorkerThread".to_owned(), "?".to_owned(), "25607".to_owned()))
    );
    assert_eq!(event_line_parts("no numbers here:"), None);
    assert_eq!(
        stack_line_parts("  7f1e2215d058  (/lib/x86_64-linux-gnu/libc-2.15.so)"),
        Some((
            "7f1e2215d058".to_owned(),
            " ".to_owned(),
            "/lib/x86_64-linux-gnu/libc-2.15.so".to_owned()
        ))
    );
    assert_eq!(stack_line_parts("nospace"), None);
}

#[test]
fn perf_frame_names() {
    assert_eq!(with_module_fallback("/usr/lib/libc.so", "[unknown]", "7f", false), "[libc.so]");
    assert_eq!(with_module_fallback("[unknown]", "[unknown]", "7f", true), "[unknown <7f>]");
    assert_eq!(with_module_fallback("[unknown]", "[unknown]", "7f", false), "[unknown]");
    assert_eq!(with_module_fallback("m", "func", "7f", true), "func");
    assert_eq!(tidy_generic("foo(int)".to_owned()), "foo");
    assert_eq!(tidy_generic("net/http.(*Client).Do".to_owned()), "net/http.(*Client).Do");
    assert_eq!(
        tidy_generic("(anonymous namespace)::f".to_owned()),
        "(anonymous namespace)::f"
    );
    assert_eq!(tidy_generic("a;b".to_owned()), "a:b");
    assert_eq!(tidy_generic("(foo)".to_owned()), "");
    assert_eq!(tidy_generic("x(int)".to_owned()), "x");
    assert_eq!(tidy_java("Lorg/mozilla/X:.call".to_owned()), "org/mozilla/X:.call");
    assert_eq!(tidy_java("Lfoo".to_owned()), "Lfoo");
    let generic = tidy_generic("Lorg/mozilla/javascript/MemberBox;.<init>(Ljava/lang/reflect/Method;)V".to_owned());
    assert_eq!(tidy_java(generic), "org/mozilla/javascript/MemberBox:.init");
    let generic = tidy_generic("Lorg/mozilla/javascript/ContextFactory;.call(Lorg/mozilla/javascript/C".to_owned());
    assert_eq!(tidy_java(generic), "org/mozilla/javascript/ContextFactory:.call");
}

#[test]
fn perf_is_applicable() {
    let mut folder = Folder::default();
    assert!(!applicability_fails(TWO_EVENTS));
    assert_eq!(folder.is_applicable(TWO_EVENTS), Some(true));
    assert_eq!(folder.is_applicable("# only a comment\n"), None);
    assert_eq!(folder.is_applicable("not an event line\n"), Some(false));
    assert_eq!(folder.is_applicable("a 1 1.0: ev:\nnospaces\n"), Some(false));
    assert_eq!(folder.is_applicable("a 1 1.0: ev:\nnot a stack line\n"), Some(true));
}
