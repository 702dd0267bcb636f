use inferno::collapse::sample::{line_parts, Folder, Options};

const GRAPH: &str = "Analysis of sampling myapp (pid 1) every 1 millisecond
Call graph:
    2 Thread_1
    + 2 start  (in libdyld.dylib) + 1  [0x7fff]
    +   2 main  (in myapp) + 10  [0x1]
    +     1 foo  (in myapp) + 5  [0x2]
    +     1 bar  (in myapp) + 5  [0x3]

Total number in stack (recursive counted multiple, when >=5):\n";

fn chars(s: &str) -> Vec<char> {
    s.chars().collect()
}

fn text(v: &[char]) -> String {
    v.iter().collect()
}

#[test]
fn sample_collapse_writes_each_stack_when_left() {
    let mut folder = Folder::default();
    let out = folder.collapse_text(GRAPH).unwrap();
    assert_eq!(
        out,
        "Thread_1;libdyld`start;myapp`main;myapp`foo 1\nThread_1;libdyld`start;myapp`main;myapp`bar 1\n"
    );
}

#[test]
fn sample_collapse_without_modules() {
    let mut folder = Folder::from_options(Options { no_modules: true });
    let out = folder.collapse_text(GRAPH).unwrap();
    assert_eq!(out, "Thread_1;start;main;foo 1\nThread_1;start;main;bar 1\n");
}

#[test]
fn sample_collapse_skips_waiting_threads() {
    let input = "Call graph:
    3 Thread_1
    + 3 __psynch_cvwait  (in libsystem_kernel.dylib) + 10  [0x1]
Total number in stack\n";
    let mut folder = Folder::default();
    assert_eq!(folder.collapse_text(input).unwrap(), "");
}

#[test]
fn sample_collapse_fixes_rust_symbols() {
    let input = "Call graph:
    5 std::rt::lang_start::hb90e1c1c787080f0  (in app) + 1\n";
    let mut folder = Folder::default();
    assert_eq!(folder.collapse_text(input).unwrap(), "app`std::rt::lang_start 5\n");
}

#[test]
fn sample_collapse_without_call_graph_writes_nothing() {
    let mut folder = Folder::default();
    assert_eq!(folder.collapse_text("no graph here\n").unwrap(), "");
}

#[test]
fn sample_line_parts_splits_count_function_module() {
    let (time, func, module) = line_parts(false, &chars("  12 foo(int)  (in libbar.dylib) + 3")).unwrap();
    assert_eq!(text(&time), "12");
    assert_eq!(text(&func), "foo");
    assert_eq!(text(&module), "libbar");
    let (_, _, module) = line_parts(true, &chars("12 foo  (in libbar.dylib)")).unwrap();
    assert_eq!(text(&module), "");
    assert!(line_parts(false, &chars("12")).is_none());
}

#[test]
fn sample_is_applicable() {
    let mut folder = Folder::default();
    assert_eq!(folder.is_applicable(GRAPH), Some(true));
    assert_eq!(folder.is_applicable("Total number in stack\n"), Some(false));
    assert_eq!(folder.is_applicable("Call graph:\n    1 x\n"), None);
}
