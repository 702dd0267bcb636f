use inferno::collapse::dtrace::{remove_offset, uncpp, Folder, Options};

const TWO_STACKS: &str = "CPU     ID                    FUNCTION:NAME\n\
  0  64091                        :tick-60s\n\
\n\
              libc.so.1`__forkx+0xb\n\
              libc.so.1`fork+0x1d\n\
              bash`make_child+0xb5\n\
                1\n\
\n\
              libc.so.1`__forkx+0xb\n\
              libc.so.1`fork+0x1d\n\
              bash`make_child+0xb5\n\
                2\n";

#[test]
fn dtrace_cpp_test() {
    let probe = "TestClass::TestClass2(const char*)[__1cJTestClass2t6Mpkc_v_]";
    assert_eq!("TestClass::TestClass2", uncpp(probe));

    let probe = "TestClass::TestClass2::TestClass3(const char*)[__1cJTestClass2t6Mpkc_v_]";
    assert_eq!("TestClass::TestClass2::TestClass3", uncpp(probe));

    let probe = "TestClass::TestClass2<blargh>(const char*)[__1cJTestClass2t6Mpkc_v_]";
    assert_eq!("TestClass::TestClass2<blargh>", uncpp(probe));

    let probe = "TestClass::TestClass2::TestClass3<blargh>(const char*)[__1cJTestClass2t6Mpkc_v_]";
    assert_eq!("TestClass::TestClass2::TestClass3<blargh>", uncpp(probe));
}

#[test]
fn dtrace_uncpp_leaves_plain_names() {
    assert_eq!(uncpp("libc.so.1`fork"), "libc.so.1`fork");
    assert_eq!(uncpp("a::b"), "a::b");
}

#[test]
fn dtrace_remove_offset_scans_the_frame() {
    let (inl, cpp, semi, frame) = remove_offset("java`a->b+0x10");
    assert!(inl);
    assert!(!cpp);
    assert!(!semi);
    assert_eq!(frame, "java`a->b");
    let (inl, cpp, semi, frame) = remove_offset("x::y;z");
    assert!(!inl);
    assert!(cpp);
    assert!(semi);
    assert_eq!(frame, "x::y;z");
}

#[test]
fn dtrace_collapse_sums_equal_stacks() {
    let mut folder = Folder::default();
    let out = folder.collapse_text(TWO_STACKS).unwrap();
    assert_eq!(out, "bash`make_child;libc.so.1`fork;libc.so.1`__forkx 3\n");
}

#[test]
fn dtrace_collapse_includeoffset_keeps_all_but_the_leaf_offset() {
    let mut folder = Folder::from_options(Options { includeoffset: true });
    let out = folder.collapse_text(TWO_STACKS).unwrap();
    assert_eq!(out, "bash`make_child+0xb5;libc.so.1`fork+0x1d;libc.so.1`__forkx 3\n");
}

#[test]
fn dtrace_collapse_inlined_frames() {
    let mut folder = Folder::default();
    let out = folder.collapse_text("h\n\njava`Lfoo->Lbar+0x2\nmain`start\n4\n").unwrap();
    assert_eq!(out, "main`start;java`Lfoo;bar_[i] 4\n");
}

#[test]
fn dtrace_collapse_semicolons_become_colons() {
    let mut folder = Folder::default();
    let out = folder.collapse_text("h\n\nx`a;b+0x1\n2\n").unwrap();
    assert_eq!(out, "x`a:b 2\n");
}

#[test]
fn dtrace_collapse_without_header_end_writes_nothing() {
    let mut folder = Folder::default();
    assert_eq!(folder.collapse_text("only a header\n").unwrap(), "");
}

#[test]
fn dtrace_collapse_count_without_stack_fails() {
    let mut folder = Folder::default();
    assert_eq!(folder.collapse_text("h\n\n  5\n"), None);
}

#[test]
fn dtrace_is_applicable() {
    let mut folder = Folder::default();
    assert_eq!(folder.is_applicable("x\n\nlibc`f+0x1\n1\n"), Some(true));
    assert_eq!(folder.is_applicable("x\n\n0x1234\n3\n"), Some(true));
    assert_eq!(folder.is_applicable("x\n\n5\n"), Some(false));
    assert_eq!(folder.is_applicable("x\n\nhello\n"), Some(false));
    assert_eq!(folder.is_applicable("x\n\n0xzz\n"), Some(false));
    assert_eq!(folder.is_applicable("x\n"), None);
    assert_eq!(folder.is_applicable(TWO_STACKS), Some(true));
}
