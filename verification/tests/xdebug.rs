use inferno::collapse::xdebug::{
    get_index_and_optional_name, read_call_stats, Call, Folder, Function, Options,
};

const TRACE: &str = "version: 1
creator: xdebug 3.1.4 (PHP 7.4.30)
cmd: /var/www/index.php
part: 1
positions: line

events: Time_(10ns) Memory_(bytes)

fl=(1)
fn=(1) php::strlen
1 50 0

fl=(2) /var/www/lib.php
fn=(2) helper
3 3000 0
cfl=(1)
cfn=(1)
calls=1 0 0
4 50 0

fl=(3) /var/www/index.php
fn=(3) {main}
1 2000 0
cfl=(2)
cfn=(2)
calls=1 0 0
2 3050 0

summary: 5050 0
";

#[test]
fn collapse_xdebug_small_trace() {
    let mut folder = Folder::default();
    let out = folder.collapse_text(TRACE).expect("the trace is well formed");
    assert_eq!(
        out,
        "{main} 2\n{main};helper 5\n{main};helper;php::strlen 5\n"
    );
}

#[test]
fn collapse_xdebug_with_filenames() {
    let mut folder = Folder::from_options(Options {
        nthreads: 1,
        include_filenames: true,
    });
    let out = folder.collapse_text(TRACE).expect("the trace is well formed");
    assert_eq!(
        out,
        "{main} (/var/www/index.php) 2\n\
         {main} (/var/www/index.php);helper (/var/www/lib.php) 5\n\
         {main} (/var/www/index.php);helper (/var/www/lib.php);php::strlen 5\n"
    );
}

#[test]
fn collapse_xdebug_bad_header_gives_nothing() {
    let mut folder = Folder::default();
    let out = folder.collapse_text("version: 2\ncreator: xdebug\n\n").unwrap();
    assert_eq!(out, "");
    let out = folder
        .collapse_text("version: 1\ncreator: someone\n\n")
        .unwrap();
    assert_eq!(out, "");
}

#[test]
fn collapse_xdebug_malformed_id_stops_the_reader() {
    let mut folder = Folder::default();
    let text = "version: 1\ncreator: xdebug\n\nevents: x\n\nfl=(x) file\n";
    assert!(folder.collapse_text(text).is_none());
}

#[test]
fn xdebug_recursion_is_cut() {
    // `{main}` calls `f`, which calls itself: the second call is not followed.
    let text = "version: 1
creator: xdebug

events: Time

fl=(2) /a.php
fn=(5) f
1 1000 0

fl=(2)
fn=(5)
1 1000 0
cfl=(2)
cfn=(5)
calls=1 0 0
1 1000 0

fl=(2)
fn=(6) {main}
1 1000 0
cfl=(2)
cfn=(5)
calls=1 0 0
1 0 0

";
    let mut folder = Folder::default();
    let out = folder.collapse_text(text).unwrap();
    assert_eq!(out, "{main} 1\n{main};f 2\n");
}

#[test]
fn xdebug_line_parts() {
    assert_eq!(
        get_index_and_optional_name("fl=(7) /vendor/bootstrap.php\n", "fl", None),
        (7, Some("/vendor/bootstrap.php".to_owned()))
    );
    assert_eq!(
        get_index_and_optional_name("fn=(22) require::/vendor/a.php", "fn", Some("/vendor/a.php")),
        (22, Some("require:".to_owned()))
    );
    assert_eq!(get_index_and_optional_name("cfl=(1)", "cfl", None), (1, None));
    assert_eq!(get_index_and_optional_name("other", "cfl", None), (0, None));
    assert_eq!(read_call_stats("19 96 24\n"), (19, 96, 24));
    assert_eq!(read_call_stats("19 x"), (19, 0, 0));
}

#[test]
fn xdebug_function_calls() {
    let mut f = Function::new(Call::WithoutPath(3), 10);
    assert_eq!(f.calls.len(), 0);
    f.call(Function::new(Call::WithPath(4, 1), 5));
    assert_eq!(f.calls.len(), 1);
    assert_eq!(f.calls[0].self_time_ns, 5);
    assert_eq!(f.function.get_function_id(), 3);
    assert_eq!(f.calls[0].function.get_function_id(), 4);
}

#[test]
fn xdebug_is_applicable_looks_at_the_first_line() {
    let mut folder = Folder::default();
    assert_eq!(folder.is_applicable(""), None);
    assert_eq!(folder.is_applicable("version: 1"), None);
    assert_eq!(folder.is_applicable("version: 1\n"), None);
    assert_eq!(folder.is_applicable("version: 1\ncreator: xdebug 3.1.4 (PHP 7.4.30)\n"), Some(true));
    assert_eq!(folder.is_applicable("version: 1\r\ncreator: xdebug\r\n"), Some(true));
    assert_eq!(folder.is_applicable("version: 1\ncreator: someone\n"), Some(false));
    assert_eq!(folder.is_applicable("something else"), Some(false));
}
