use inferno::collapse::guess::{guess, Collapser, Folder, Options};

const PERF: &str = "java 25607 4794564.109216: cycles:
\tffffffff8103ce3b native_safe_halt ([kernel.kallsyms])
\t7f533952bc77 _dl_check_map_versions+0x597 (/usr/lib/ld-2.28.so)
\n";

const DTRACE: &str = "CPU     ID                    FUNCTION:NAME
  0  64091                        :tick-60s

              libc.so.1`__forkx+0xb
              bash`make_child+0xb5
                1\n";

const SAMPLE: &str = "Analysis of sampling myapp (pid 1) every 1 millisecond
Call graph:
    2 Thread_1
    + 2 start  (in libdyld.dylib) + 1  [0x7fff]
Total number in stack (recursive counted multiple, when >=5):\n";

#[test]
fn guess_picks_perf() {
    assert_eq!(guess(PERF), Some(Some(Collapser::Perf)));
    let mut folder = Folder::default();
    assert_eq!(
        folder.collapse_text(PERF).unwrap(),
        "java;_dl_check_map_versions;native_safe_halt 1\n"
    );
}

#[test]
fn guess_picks_dtrace() {
    assert_eq!(guess(DTRACE), Some(Some(Collapser::Dtrace)));
    let mut folder = Folder::default();
    assert_eq!(folder.collapse_text(DTRACE).unwrap(), "bash`make_child;libc.so.1`__forkx 1\n");
}

#[test]
fn guess_picks_sample() {
    assert_eq!(guess(SAMPLE), Some(Some(Collapser::Sample)));
    let mut folder = Folder::from_options(Options { nthreads: 2 });
    assert_eq!(folder.collapse_text(SAMPLE).unwrap(), "Thread_1;libdyld`start 2\n");
}

#[test]
fn guess_finds_nothing_for_other_input() {
    assert_eq!(guess("hello\nworld\n"), Some(None));
    let mut folder = Folder::default();
    assert_eq!(folder.collapse_text("hello\nworld\n").unwrap(), "");
}

#[test]
fn guess_reads_past_the_first_ten_lines() {
    let mut input = String::new();
    for _ in 0..12 {
        input.push_str("# comment\n");
    }
    input.push_str(PERF);
    assert_eq!(guess(&input), Some(Some(Collapser::Perf)));
}

#[test]
fn guess_threads_can_be_set() {
    let mut folder = Folder::from_options(Options { nthreads: 3 });
    assert_eq!(folder.nthreads(), 3);
    folder.set_nthreads(5);
    assert_eq!(folder.nthreads(), 5);
}
