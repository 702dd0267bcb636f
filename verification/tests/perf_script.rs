use inferno::collapse::perf_script::{Opt, PerfState};

const INPUT: &str = "# comment
java 25607 4794564.109216: cycles:
\tffffffff8103ce3b native_safe_halt ([kernel.kallsyms])
\t7f533952bc77 _dl_check_map_versions+0x597 (/usr/lib/ld-2.28.so)
\t7f53389994d0 [unknown] ([unknown])

V8 WorkerThread 24636/25607 [000] 94564.109216: cycles:
\t7f722d142778 Ljava/io/PrintStream;::print (/tmp/perf-19982.map)

";

fn opt() -> Opt {
    Opt {
        include_pid: false,
        include_tid: false,
        include_addrs: false,
        annotate_jit: false,
        annotate_kernel: false,
        annotate_all: false,
    }
}

#[test]
fn perf_script_collapses_events() {
    let mut s = PerfState::from_opt(opt());
    let out = s.collapse_text(INPUT).unwrap();
    assert_eq!(
        out,
        "V8_WorkerThread;Ljava/io/PrintStream:::print 1\njava;[unknown];_dl_check_map_versions;native_safe_halt 1\n"
    );
}

#[test]
fn perf_script_annotates_and_names_threads() {
    let mut o = opt();
    o.include_tid = true;
    o.annotate_jit = true;
    o.annotate_kernel = true;
    let mut s = PerfState::from_opt(o);
    let out = s.collapse_text(INPUT).unwrap();
    assert_eq!(
        out,
        "V8_WorkerThread-24636/25607;Ljava/io/PrintStream:::print_[j] 1\njava-?/25607;[unknown];_dl_check_map_versions;native_safe_halt_[k] 1\n"
    );
}

#[test]
fn perf_script_counts_repeated_stacks_and_drops_unfinished_events() {
    let text = "ab 1 1.0: x:\n\t1 f (m)\n\nab 1 1.0: x:\n\t1 f (m)\n\nab 1 1.0: x:\n\t1 g (m)\n";
    let mut s = PerfState::from_opt(opt());
    assert_eq!(s.collapse_text(text).unwrap(), "ab;f 2\n");
}

#[test]
fn perf_script_unknown_functions_take_the_module_name() {
    let mut o = opt();
    o.include_addrs = true;
    let text = "ab 1 1.0: x:\n\t7f53 [unknown] (/usr/lib/libc.so)\n\t7f54 [unknown] ([unknown])\n\n";
    let mut s = PerfState::from_opt(o);
    assert_eq!(s.collapse_text(text).unwrap(), "ab;[unknown <7f54>];[libc.so <7f53>] 1\n");
}
