use inferno::collapse::pmc::{indent_splits, stack_line_parts, Folder, Options};

const SHARED: &str = "@ CLOCK.HARD [10 samples]
01.17%  [173]      randomdev_encrypt @ /boot/kernel/kernel
 95.95%  [166]       random_fortuna_read
  100.0%  [166]        read_random_uio
 04.05%  [7]         read_random_uio
  100.0%  [7]          devfs_read_f

";

fn text(v: &[char]) -> String {
    v.iter().collect()
}

#[test]
fn pmc_collapse_shared_stacks() {
    let mut folder = Folder::default();
    let out = folder.collapse_text(SHARED).unwrap();
    assert_eq!(
        out,
        "devfs_read_f;read_random_uio;randomdev_encrypt 7\nread_random_uio;random_fortuna_read;randomdev_encrypt 166\n"
    );
}

#[test]
fn pmc_collapse_counts_open_chain_at_end() {
    let input = "@ X [3 samples]\n50.0%  [3]  leaf\n 100.0%  [3]   root\n";
    let mut folder = Folder::from_options(Options { nthreads: 0 });
    assert_eq!(folder.nthreads(), 1);
    assert_eq!(folder.collapse_text(input).unwrap(), "root;leaf 3\n");
}

#[test]
fn pmc_collapse_sums_equal_stacks_and_skips_weird_lines() {
    let input = "10.0%  [2]  f\nnot a stack line\n\n10.0%  [3]  f\n";
    let mut folder = Folder::default();
    assert_eq!(folder.collapse_text(input).unwrap(), "f 5\n");
}

#[test]
fn pmc_collapse_too_deep_shared_chain_fails() {
    let input = "   10.0%  [2]  f\n  10.0%  [2]  g\n";
    let mut folder = Folder::default();
    assert_eq!(folder.collapse_text(input), None);
}

#[test]
fn pmc_stack_line_parts() {
    let (indent, percent, count, function) = stack_line_parts(" 95.95%  [166]       random_fortuna_read").unwrap();
    assert_eq!(indent, 1);
    assert_eq!(text(&percent), "95.95");
    assert_eq!(count, 166);
    assert_eq!(text(&function), "random_fortuna_read");
    assert!(stack_line_parts("95.95% [x] f").is_none());
    assert!(stack_line_parts("95.95 [1] f").is_none());
    assert!(stack_line_parts("95.95% [1]").is_none());
    assert!(indent_splits("  1.0%  [1]  f"));
    assert!(!indent_splits("\u{a0}1.0% [1] f"));
}

#[test]
fn pmc_is_applicable() {
    let mut folder = Folder::default();
    assert_eq!(folder.is_applicable(SHARED), Some(true));
    assert_eq!(folder.is_applicable("hello\n"), Some(false));
    assert_eq!(folder.is_applicable(""), None);
}

#[test]
fn pmc_nstacks_per_job() {
    let mut folder = Folder::default();
    assert_eq!(folder.nstacks_per_job(), 100);
    folder.set_nstacks_per_job(7);
    assert_eq!(folder.nstacks_per_job(), 7);
    folder.set_nthreads(4);
    assert_eq!(folder.nthreads(), 4);
}
