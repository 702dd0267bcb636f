use inferno::collapse::common::{job_starts, Occurrences};
use inferno::collapse::perf::{self, detect_event_filter};
use inferno::collapse::pmc;
use inferno::flamegraph::render::{prepared_lines, StyleOptions};

fn lines(text: &str) -> Vec<String> {
    text.lines().map(|l| l.to_string()).collect()
}

#[test]
fn jobs_start_after_every_nth_stack() {
    let ls = lines("a\n\nb\n\nc\n\nd\n");
    assert_eq!(job_starts(&ls, 1), vec![0, 2, 4, 6]);
    assert_eq!(job_starts(&ls, 2), vec![0, 4]);
    assert_eq!(job_starts(&ls, 10), vec![0]);
    let trailing = lines("a\n\n");
    assert_eq!(job_starts(&trailing, 1), vec![0]);
}

#[test]
fn jobs_add_up_in_occurrences() {
    let mut occ = Occurrences::new();
    assert!(occ.add_folded("a;b 2\nc 1\n"));
    assert!(occ.add_folded("a;b 3\n"));
    assert_eq!(occ.get("a;b"), Some(5));
    assert_eq!(occ.get("c"), Some(1));
    assert!(!occ.add_folded("no-count-here\n"));
    assert_eq!(occ.write_and_clear(), "a;b 5\nc 1\n");
}

#[test]
fn jobs_of_pmc_output_add_up() {
    let text = "10.0%  [2]  f\n 50.0%  [2]   main\n\n10.0%  [3]  f\n 50.0%  [3]   main\n\n";
    let ls = lines(text);
    let starts = job_starts(&ls, 1);
    assert_eq!(starts, vec![0, 3]);
    let mut occ = Occurrences::new();
    for (k, &a) in starts.iter().enumerate() {
        let b = if k + 1 < starts.len() { starts[k + 1] } else { ls.len() };
        let mut folder = pmc::Folder::default();
        let out = folder.collapse_lines(&ls[a..b]).unwrap();
        assert!(occ.add_folded(&out));
    }
    let mut whole = pmc::Folder::default();
    assert_eq!(occ.write_and_clear(), whole.collapse_text(text).unwrap());
}

#[test]
fn jobs_perf_event_filter_and_lines() {
    let ls = lines("\njava 25607 4794564.109216: cycles:\n\tffffffff8103ce3b native_safe_halt ([kernel.kallsyms])\n\n");
    assert_eq!(detect_event_filter(&ls), Some("cycles".to_string()));
    assert_eq!(detect_event_filter(&lines("a b\n")), None);
    let mut folder = perf::Folder::default();
    // An empty line before any event counts the (still empty) root frame.
    assert_eq!(folder.collapse_lines(&ls).unwrap(), " 1\njava;native_safe_halt 1\n");
}

#[test]
fn prepared_lines_sort_and_reverse() {
    let input = vec!["b;a 1", "a;b 2"];
    let sorted = prepared_lines(&input, false, false).unwrap();
    assert_eq!(sorted, vec!["a;b 2", "b;a 1"]);
    let unsorted = prepared_lines(&input, true, false).unwrap();
    assert_eq!(unsorted, vec!["b;a 1", "a;b 2"]);
    let reversed = prepared_lines(&input, true, true).unwrap();
    assert_eq!(reversed, vec!["a;b 1", "b;a 2"]);
    assert!(prepared_lines(&["x 1", ""], false, true).is_none());
}

#[test]
fn style_options_keep_their_values() {
    let s = StyleOptions::new(100, "#eeeeee", "#eeeeb0");
    assert_eq!(s.imageheight, 100);
    assert_eq!(s.bgcolor1, "#eeeeee");
    assert_eq!(s.bgcolor2, "#eeeeb0");
}
