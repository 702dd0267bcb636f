use inferno::flamegraph::merge::{checked_frames, frames_to_draw, DrawError, frames, frames_from_stacks, rfind_samples, LineParser, MergeError};
use inferno::flamegraph::Sample;

#[test]
fn delta_does_not_leak_across_non_differential_lines() {
    let lines = vec!["a;b 10 5", "a;c 3"];
    let (frames, _time, _ignored, _delta_max) = frames(&lines, true).unwrap();

    let c_frame = frames
        .iter()
        .find(|f| f.location.function == "c")
        .expect("should have a frame for 'c'");
    assert_eq!(
        c_frame.delta, None,
        "non-differential line's frame should have delta = None, \
         but stale delta leaked from the previous differential line"
    );
}

fn sample(stack: &[&str], count: u64) -> Sample {
    Sample { stack: stack.iter().map(|s| s.to_string()).collect(), count, delta: None }
}

#[test]
fn merge_simple_stacks() {
    let samples = vec![sample(&["main", "a"], 3), sample(&["main", "b"], 2)];
    let (frames, time, delta_max) = frames_from_stacks(&samples, false).unwrap();
    assert_eq!(time, 5);
    assert_eq!(delta_max, 1);
    let got: Vec<(String, usize, u64, u64)> = frames
        .iter()
        .map(|f| (f.location.function.clone(), f.location.depth, f.start_time, f.end_time))
        .collect();
    assert_eq!(
        got,
        vec![
            ("a".to_string(), 2, 0, 3),
            ("".to_string(), 0, 0, 5),
            ("main".to_string(), 1, 0, 5),
            ("b".to_string(), 2, 3, 5),
        ]
    );
}

#[test]
fn merge_rejects_unsorted() {
    let samples = vec![sample(&["main", "beta"], 5), sample(&["main", "alpha"], 3)];
    assert_eq!(frames_from_stacks(&samples, false).err(), Some(MergeError::UnsortedInput));
    assert!(frames_from_stacks(&samples, true).is_ok());
}

#[test]
fn merge_differential_deltas() {
    let lines = vec!["main;alpha 10 15"];
    let (frames, time, _ignored, delta_max) = frames(&lines, false).unwrap();
    assert_eq!(time, 15);
    assert_eq!(delta_max, 5);
    let alpha = frames.iter().find(|f| f.location.function == "alpha").unwrap();
    assert_eq!(alpha.delta, Some(5));
    let main = frames.iter().find(|f| f.location.function == "main").unwrap();
    assert_eq!(main.delta, Some(0));
}

#[test]
fn line_parser_counts_ignored_lines() {
    let mut parser = LineParser::new();
    assert!(parser.parse("no count here").is_none());
    assert!(parser.parse("  12").is_none());
    let s = parser.parse("  a;b 4.5 ").unwrap();
    assert_eq!(s.stack, vec!["a".to_string(), "b".to_string()]);
    assert_eq!(s.count, 4);
    assert_eq!(s.delta, None);
    assert_eq!(parser.ignored, 2);
}

#[test]
fn rfind_samples_positions() {
    let chars: Vec<char> = "foo 12.50".chars().collect();
    assert_eq!(rfind_samples(&chars), Some((4, 2)));
    let chars: Vec<char> = "foo 12".chars().collect();
    assert_eq!(rfind_samples(&chars), Some((4, 2)));
    let chars: Vec<char> = "foo 1x".chars().collect();
    assert_eq!(rfind_samples(&chars), None);
}

#[test]
fn checked_frames_refuses_counts_that_overflow() {
    assert!(checked_frames(&["a 18446744073709551615", "b 1"], false).is_none());
    let r = checked_frames(&["a 18446744073709551615", "a 1"], true);
    assert!(r.is_none());
    let (frames, time, ignored, _) = checked_frames(&["a;b 2", "a;c 3", "bad"], false).unwrap().unwrap();
    assert_eq!(time, 5);
    assert_eq!(ignored, 1);
    assert_eq!(frames.len(), 4);
    assert!(checked_frames(&["b 1", "a 2"], false).unwrap().is_err());
    assert!(checked_frames(&["a 18446744073709551615 9223372036854775807"], false).is_none());
}

#[test]
fn frames_to_draw_reports_missing_counts() {
    assert_eq!(frames_to_draw(&["no counts here", ""], false).err(), Some(DrawError::NoStackCounts));
    assert_eq!(frames_to_draw(&[], false).err(), Some(DrawError::NoStackCounts));
    assert_eq!(frames_to_draw(&["b 1", "a 2"], false).err(), Some(DrawError::UnsortedInput));
    assert_eq!(
        frames_to_draw(&["a 18446744073709551615", "b 1"], false).err(),
        Some(DrawError::TooLarge)
    );
    let (frames, time, ignored, _) = frames_to_draw(&["a;b 2", "a;c 3"], false).unwrap();
    assert_eq!((frames.len(), time, ignored), (4, 5, 0));
}
