use std::collections::BTreeMap;

use inferno::collapse::pmc;
use inferno::collapse::FoldedStacks;
use inferno::flamegraph::color::palette_map::PaletteMap;
use inferno::flamegraph::merge::frames;

fn counts_of(folded: &str) -> BTreeMap<String, usize> {
    let mut m = BTreeMap::new();
    for line in folded.lines() {
        let i = line.rfind(' ').unwrap();
        *m.entry(line[..i].to_string()).or_insert(0) += line[i + 1..].parse::<usize>().unwrap();
    }
    m
}

#[test]
fn law_pmc_pieces_add_up() {
    let first = "10.0%  [2]  f\n 50.0%  [2]   main\n\n";
    let second = "10.0%  [3]  f\n 50.0%  [3]   main\n\n20.0%  [4]  g\n";
    let whole = format!("{}{}", first, second);
    let mut folder = pmc::Folder::default();
    let all = counts_of(&folder.collapse_text(&whole).unwrap());
    let a = counts_of(&folder.collapse_text(first).unwrap());
    let b = counts_of(&folder.collapse_text(second).unwrap());
    let mut sum = a.clone();
    for (k, v) in b {
        *sum.entry(k).or_insert(0) += v;
    }
    assert_eq!(all, sum);
    assert_eq!(all.get("main;f"), Some(&5));
}

#[test]
fn law_collapsed_lines_read_back_as_samples() {
    let mut folder = pmc::Folder::default();
    let out = folder
        .collapse_text("10.0%  [2]  f\n 50.0%  [2]   main\n\n10.0%  [7]  g\n 50.0%  [7]   main\n\n")
        .unwrap();
    let lines: Vec<&str> = out.lines().collect();
    let (from_text, time, ignored, _) = frames(&lines, false).unwrap();
    assert_eq!(ignored, 0);
    assert_eq!(time, 9);
    let typed = FoldedStacks::from_entries(vec![
        ("main;f".to_string(), 2, None),
        ("main;g".to_string(), 7, None),
    ]);
    let (from_typed, typed_time, _) = typed.flame_graph(false).unwrap();
    assert_eq!(time, typed_time);
    let a: Vec<(String, usize, u64, u64)> = from_text
        .iter()
        .map(|f| (f.location.function.clone(), f.location.depth, f.start_time, f.end_time))
        .collect();
    let b: Vec<(String, usize, u64, u64)> = from_typed
        .iter()
        .map(|f| (f.location.function.clone(), f.location.depth, f.start_time, f.end_time))
        .collect();
    assert_eq!(a, b);
}

#[test]
fn law_palette_file_reads_back() {
    let mut map = PaletteMap::new();
    map.insert("main", (1, 2, 3));
    map.insert("foo::bar", (255, 0, 100));
    map.insert("a-b", (10, 20, 30));
    let text = map.to_stream();
    let lines: Vec<&str> = text.lines().collect();
    let back = PaletteMap::from_lines(&lines).unwrap();
    assert_eq!(back.get("main"), Some((1, 2, 3)));
    assert_eq!(back.get("foo::bar"), Some((255, 0, 100)));
    assert_eq!(back.get("a-b"), Some((10, 20, 30)));
    assert_eq!(back.iter().len(), 3);
}

#[test]
fn law_pmc_jobs_add_up() {
    let text = "10.0%  [2]  f\n 50.0%  [2]   main\n\n10.0%  [3]  f\n 50.0%  [3]   main\n\n20.0%  [4]  g\n\n5.0%  [1]  h\n";
    let lines: Vec<String> = text.lines().map(|l| l.to_string()).collect();
    let starts = inferno::collapse::common::job_starts(&lines, 1);
    let mut folder = pmc::Folder::default();
    let all = counts_of(&folder.collapse_text(text).unwrap());
    let mut sum: BTreeMap<String, usize> = BTreeMap::new();
    for (i, &s) in starts.iter().enumerate() {
        let e = if i + 1 < starts.len() { starts[i + 1] } else { lines.len() };
        let piece = folder.collapse_lines(&lines[s..e]).unwrap();
        for (k, v) in counts_of(&piece) {
            *sum.entry(k).or_insert(0) += v;
        }
    }
    assert!(starts.len() > 2);
    assert_eq!(all, sum);
    assert_eq!(all.get("main;f"), Some(&5));
}
