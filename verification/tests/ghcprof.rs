use inferno::collapse::ghcprof::{header_columns, is_start_line_str, Folder, GhcprofError, Options, Source};

const PROF: &str = "\tTime and Allocation Profiling Report  (Final)

COST CENTRE MODULE SRC no. entries  %time %alloc   %time %alloc

MAIN        MAIN   <built-in>  1  0   0.0    0.0   100.0  100.0
 main       Main   Main.hs:1   2  1  10.0    5.0    90.0   80.0
  helper    Main   Main.hs:5   3  1  80.0   75.0    80.0   75.0
 other      Main   Main.hs:9   4  1   5.0    1.0     5.0    1.0

trailing text that is not read\n";

fn percent_costs(fields: &[String]) -> Vec<Option<usize>> {
    fields
        .iter()
        .map(|f| f.trim().parse::<f64>().ok().map(|c| (c * 10.0) as usize))
        .collect()
}

#[test]
fn ghcprof_header_is_recognised() {
    assert!(is_start_line_str("COST CENTRE MODULE SRC no. entries  %time %alloc   %time %alloc"));
    assert!(is_start_line_str("  COST CENTRE MODULE SRC no. entries %time %alloc %time %alloc ticks bytes"));
    assert!(!is_start_line_str("COST CENTRE MODULE SRC no. entries %time %alloc %time"));
    assert!(!is_start_line_str("COST CENTRE MODULE no. entries %time %alloc %time %alloc"));
}

#[test]
fn ghcprof_header_columns() {
    let h = "COST CENTRE MODULE SRC no. entries  %time %alloc   %time %alloc";
    let cols = header_columns(Source::PercentTime, h).unwrap();
    assert_eq!((cols.cost_centre, cols.module, cols.source), (0, 12, 36));
    let cols = header_columns(Source::Ticks, h).unwrap();
    assert_eq!(cols.source, 63);
    assert!(header_columns(Source::Bytes, h).is_none());
    let t = "COST CENTRE MODULE SRC no. entries %time %alloc %time %alloc  ticks  bytes";
    assert_eq!(header_columns(Source::Bytes, t).unwrap().source, t.rfind("ticks").unwrap() + 5);
}

#[test]
fn ghcprof_cost_fields_of_data_lines() {
    let folder = Folder::default();
    let fields = folder.cost_fields(PROF).unwrap();
    assert_eq!(fields, vec!["0.0", "10.0", "80.0", "5.0"]);
}

#[test]
fn ghcprof_collapse_sums_costs_per_stack() {
    let mut folder = Folder::default();
    let fields = folder.cost_fields(PROF).unwrap();
    let costs = percent_costs(&fields);
    let out = folder.collapse_with_costs(PROF, &costs).unwrap();
    assert_eq!(
        out,
        "MAIN.MAIN 0\nMAIN.MAIN;Main.main 100\nMAIN.MAIN;Main.main;Main.helper 800\nMAIN.MAIN;Main.other 50\n"
    );
}

#[test]
fn ghcprof_skipped_indentation_is_an_error() {
    let input = "COST CENTRE MODULE SRC no. entries  %time %alloc   %time %alloc

MAIN        MAIN   <built-in>  1  0   0.0    0.0   100.0  100.0
   deep     Main   Main.hs:1   2  1  10.0    5.0    90.0   80.0\n";
    let mut folder = Folder::default();
    let costs = vec![Some(0), Some(100)];
    assert_eq!(folder.collapse_with_costs(input, &costs), Err(GhcprofError::SkippedIndentation));
}

#[test]
fn ghcprof_invalid_cost_is_an_error() {
    let mut folder = Folder::default();
    let costs = vec![Some(0), None];
    assert_eq!(folder.collapse_with_costs(PROF, &costs), Err(GhcprofError::InvalidCost));
}

#[test]
fn ghcprof_missing_column_is_an_error() {
    let mut folder = Folder::from_options(Options { source: Source::Bytes });
    assert_eq!(folder.collapse_with_costs(PROF, &[]), Err(GhcprofError::MissingColumn));
    assert!(folder.cost_fields(PROF).is_none());
}

#[test]
fn ghcprof_without_header_writes_nothing() {
    let mut folder = Folder::default();
    assert_eq!(folder.collapse_with_costs("nothing here\n", &[]), Ok(String::new()));
}

#[test]
fn ghcprof_is_applicable() {
    let mut folder = Folder::default();
    assert_eq!(folder.is_applicable(PROF), Some(true));
    assert_eq!(folder.is_applicable("COST CENTRE\n"), None);
}
