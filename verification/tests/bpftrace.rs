use inferno::collapse::bpftrace::{Bpftrace, BpftraceError};

fn collapse(text: &str) -> (String, Result<(), BpftraceError>) {
    let (out, r) = Bpftrace::default().collapse_text(text);
    (String::from_utf8(out).unwrap(), r)
}

#[test]
fn bpftrace_stacks_are_folded_outermost_first() {
    let text = "Attaching 1 probe...\n\n@[\nfoo+12\nbar+4\nmain+30\n]: 12\n@[\nbaz\n]: 3\n";
    let (out, r) = collapse(text);
    assert!(r.is_ok());
    assert_eq!(out, "main+30;bar+4;foo+12 12\nbaz 3\n");
}

#[test]
fn bpftrace_frames_keep_their_indentation_and_crlf_is_removed() {
    let text = "@[\r\n    foo\r\n    bar\r\n]:   7\r\n";
    let (out, r) = collapse(text);
    assert!(r.is_ok());
    assert_eq!(out, "    bar;    foo 7\n");
}

#[test]
fn bpftrace_empty_stack_keeps_reading_the_stack() {
    let text = "@[\n]: 5\nfoo\n]: 7\n";
    let (out, r) = collapse(text);
    assert!(r.is_ok());
    assert_eq!(out, "foo 7\n");
}

#[test]
fn bpftrace_errors() {
    let (out, r) = collapse("@[\nf\n]: 1\n@[\ng\n]:\n");
    assert_eq!(out, "f 1\n");
    assert_eq!(r, Err(BpftraceError::ExpectedNumber));

    let (_, r) = collapse("@[x\n");
    assert_eq!(r, Err(BpftraceError::TextAfterStackStart));

    let long = format!("@[\nf\n]: {}\n", "1".repeat(40));
    let (_, r) = collapse(&long);
    assert_eq!(r, Err(BpftraceError::NumberTooLong));

    let ok = format!("@[\nf\n]: {}\n", "1".repeat(39));
    let (out, r) = collapse(&ok);
    assert!(r.is_ok());
    assert_eq!(out, format!("f {}\n", "1".repeat(39)));
}

#[test]
fn bpftrace_count_ends_at_the_first_non_digit() {
    let (out, r) = collapse("@[\nfoo\n]:   123 rest\n");
    assert!(r.is_ok());
    assert_eq!(out, "foo 123\n");
}

#[test]
fn bpftrace_count_takes_ascii_digits_only() {
    let (out, r) = collapse("@[\nfoo\n]: 12\u{663}\n");
    assert!(r.is_ok());
    assert_eq!(out, "foo 12\n");
}
