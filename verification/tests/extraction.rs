use pathscrub::extract::{extract_runs, extract_strings, run_byte};

#[test]
fn extracts_closed_run_with_offset() {
    let buf = b"\x00abcd\x01ef\x02ghij".to_vec();
    let records = extract_strings(&buf, 4);
    // "abcd" is closed and long enough; "ef" is too short; "ghij" reaches
    // the end of the buffer and is dropped.
    assert_eq!(records.len(), 1);
    assert_eq!(records[0].0, 1);
    assert_eq!(records[0].1, "abcd".to_string());
}

#[test]
fn empty_buffer_yields_nothing() {
    let buf: Vec<u8> = Vec::new();
    assert!(extract_strings(&buf, 4).is_empty());
}

#[test]
fn threshold_boundary() {
    // A closed run of exactly the threshold length is extracted; one byte
    // shorter is not.
    let four = b"\x00abcd\x00".to_vec();
    let three = b"\x00abc\x00".to_vec();
    assert_eq!(extract_strings(&four, 4).len(), 1);
    assert_eq!(extract_strings(&three, 4).len(), 0);
}

#[test]
fn spaces_stay_inside_a_run() {
    let buf = b"a b c\x00".to_vec();
    let records = extract_strings(&buf, 5);
    assert_eq!(records.len(), 1);
    assert_eq!(records[0].0, 0);
    assert_eq!(records[0].1, "a b c".to_string());
}

#[test]
fn runs_report_half_open_ranges() {
    let buf = b"ab\x00cdef\x00gh".to_vec();
    let ranges = extract_runs(&buf, 2);
    assert_eq!(ranges, vec![(0usize, 2usize), (3usize, 7usize)]);
}

#[test]
fn zero_threshold_still_needs_a_closed_run() {
    let buf = b"\x00\x01xy".to_vec();
    // The gap between the two null-range bytes never opens a run, and the
    // trailing "xy" is never closed, so nothing is emitted.
    assert_eq!(extract_strings(&buf, 0).len(), 0);
}

#[test]
fn run_byte_classification() {
    assert!(run_byte(b' '));
    assert!(run_byte(b'~'));
    assert!(run_byte(b'!'));
    assert!(!run_byte(0x1f));
    assert!(!run_byte(0x7f));
    assert!(!run_byte(0x00));
    assert!(!run_byte(0xff));
}
