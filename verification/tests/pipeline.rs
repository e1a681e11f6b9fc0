use pathscrub::redact::{sanitize, sanitize_with};

#[test]
fn redacts_path_inside_text() {
    // "src/lib.rs" spans bytes 4..14; the run is closed by the trailing
    // null byte so it is extracted, and the match becomes ten spaces.
    let buf = b"see src/lib.rs: for details\x00".to_vec();
    let out = sanitize(&buf, 4);
    let expected = b"see           : for details\x00".to_vec();
    assert_eq!(out.len(), buf.len());
    assert_eq!(out, expected);
}

#[test]
fn colon_breaks_prefix() {
    // The colon cannot be part of the path prefix: only "a.rs" is wiped.
    let buf = b":a.rs\x00".to_vec();
    let out = sanitize(&buf, 4);
    assert_eq!(out, b":    \x00".to_vec());
}

#[test]
fn run_at_threshold_is_redacted() {
    let buf = b"a.rs\x00".to_vec();
    let out = sanitize(&buf, 4);
    assert_eq!(out, b"    \x00".to_vec());
}

#[test]
fn run_below_threshold_is_kept() {
    // Three printable bytes with threshold four: never extracted, so the
    // path-like content survives.
    let buf = b".rs\x00".to_vec();
    let out = sanitize(&buf, 4);
    assert_eq!(out, buf);
}

#[test]
fn trailing_run_is_dropped() {
    // The buffer ends inside a printable run, so the run is never closed
    // and nothing is redacted.
    let buf = b"data end.rs".to_vec();
    let out = sanitize(&buf, 4);
    assert_eq!(out, buf);
}

#[test]
fn null_separated_runs_are_independent() {
    // "foo" and "bar.rs" are separate records; only "bar.rs" matches, and
    // the null byte between them is untouched.
    let buf = b"foo\x00bar.rs\x00".to_vec();
    let out = sanitize(&buf, 3);
    assert_eq!(out, b"foo\x00      \x00".to_vec());
}

#[test]
fn split_path_is_not_matched_across_records() {
    // A null byte splits what would otherwise be one path: only the piece
    // that still ends in the suffix is wiped, and the separator survives.
    let buf = b"src/li\x00b.rs\x00".to_vec();
    let out = sanitize(&buf, 2);
    assert_eq!(out, b"src/li\x00    \x00".to_vec());
}

#[test]
fn sanitize_twice_equals_once() {
    let buf = b"x src/lib.rs y\x00keep\x01a.rsb.rs\x00tail.rs".to_vec();
    let once = sanitize(&buf, 4);
    let twice = sanitize(&once, 4);
    assert_eq!(twice, once);
}

#[test]
fn adjacent_matches_are_both_redacted() {
    // Non-greedy matching takes "a.rs" first, then "b.rs".
    let buf = b"a.rsb.rs\x00".to_vec();
    let out = sanitize(&buf, 4);
    assert_eq!(out, b"        \x00".to_vec());
}

#[test]
fn bare_suffix_alone_matches() {
    // The path prefix may be empty: a lone ".rs" is still wiped, and the
    // space before it stays.
    let buf = b"zz .rs\x00".to_vec();
    let out = sanitize(&buf, 4);
    assert_eq!(out, b"zz    \x00".to_vec());
}

#[test]
fn bytes_outside_matches_are_preserved() {
    let buf = b"\x07abc lib.rs end\x00\xffmore\x02".to_vec();
    let out = sanitize(&buf, 4);
    assert_eq!(out.len(), buf.len());
    for i in 0..buf.len() {
        if (5..11).contains(&i) {
            assert_eq!(out[i], b' ');
        } else {
            assert_eq!(out[i], buf[i]);
        }
    }
}

#[test]
fn custom_extension_token() {
    // The suffix token is configurable; with "g o" only ".go" paths match.
    let buf = b"cmd/main.go plus lib.rs\x00".to_vec();
    let out = sanitize_with(&buf, 4, b'g', b'o');
    assert_eq!(out, b"            plus lib.rs\x00".to_vec());
}

#[test]
fn empty_buffer_stays_empty() {
    let buf: Vec<u8> = Vec::new();
    let out = sanitize(&buf, 4);
    assert!(out.is_empty());
}
