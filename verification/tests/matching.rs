use pathscrub::matcher::{find_path_matches, path_byte, EXT_FIRST, EXT_SECOND};

#[test]
fn finds_shortest_path_match() {
    let text = b"see src/lib.rs: ok";
    let spans = find_path_matches(text, EXT_FIRST, EXT_SECOND);
    assert_eq!(spans, vec![(4usize, 14usize)]);
}

#[test]
fn bare_suffix_is_a_match() {
    let spans = find_path_matches(b".rs", EXT_FIRST, EXT_SECOND);
    assert_eq!(spans, vec![(0usize, 3usize)]);
}

#[test]
fn colon_is_excluded_from_prefix() {
    let spans = find_path_matches(b":a.rs", EXT_FIRST, EXT_SECOND);
    assert_eq!(spans, vec![(1usize, 5usize)]);
}

#[test]
fn whitespace_is_excluded_from_prefix() {
    let spans = find_path_matches(b"a b.rs", EXT_FIRST, EXT_SECOND);
    assert_eq!(spans, vec![(2usize, 6usize)]);
}

#[test]
fn no_suffix_means_no_match() {
    assert!(find_path_matches(b"hello world", EXT_FIRST, EXT_SECOND).is_empty());
    assert!(find_path_matches(b"rs.r", EXT_FIRST, EXT_SECOND).is_empty());
    assert!(find_path_matches(b"", EXT_FIRST, EXT_SECOND).is_empty());
}

#[test]
fn matches_do_not_overlap() {
    // Non-greedy: the first match ends at the first suffix, the second
    // starts right after it.
    let spans = find_path_matches(b"a.rsb.rs", EXT_FIRST, EXT_SECOND);
    assert_eq!(spans, vec![(0usize, 4usize), (4usize, 8usize)]);
}

#[test]
fn dot_inside_prefix_is_allowed() {
    let spans = find_path_matches(b"a.b.rs", EXT_FIRST, EXT_SECOND);
    assert_eq!(spans, vec![(0usize, 6usize)]);
}

#[test]
fn custom_token_changes_the_pattern() {
    let spans = find_path_matches(b"x.go y.rs", b'g', b'o');
    assert_eq!(spans, vec![(0usize, 4usize)]);
}

#[test]
fn path_byte_classification() {
    assert!(path_byte(b'a'));
    assert!(path_byte(b'/'));
    assert!(path_byte(b'.'));
    assert!(!path_byte(b' '));
    assert!(!path_byte(b':'));
    assert!(!path_byte(b'\t'));
    assert!(!path_byte(b'\n'));
    assert!(!path_byte(0x0b));
    assert!(!path_byte(0x0c));
    assert!(!path_byte(b'\r'));
}
