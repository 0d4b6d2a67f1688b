use cardinal::memmem::{find_matches, find_occurrences};

#[test]
fn matches_from_the_left() {
    assert_eq!(find_matches(b"foo bar foo baz foo", b"foo"), vec![0, 8, 16]);
    assert_eq!(find_matches(b"foo", b"bar"), Vec::<usize>::new());
    assert_eq!(find_matches(b"", b"x"), Vec::<usize>::new());
    assert_eq!(find_matches(b"x", b"xx"), Vec::<usize>::new());
}

#[test]
fn matches_do_not_overlap() {
    assert_eq!(find_matches(b"aaaa", b"aa"), vec![0, 2]);
    assert_eq!(find_matches(b"aaaaa", b"aa"), vec![0, 2]);
    assert_eq!(find_matches(b"\0a\0a\0a\0", b"\0a\0"), vec![0, 4]);
    assert_eq!(find_matches(b"abababa", b"aba"), vec![0, 4]);
}

#[test]
fn the_empty_needle_matches_everywhere() {
    assert_eq!(find_matches(b"abc", b""), vec![0, 1, 2, 3]);
    assert_eq!(find_matches(b"", b""), vec![0]);
}

#[test]
fn occurrences_may_overlap() {
    assert_eq!(find_occurrences(b"aaaa", b"aa"), vec![0, 1, 2]);
    assert_eq!(find_occurrences(b"\0a\0a\0a\0", b"\0a\0"), vec![0, 2, 4]);
    assert_eq!(find_occurrences(b"abababa", b"aba"), vec![0, 2, 4]);
    assert_eq!(find_occurrences(b"foo bar foo", b"foo"), vec![0, 8]);
    assert_eq!(find_occurrences(b"foo", b"bar"), Vec::<usize>::new());
    assert_eq!(find_occurrences(b"", b"x"), Vec::<usize>::new());
    assert_eq!(find_occurrences(b"x", b"x"), vec![0]);
}

#[test]
fn the_empty_needle_occurs_everywhere() {
    assert_eq!(find_occurrences(b"abc", b""), vec![0, 1, 2, 3]);
    assert_eq!(find_occurrences(b"", b""), vec![0]);
}
