use cardinal::cache_line::CacheLine;

#[test]
fn test_new_cacheline() {
    const CAPACITY: usize = 1024;
    let cl = CacheLine::<CAPACITY>::new();
    assert_eq!(cl.len(), 1);
    assert_eq!(cl.data().len(), CAPACITY);
    assert_eq!(cl.data()[0], 0); // leading guard
}

#[test]
fn test_push_and_get_basic() {
    let mut cl = CacheLine::<1024>::new();
    let old_len = cl.len();
    let result = cl.push("hello");
    assert!(result.is_some());
    let (start, len) = result.unwrap();
    assert_eq!(len, 5);
    assert_eq!(cl.len(), old_len + 5 + 1);
    let (_, (start2, len2)) = cl.get(old_len);
    assert_eq!(len, len2);
    assert_eq!(cl.bytes((start, len)), b"hello");
    assert_eq!(cl.bytes((start2, len2)), b"hello");
}

#[test]
fn test_push_multiple_strings() {
    let mut cl = CacheLine::<1024>::new();
    let old_len1 = cl.len();
    let first = cl.push("first").unwrap();
    let old_len2 = cl.len();
    let second = cl.push("second").unwrap();

    let (_, first_g) = cl.get(old_len1);
    let (_, second_g) = cl.get(old_len2);

    assert_eq!(cl.bytes(first), b"first");
    assert_eq!(cl.bytes(first_g), b"first");
    assert_eq!(cl.bytes(second), b"second");
    assert_eq!(cl.bytes(second_g), b"second");
}

#[test]
fn cache_line_test_push_empty_string() {
    let mut cl = CacheLine::<1024>::new();
    let old_len = cl.len();
    let (_, len) = cl.push("").unwrap();
    assert_eq!(len, 0);
    assert_eq!(cl.len(), old_len + 1);
    let (_, (_, len_g)) = cl.get(old_len);
    assert_eq!(len_g, 0);
}

#[test]
fn test_push_unicode_string() {
    let mut cl = CacheLine::<1024>::new();
    let old_len = cl.len();
    let span = cl.push("こんにちは").unwrap();
    let (_, span_g) = cl.get(old_len);
    assert_eq!(cl.bytes(span), "こんにちは".as_bytes());
    assert_eq!(cl.bytes(span_g), "こんにちは".as_bytes());
}

#[test]
fn test_capacity_limit() {
    let mut cl = CacheLine::<10>::new(); // Small capacity
    let _ = cl.push("abc").unwrap(); // 1 + 3 + 1 = 5
    assert_eq!(cl.len(), 5);
    let _ = cl.push("def").unwrap(); // 5 + 3 + 1 = 9
    assert_eq!(cl.len(), 9);
    assert!(cl.push("g").is_none()); // 9 + 1 + 1 = 11 > 10
}

#[test]
fn test_fill_to_capacity() {
    let mut cl = CacheLine::<20>::new();
    let mut count = 0;
    loop {
        let name = format!("x{count}");
        if cl.push(&name).is_none() {
            break;
        }
        count += 1;
    }
    assert!(count > 0);
    // Ensure no more can be added
    assert!(cl.push("extra").is_none());
}

#[test]
fn cache_line_test_search_substr() {
    let mut cl = CacheLine::<1024>::new();
    cl.push("hello");
    cl.push("world");
    cl.push("hello world");

    let results: Vec<_> = cl.search_substr("hello");
    assert_eq!(results.len(), 2); // "hello" and "hello world"
    assert!(results.iter().any(|&(_, len)| len == 5)); // "hello"
    assert!(results.iter().any(|&(_, len)| len == 11)); // "hello world"
}

#[test]
fn cache_line_test_search_subslice() {
    let mut cl = CacheLine::<1024>::new();
    cl.push("test");
    cl.push("testing");

    let results: Vec<_> = cl.search_subslice(b"test");
    assert_eq!(results.len(), 2);
}

#[test]
fn cache_line_test_search_suffix() {
    let mut cl = CacheLine::<1024>::new();
    cl.push("file.txt");
    cl.push("data.txt");

    let suffix = b".txt\0";
    let results: Vec<_> = cl.search_suffix(suffix);
    assert_eq!(results.len(), 2);
}

#[test]
fn cache_line_test_search_prefix() {
    let mut cl = CacheLine::<1024>::new();
    cl.push("hello");
    cl.push("help");

    let results: Vec<_> = cl.search_prefix(b"\0hel");
    assert_eq!(results.len(), 2);
}

#[test]
fn cache_line_test_search_exact() {
    let mut cl = CacheLine::<1024>::new();
    cl.push("exact");
    cl.push("exact match");

    let results: Vec<_> = cl.search_exact(b"\0exact\0");
    assert_eq!(results.len(), 1);
    assert_eq!(results[0].1, 5); // length of "exact"
}

#[test]
fn test_search_no_matches() {
    let mut cl = CacheLine::<1024>::new();
    cl.push("hello");

    let results: Vec<_> = cl.search_substr("world");
    assert!(results.is_empty());
}

#[test]
fn test_get_boundary_cases() {
    let mut cl = CacheLine::<1024>::new();
    cl.push("a");
    cl.push("b");

    // an offset within a name, and the guard that closes it, are the name's
    assert_eq!(cl.get(1), (2, (1, 1)));
    assert_eq!(cl.get(2), (2, (1, 1)));
    assert_eq!(cl.get(3), (4, (3, 1)));
    assert_eq!(cl.get(0), (0, (0, 0)));
    assert_eq!(cl.get(1023), (1023, (1023, 0)));
}

#[test]
fn push_fails_exactly_when_the_name_does_not_fit() {
    let mut cl = CacheLine::<8>::new();
    assert_eq!(cl.push("abcdefg"), None); // 1 + 7 + 1 = 9 > 8
    assert_eq!(cl.len(), 1);
    assert_eq!(cl.push("abcdef"), Some((1, 6))); // 1 + 6 + 1 = 8
    assert_eq!(cl.len(), 8);
    assert_eq!(cl.data(), b"\0abcdef\0");
    assert_eq!(cl.push(""), None);
    let mut empty = CacheLine::<0>::new();
    assert_eq!(empty.push(""), None);
}

#[test]
fn substring_hit_in_fixed_buffer_is_reported_once() {
    let mut cl = CacheLine::<64>::new();
    let span = cl.push("hello world hello").unwrap();
    cl.push("other");
    assert_eq!(cl.search_substr("hello"), vec![span]);
    assert_eq!(cl.spans_of_matches(&[1, 2, 3, 13, 19, 20], 0), vec![(1, 17), (19, 5)]);
    assert_eq!(cl.spans_of_matches(&[0, 18], 1), vec![(1, 17), (19, 5)]);
}

#[test]
fn exact_search_in_fixed_buffer_reports_equal_neighbours_each() {
    let mut cl = CacheLine::<16>::new();
    let first = cl.push("a").unwrap();
    let second = cl.push("a").unwrap();
    cl.push("ab");
    let third = cl.push("a").unwrap();
    assert_eq!(cl.search_exact(b"\0a\0"), vec![first, second, third]);
    assert_eq!(cl.search_exact(b"\0ab\0"), vec![(5, 2)]);
    assert_eq!(cl.search_exact(b"\0b\0"), vec![]);
    // the unused part of the buffer is all guards: empty names, one behind each
    assert_eq!(cl.len(), 10);
    assert_eq!(cl.search_exact(b"\0\0").len(), 6);
}
