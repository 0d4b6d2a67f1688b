use cardinal::namepool::NamePool;

#[test]
fn test_empty_pool() {
    let pool = NamePool::new();
    assert_eq!(pool.len(), 1); // Only the initial \0
    assert_eq!(pool.get(0), (0, ""));
}

#[test]
fn test_push_and_get() {
    let mut pool = NamePool::new();
    let offset1 = pool.push("foo");
    let offset2 = pool.push("bar");
    let offset3 = pool.push("baz");

    assert_eq!(offset1, 1);
    assert_eq!(offset2, 5);
    assert_eq!(offset3, 9);

    assert_eq!(pool.get(offset1), (4, "foo"));
    assert_eq!(pool.get(offset2), (8, "bar"));
    assert_eq!(pool.get(offset3), (12, "baz"));
}

#[test]
fn lib_test_push_empty_string() {
    let mut pool = NamePool::new();
    let offset = pool.push("");
    assert_eq!(offset, 1);
    assert_eq!(pool.get(offset), (1, ""));
    assert_eq!(pool.len(), 2); // Initial \0 + pushed \0
}

#[test]
fn test_get_with_offsets() {
    let mut pool = NamePool::new();
    let offset = pool.push("hello");
    assert_eq!(offset, 1);
    assert_eq!(pool.get(offset), (6, "hello"));
    assert_eq!(pool.get(0), (0, ""));
    for i in 1..=6 {
        assert_eq!(pool.get(i), (6, "hello"));
    }

    let offset = pool.push("world");
    assert_eq!(offset, 7);
    assert_eq!(pool.get(offset), (12, "world"));
    for i in 7..=12 {
        assert_eq!(pool.get(i), (12, "world"));
    }
}

#[test]
fn lib_test_search_substr() {
    let mut pool = NamePool::new();
    pool.push("hello");
    pool.push("world");
    pool.push("hello world");
    pool.push("hello world hello");

    let substr = "hello";
    let result: Vec<_> = pool.search_substr(substr);
    assert_eq!(result.len(), 3);
    assert_eq!(result[0], "hello");
    assert_eq!(result[1], "hello world");
    assert_eq!(result[2], "hello world hello");
}

#[test]
fn lib_test_search_subslice() {
    let mut pool = NamePool::new();
    pool.push("hello");
    pool.push("world");
    pool.push("hello world");
    pool.push("hello world hello");

    let subslice = b"world";
    let result: Vec<_> = pool.search_subslice(subslice);
    assert_eq!(result.len(), 3);
    assert_eq!(result[0], "world");
    assert_eq!(result[1], "hello world");
    assert_eq!(result[2], "hello world hello");
}

#[test]
fn lib_test_search_suffix() {
    let mut pool = NamePool::new();
    pool.push("hello");
    pool.push("world");
    pool.push("hello world");
    pool.push("hello world hello");

    let suffix = b"world\0";
    let result: Vec<_> = pool.search_suffix(suffix);
    assert_eq!(result.len(), 2);
    assert_eq!(result[0], "world");
    assert_eq!(result[1], "hello world");
}

#[test]
fn test_search_nonexistent() {
    let mut pool = NamePool::new();
    pool.push("hello");
    pool.push("world");

    let substr = "nonexistent";
    let result: Vec<_> = pool.search_substr(substr);
    assert!(result.is_empty());

    let subslice = b"nonexistent";
    let result: Vec<_> = pool.search_subslice(subslice);
    assert!(result.is_empty());
}

#[test]
fn test_search_partial_match() {
    let mut pool = NamePool::new();
    pool.push("hello");
    pool.push("world");
    pool.push("hell");

    let substr = "hell";
    let result: Vec<_> = pool.search_substr(substr);
    assert_eq!(result.len(), 2);
    assert_eq!(result[0], "hello");
    assert_eq!(result[1], "hell");
}

#[test]
fn test_search_suffix_partial() {
    let mut pool = NamePool::new();
    pool.push("hello");
    pool.push("world");
    pool.push("hell");

    let suffix = b"ell\0";
    let result: Vec<_> = pool.search_suffix(suffix);
    assert_eq!(result.len(), 1);
    assert_eq!(result[0], "hell");
}

#[test]
fn test_push_unicode() {
    let mut pool = NamePool::new();
    let offset = pool.push("こんにちは");
    assert_eq!(offset, 1);
    assert_eq!(pool.get(offset), (16, "こんにちは"));
}

#[test]
fn test_search_unicode() {
    let mut pool = NamePool::new();
    pool.push("こんにちは");
    pool.push("世界");
    pool.push("こんにちは世界");

    let substr = "世界";
    let result: Vec<_> = pool.search_substr(substr);
    assert_eq!(result.len(), 2);
    assert_eq!(result[0], "世界");
    assert_eq!(result[1], "こんにちは世界");
}

#[test]
fn test_search_unicode_suffix() {
    let mut pool = NamePool::new();
    pool.push("こんにちは");
    pool.push("世界");
    pool.push("こんにちは世界");

    let suffix = "世界\0";
    let result: Vec<_> = pool.search_suffix(suffix.as_bytes());
    assert_eq!(result.len(), 2);
    assert_eq!(result[0], "世界");
    assert_eq!(result[1], "こんにちは世界");
}

#[test]
fn lib_test_search_prefix() {
    let mut pool = NamePool::new();
    pool.push("hello");
    pool.push("world");
    pool.push("hello world");
    pool.push("hello world hello");

    let prefix = b"\0hello";
    let result: Vec<_> = pool.search_prefix(prefix);
    assert_eq!(result.len(), 3);
    assert_eq!(result[0], "hello");
    assert_eq!(result[1], "hello world");
    assert_eq!(result[2], "hello world hello");
}

#[test]
fn test_search_prefix_nonexistent() {
    let mut pool = NamePool::new();
    pool.push("hello");
    pool.push("world");

    let prefix = b"\0nonexistent";
    let result: Vec<_> = pool.search_prefix(prefix);
    assert!(result.is_empty());
}

#[test]
fn test_search_prefix_partial_match() {
    let mut pool = NamePool::new();
    pool.push("hello");
    pool.push("world");
    pool.push("hell");

    let prefix = b"\0hell";
    let result: Vec<_> = pool.search_prefix(prefix);
    assert_eq!(result.len(), 2);
    assert_eq!(result[0], "hello");
    assert_eq!(result[1], "hell");
}

#[test]
fn test_search_prefix_unicode() {
    let mut pool = NamePool::new();
    pool.push("こんにちは");
    pool.push("世界");
    pool.push("こんにちは世界");

    let prefix = "\0こんにちは";
    let result: Vec<_> = pool.search_prefix(prefix.as_bytes());
    assert_eq!(result.len(), 2);
    assert_eq!(result[0], "こんにちは");
    assert_eq!(result[1], "こんにちは世界");
}

#[test]
fn lib_test_search_exact() {
    let mut pool = NamePool::new();
    pool.push("hello");
    pool.push("world");
    pool.push("hello world");
    pool.push("hello world hello");

    let exact = b"\0hello\0";
    let result: Vec<_> = pool.search_exact(exact);
    assert_eq!(result.len(), 1);
    assert_eq!(result[0], "hello");

    let exact = b"\0world\0";
    let result: Vec<_> = pool.search_exact(exact);
    assert_eq!(result.len(), 1);
    assert_eq!(result[0], "world");

    let exact = b"\0hello world\0";
    let result: Vec<_> = pool.search_exact(exact);
    assert_eq!(result.len(), 1);
    assert_eq!(result[0], "hello world");

    let exact = b"\0hello world hello\0";
    let result: Vec<_> = pool.search_exact(exact);
    assert_eq!(result.len(), 1);
    assert_eq!(result[0], "hello world hello");
}

#[test]
fn test_search_exact_nonexistent() {
    let mut pool = NamePool::new();
    pool.push("hello");
    pool.push("world");

    let exact = b"\0nonexistent\0";
    let result: Vec<_> = pool.search_exact(exact);
    assert!(result.is_empty());
}

#[test]
fn test_search_exact_partial_match() {
    let mut pool = NamePool::new();
    pool.push("hello");
    pool.push("world");
    pool.push("hell");

    let exact = b"\0hell\0";
    let result: Vec<_> = pool.search_exact(exact);
    assert_eq!(result.len(), 1);
    assert_eq!(result[0], "hell");

    let exact = b"\0hello\0";
    let result: Vec<_> = pool.search_exact(exact);
    assert_eq!(result.len(), 1);
    assert_eq!(result[0], "hello");
}

#[test]
fn test_search_exact_unicode() {
    let mut pool = NamePool::new();
    pool.push("こんにちは");
    pool.push("世界");
    pool.push("こんにちは世界");

    let exact = "\0こんにちは\0".as_bytes();
    let result: Vec<_> = pool.search_exact(exact);
    assert_eq!(result.len(), 1);
    assert_eq!(result[0], "こんにちは");

    let exact = "\0世界\0".as_bytes();
    let result: Vec<_> = pool.search_exact(exact);
    assert_eq!(result.len(), 1);
    assert_eq!(result[0], "世界");

    let exact = "\0こんにちは世界\0".as_bytes();
    let result: Vec<_> = pool.search_exact(exact);
    assert_eq!(result.len(), 1);
    assert_eq!(result[0], "こんにちは世界");
}

#[test]
fn round_trip_of_names_without_guard() {
    let mut pool = NamePool::new();
    for name in ["a", "report.txt", "世界", "x y z"] {
        let handle = pool.push(name);
        assert_eq!(pool.get(handle).1, name);
    }
}

#[test]
fn earlier_handles_survive_later_pushes() {
    let mut pool = NamePool::new();
    let first = pool.push("first");
    let before = pool.get(first);
    assert_eq!(before, (6, "first"));
    for i in 0..100 {
        pool.push(&format!("later-{i}"));
    }
    assert_eq!(pool.get(first), (6, "first"));
}

#[test]
fn substring_hit_is_reported_once() {
    let mut pool = NamePool::new();
    pool.push("hello world hello");
    let result = pool.search_substr("hello");
    assert_eq!(result, vec!["hello world hello"]);
}

#[test]
fn same_name_twice_is_stored_twice() {
    let mut pool = NamePool::new();
    let a = pool.push("dup");
    let b = pool.push("dup");
    assert_eq!((a, b), (1, 5));
    assert_eq!(pool.len(), 9);
    assert_eq!(pool.search_substr("dup"), vec!["dup", "dup"]);
}

#[test]
fn exact_search_reports_equal_neighbours_each() {
    // Two equal names side by side share the guard between them.
    let mut pool = NamePool::new();
    pool.push("a");
    pool.push("a");
    assert_eq!(pool.search_exact(b"\0a\0"), vec!["a", "a"]);
    pool.push("b");
    pool.push("a");
    assert_eq!(pool.search_exact(b"\0a\0"), vec!["a", "a", "a"]);
    assert_eq!(pool.search_exact(b"\0b\0"), vec!["b"]);
    pool.push("");
    pool.push("");
    assert_eq!(pool.search_exact(b"\0\0"), vec!["", ""]);
    assert_eq!(pool.search_exact(b"\0ab\0"), Vec::<&str>::new());
}

#[test]
fn empty_needle_names_every_name_once() {
    let mut pool = NamePool::new();
    pool.push("ab");
    pool.push("c");
    assert_eq!(pool.search_substr(""), vec!["ab", "c"]);
}

#[test]
fn owners_skips_offsets_of_a_name_already_reported() {
    let mut pool = NamePool::new();
    pool.push("abc");
    pool.push("de");
    // offsets 1, 2 and 4 belong to "abc", 6 to "de", 0 and 99 to no name
    assert_eq!(pool.owners(&[0, 1, 2, 4, 6, 99], 0), vec!["abc", "de"]);
    assert_eq!(pool.owners_each(&[1, 2, 6], 0), vec!["abc", "abc", "de"]);
    assert_eq!(pool.owners(&[0, 4], 1), vec!["abc", "de"]);
}

#[test]
fn resolve_gives_the_name_alone() {
    let mut pool = NamePool::new();
    let a = pool.push("alpha");
    let b = pool.push("beta");
    assert_eq!(pool.resolve(a), "alpha");
    assert_eq!(pool.resolve(b), "beta");
    assert_eq!(pool.resolve(b + 2), "beta");
}

#[test]
fn prefix_and_suffix_of_names_that_share_text() {
    let mut pool = NamePool::new();
    for name in ["ab", "abab", "b", "ba", "xab"] {
        pool.push(name);
    }
    assert_eq!(pool.search_prefix(b"\0ab"), vec!["ab", "abab"]);
    assert_eq!(pool.search_suffix(b"ab\0"), vec!["ab", "abab", "xab"]);
    assert_eq!(pool.search_substr("b"), vec!["ab", "abab", "b", "ba", "xab"]);
    assert_eq!(pool.search_exact(b"\0b\0"), vec!["b"]);
    // a prefix that is only the guard names every name
    assert_eq!(pool.search_prefix(b"\0"), vec!["ab", "abab", "b", "ba", "xab"]);
    assert_eq!(pool.search_suffix(b"\0"), vec!["ab", "abab", "b", "ba", "xab"]);
}
