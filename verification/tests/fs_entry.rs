use cardinal::fs_entry::{file_type_of, lies_below, name_of, scan, scan_folder, DiskEntry, Metadata, Walked};
use cardinal::node::FileType;

fn path(text: &str) -> Vec<Vec<u8>> {
    text.split('/').filter(|part| !part.is_empty()).map(|part| part.as_bytes().to_vec()).collect()
}

fn meta(len: u64) -> Option<Metadata> {
    Some(Metadata {
        file_type: FileType::File,
        len,
        created: 1,
        modified: 2,
        accessed: 3,
        permissions_read_only: false,
    })
}

fn walked(text: &str, len: u64) -> Walked {
    Walked { path: path(text), metadata: meta(len) }
}

fn outline(entry: &DiskEntry, depth: usize, out: &mut Vec<(usize, String)>) {
    out.push((depth, String::from_utf8(entry.name.clone()).unwrap()));
    for child in &entry.entries {
        outline(child, depth + 1, out);
    }
}

#[test]
fn kind_of_an_entry() {
    assert_eq!(file_type_of(true, false, false), FileType::Dir);
    assert_eq!(file_type_of(true, true, true), FileType::Dir);
    assert_eq!(file_type_of(false, true, true), FileType::File);
    assert_eq!(file_type_of(false, false, true), FileType::Symlink);
    assert_eq!(file_type_of(false, false, false), FileType::Unknown);
}

#[test]
fn below_is_by_components() {
    assert!(lies_below(&path("/a/b"), &path("/a")));
    assert!(lies_below(&path("/a/b/c"), &path("/a")));
    assert!(!lies_below(&path("/a"), &path("/a")));
    assert!(!lies_below(&path("/ab"), &path("/a")));
    assert!(!lies_below(&path("/a"), &path("/a/b")));
    assert!(lies_below(&path("/a"), &path("/")));
    assert_eq!(name_of(&path("/a/b.txt")), b"b.txt");
    assert_eq!(name_of(&path("/")), b"");
}

#[test]
fn scan_nests_what_lies_below() {
    let items = vec![
        walked("/r", 0),
        walked("/r/a", 1),
        walked("/r/a/x", 2),
        walked("/r/a/y", 3),
        walked("/r/b", 4),
        walked("/r/c", 5),
        walked("/r/c/z", 6),
    ];
    let root = scan(b"/r".to_vec(), &items);
    let mut seen = Vec::new();
    outline(&root, 0, &mut seen);
    let expected: Vec<(usize, String)> =
        [(0, "/r"), (1, "a"), (2, "x"), (2, "y"), (1, "b"), (1, "c"), (2, "z")]
            .iter()
            .map(|(depth, name)| (*depth, name.to_string()))
            .collect();
    assert_eq!(seen, expected);
    assert_eq!(root.entries[0].entries[1].metadata, meta(3));
    assert_eq!(root.metadata, meta(0));
}

#[test]
fn scan_stops_at_what_does_not_lie_below_the_root() {
    let items = vec![walked("/r", 0), walked("/r/a", 1), walked("/other", 2), walked("/r/b", 3)];
    let (root, end) = scan_folder(&items, 0, b"r".to_vec());
    assert_eq!(end, 2);
    assert_eq!(root.entries.len(), 1);
    let (inner, end) = scan_folder(&items, 1, b"a".to_vec());
    assert_eq!(end, 2);
    assert!(inner.entries.is_empty());
    let alone = scan(b"/r".to_vec(), &vec![walked("/r", 0)]);
    assert!(alone.entries.is_empty());
}

#[test]
fn entry_without_metadata_is_kept() {
    let items = vec![walked("/r", 0), Walked { path: path("/r/locked"), metadata: None }];
    let root = scan(b"/r".to_vec(), &items);
    assert_eq!(root.entries.len(), 1);
    assert_eq!(root.entries[0].name, b"locked");
    assert_eq!(root.entries[0].metadata, None);
}
