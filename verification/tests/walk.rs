use cardinal::node::NodeMetadata;
use cardinal::walk::{
    after_listing, after_stat, handle_error_and_retry, walk_it, Entry, IoFailure, Listing,
    ListingDecision, Lookup, Node, Observed, Stat, StatDecision, WalkData,
};

fn meta(size: u64) -> NodeMetadata {
    NodeMetadata::new(Some(10), Some(20), size)
}

fn dir(path: &str, name: &str, entries: Vec<Entry>) -> Observed {
    Observed {
        path: path.to_string(),
        name: name.to_string(),
        lookup: Lookup::Found(Stat { is_dir: true, metadata: meta(0) }),
        second_lookup: None,
        listings: vec![Listing::Entries(entries)],
    }
}

fn file(name: &str, size: u64) -> Entry {
    Entry::File { name: name.to_string(), metadata: Some(meta(size)) }
}

fn names(node: &Node) -> Vec<String> {
    let mut out = vec![node.name.clone()];
    for child in &node.children {
        out.extend(names(child));
    }
    out
}

#[test]
fn only_an_interrupted_call_is_tried_again() {
    assert!(handle_error_and_retry(IoFailure::Interrupted));
    assert!(!handle_error_and_retry(IoFailure::NotFound));
    assert!(!handle_error_and_retry(IoFailure::PermissionDenied));
    assert!(!handle_error_and_retry(IoFailure::Other));
}

#[test]
fn what_to_do_after_a_lookup() {
    let stat = Stat { is_dir: false, metadata: meta(3) };
    assert_eq!(after_stat(Lookup::Found(stat)), StatDecision::Keep(Some(stat)));
    assert_eq!(after_stat(Lookup::Failed(IoFailure::NotFound)), StatDecision::Drop);
    assert_eq!(after_stat(Lookup::Failed(IoFailure::Interrupted)), StatDecision::Retry);
    assert_eq!(after_stat(Lookup::Failed(IoFailure::PermissionDenied)), StatDecision::Keep(None));
    assert_eq!(after_stat(Lookup::Failed(IoFailure::Other)), StatDecision::Keep(None));
}

#[test]
fn walk_builds_the_tree_and_counts() {
    let tree = dir(
        "/r",
        "r",
        vec![
            file("a", 1),
            Entry::Dir(dir("/r/d", "d", vec![file("b", 2), Entry::Unknown])),
            Entry::Failed(IoFailure::Other),
            file("c", 3),
        ],
    );
    let mut data = WalkData::new("/elsewhere".to_string(), true);
    let node = walk_it(&tree, &mut data).unwrap();
    assert_eq!(names(&node), vec!["r", "a", "d", "b", "c"]);
    assert_eq!(data.num_files(), 3);
    assert_eq!(data.num_dirs(), 2);
    assert_eq!(node.metadata, Some(meta(0)));
    assert_eq!(node.children[0].metadata, Some(meta(1)));
    assert_eq!(node.children[1].children[0].metadata, Some(meta(2)));
}

#[test]
fn metadata_of_files_only_where_asked_for() {
    let tree = dir("/r", "r", vec![file("a", 1)]);
    let mut data = WalkData::new("/elsewhere".to_string(), false);
    let node = walk_it(&tree, &mut data).unwrap();
    assert_eq!(node.metadata, Some(meta(0)));
    assert_eq!(node.children[0].metadata, None);
    let mut plain = WalkData::unrestricted();
    assert!(!plain.needs_metadata());
    assert_eq!(walk_it(&tree, &mut plain).unwrap().children[0].metadata, None);
}

#[test]
fn ignored_directory_is_left_out() {
    let tree = dir(
        "/r",
        "r",
        vec![Entry::Dir(dir("/r/skip", "skip", vec![file("x", 1)])), file("a", 1)],
    );
    let mut data = WalkData::new("/r/skip".to_string(), true);
    assert!(data.is_ignored(&"/r/skip".to_string()));
    assert!(!data.is_ignored(&"/r".to_string()));
    let node = walk_it(&tree, &mut data).unwrap();
    assert_eq!(names(&node), vec!["r", "a"]);
    assert_eq!((data.num_files(), data.num_dirs()), (1, 1));

    let mut root_ignored = WalkData::new("/r".to_string(), true);
    assert!(walk_it(&tree, &mut root_ignored).is_none());
    assert_eq!((root_ignored.num_files(), root_ignored.num_dirs()), (0, 0));
}

#[test]
fn path_that_is_not_found_is_skipped() {
    let mut gone = dir("/r/gone", "gone", vec![]);
    gone.lookup = Lookup::Failed(IoFailure::NotFound);
    let tree = dir("/r", "r", vec![Entry::Dir(gone)]);
    let mut data = WalkData::unrestricted();
    let node = walk_it(&tree, &mut data).unwrap();
    assert_eq!(names(&node), vec!["r"]);
    assert_eq!((data.num_files(), data.num_dirs()), (0, 1));
}

#[test]
fn path_that_cannot_be_inspected_is_kept_without_metadata() {
    let mut locked = dir("/r/locked", "locked", vec![file("inside", 1)]);
    locked.lookup = Lookup::Failed(IoFailure::PermissionDenied);
    let tree = dir("/r", "r", vec![Entry::Dir(locked)]);
    let mut data = WalkData::unrestricted();
    let node = walk_it(&tree, &mut data).unwrap();
    assert_eq!(names(&node), vec!["r", "locked"]);
    assert_eq!(node.children[0].metadata, None);
    assert!(node.children[0].children.is_empty());
    // without metadata it counts as a file
    assert_eq!((data.num_files(), data.num_dirs()), (1, 1));
}

#[test]
fn interrupted_lookup_goes_by_the_second_try() {
    let mut again = dir("/r", "r", vec![file("a", 1)]);
    again.lookup = Lookup::Failed(IoFailure::Interrupted);
    again.second_lookup = Some(Stat { is_dir: true, metadata: meta(9) });
    let mut data = WalkData::unrestricted();
    let node = walk_it(&again, &mut data).unwrap();
    assert_eq!(names(&node), vec!["r", "a"]);
    assert_eq!(node.metadata, Some(meta(9)));

    again.second_lookup = None;
    let mut data = WalkData::unrestricted();
    let node = walk_it(&again, &mut data).unwrap();
    assert_eq!(names(&node), vec!["r"]);
    assert_eq!(node.metadata, None);
}

#[test]
fn directory_that_cannot_be_listed_has_no_children() {
    let mut closed = dir("/r", "r", vec![]);
    closed.listings = vec![Listing::Failed(IoFailure::PermissionDenied)];
    let mut data = WalkData::unrestricted();
    let node = walk_it(&closed, &mut data).unwrap();
    assert!(node.children.is_empty());
    assert_eq!((data.num_files(), data.num_dirs()), (0, 1));
}

#[test]
fn counts_go_on_from_where_they_stand() {
    let tree = dir("/r", "r", vec![file("a", 1), file("b", 1)]);
    let mut data = WalkData::unrestricted();
    walk_it(&tree, &mut data);
    walk_it(&tree, &mut data);
    assert_eq!((data.num_files(), data.num_dirs()), (4, 2));
}

#[test]
fn interrupted_listing_is_made_again() {
    let cut_short = Listing::Entries(vec![file("a", 1), Entry::Failed(IoFailure::Interrupted)]);
    let whole = Listing::Entries(vec![file("a", 1), file("b", 2), Entry::Failed(IoFailure::Other)]);
    assert_eq!(after_listing(&cut_short), ListingDecision::Retry);
    assert_eq!(after_listing(&whole), ListingDecision::Keep);
    assert_eq!(after_listing(&Listing::Failed(IoFailure::Interrupted)), ListingDecision::Retry);
    assert_eq!(after_listing(&Listing::Failed(IoFailure::PermissionDenied)), ListingDecision::Keep);
    assert_eq!(after_listing(&Listing::Entries(vec![])), ListingDecision::Keep);

    let mut tree = dir("/r", "r", vec![]);
    tree.listings = vec![
        Listing::Failed(IoFailure::Interrupted),
        cut_short,
        whole,
        Listing::Entries(vec![file("never", 9)]),
    ];
    let mut data = WalkData::unrestricted();
    let node = walk_it(&tree, &mut data).unwrap();
    assert_eq!(names(&node), vec!["r", "a", "b"]);
    assert_eq!((data.num_files(), data.num_dirs()), (2, 1));

    // where every try was interrupted, or none was made, there are no children
    tree.listings = vec![Listing::Failed(IoFailure::Interrupted)];
    let mut data = WalkData::unrestricted();
    assert!(walk_it(&tree, &mut data).unwrap().children.is_empty());
    tree.listings = vec![];
    assert!(walk_it(&tree, &mut data).unwrap().children.is_empty());
}
