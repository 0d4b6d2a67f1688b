//! A directory tree built from the flat listing of a walk.
//!
//! A walk hands out its entries one by one, a directory before what is in
//! it. The tree is put together from that order alone: what follows an
//! entry and lies below its path is inside it.

use crate::lex::{compare, Rank};
use crate::node::FileType;
use vstd::prelude::*;

verus! {

/// Most of the useful information for a disk node. The times are seconds
/// since the Unix epoch.
#[derive(Clone, Copy, Debug, PartialEq, Eq)]
pub struct Metadata {
    pub file_type: FileType,
    pub len: u64,
    pub created: u64,
    pub modified: u64,
    pub accessed: u64,
    pub permissions_read_only: bool,
}

/// One entry of a directory tree, with the entries inside it.
#[derive(Debug)]
pub struct DiskEntry {
    /// WTF-8
    pub name: Vec<u8>,
    /// Is None when no permission.
    pub metadata: Option<Metadata>,
    /// Is set to Some when entry is a folder.
    pub entries: Vec<DiskEntry>,
}

/// One entry as a walk hands it out: the components of its path, and its
/// metadata where they could be read.
#[derive(Debug)]
pub struct Walked {
    pub path: Vec<Vec<u8>>,
    pub metadata: Option<Metadata>,
}

/// A directory tree as a value.
pub struct EntryTree {
    pub name: Seq<u8>,
    pub metadata: Option<Metadata>,
    pub entries: Seq<EntryTree>,
}

/// The kind of an entry from what the file system says of it. An entry
/// that is said to be several things is taken for the first of directory,
/// file and symbolic link.
pub fn file_type_of(is_dir: bool, is_file: bool, is_symlink: bool) -> (r: FileType)
    ensures
        r == if is_dir {
            FileType::Dir
        } else if is_file {
            FileType::File
        } else if is_symlink {
            FileType::Symlink
        } else {
            FileType::Unknown
        },
{
    if is_dir {
        FileType::Dir
    } else if is_file {
        FileType::File
    } else if is_symlink {
        FileType::Symlink
    } else {
        FileType::Unknown
    }
}

/// The components of a path as values.
pub open spec fn components(path: Vec<Vec<u8>>) -> Seq<Seq<u8>> {
    Seq::new(path@.len(), |i: int| path@[i]@)
}

/// Whether the path `child` lies below the path `parent`: it begins with
/// the components of `parent` and goes on.
pub open spec fn is_below(child: Seq<Seq<u8>>, parent: Seq<Seq<u8>>) -> bool {
    parent.len() < child.len() && child.take(parent.len() as int) == parent
}

/// The last component of a path, which is the name of the entry, or the
/// empty name for a path without components.
pub open spec fn last_component(path: Seq<Seq<u8>>) -> Seq<u8> {
    if path.len() == 0 {
        Seq::empty()
    } else {
        path.last()
    }
}

/// Where the run of entries below entry `parent` ends that begins at `from`.
pub open spec fn run_end(items: Seq<Walked>, parent: int, from: int) -> int
    decreases items.len() - from,
{
    if 0 <= from < items.len() && is_below(
        components(items[from].path),
        components(items[parent].path),
    ) {
        run_end(items, parent, from + 1)
    } else {
        from
    }
}

/// The place behind entry `at` and everything inside it.
pub open spec fn subtree_end(items: Seq<Walked>, at: int) -> int {
    run_end(items, at, at + 1)
}

/// The tree of entry `at`, named `name`.
pub open spec fn tree_at(items: Seq<Walked>, at: int, name: Seq<u8>) -> EntryTree
    decreases items.len() - at, 0nat,
{
    EntryTree {
        name,
        metadata: items[at].metadata,
        entries: if 0 <= at < items.len() {
            children_from(items, at, at + 1)
        } else {
            Seq::empty()
        },
    }
}

/// The trees of the children of entry `parent` from position `from` on:
/// the entry at `from`, where it lies below `parent`, and then the
/// children behind all that is inside it.
pub open spec fn children_from(items: Seq<Walked>, parent: int, from: int) -> Seq<EntryTree>
    decreases items.len() - from, 1nat,
{
    if 0 <= from < items.len() && is_below(
        components(items[from].path),
        components(items[parent].path),
    ) {
        let child = tree_at(items, from, last_component(components(items[from].path)));
        if from < subtree_end(items, from) <= items.len() {
            seq![child] + children_from(items, parent, subtree_end(items, from))
        } else {
            seq![child]
        }
    } else {
        Seq::empty()
    }
}

/// The tree that a disk entry stands for.
pub open spec fn tree_of(entry: DiskEntry) -> EntryTree
    decreases entry,
{
    EntryTree {
        name: entry.name@,
        metadata: entry.metadata,
        entries: Seq::new(
            entry.entries@.len(),
            |i: int|
                if 0 <= i < entry.entries@.len() {
                    tree_of(entry.entries@[i])
                } else {
                    EntryTree { name: Seq::empty(), metadata: None, entries: Seq::empty() }
                },
        ),
    }
}

/// The trees that a sequence of disk entries stands for.
pub open spec fn trees_of(entries: Seq<DiskEntry>) -> Seq<EntryTree> {
    Seq::new(entries.len(), |i: int| tree_of(entries[i]))
}

/// A run of entries below `parent` ends at or behind where it begins, and
/// within the listing.
pub proof fn lemma_run_end(items: Seq<Walked>, parent: int, from: int)
    requires
        0 <= from <= items.len(),
    ensures
        from <= run_end(items, parent, from) <= items.len(),
        forall|j: int|
            from <= j < run_end(items, parent, from) ==> is_below(
                components(#[trigger] items[j].path),
                components(items[parent].path),
            ),
        run_end(items, parent, from) < items.len() ==> !is_below(
            components(items[run_end(items, parent, from)].path),
            components(items[parent].path),
        ),
    decreases items.len() - from,
{
    if from < items.len() && is_below(components(items[from].path), components(items[parent].path)) {
        lemma_run_end(items, parent, from + 1);
    }
}

/// What lies below a path lies below everything that the path lies below.
pub proof fn lemma_below_transitive(a: Seq<Seq<u8>>, b: Seq<Seq<u8>>, c: Seq<Seq<u8>>)
    requires
        is_below(a, b),
        is_below(b, c),
    ensures
        is_below(a, c),
{
    assert(a.take(c.len() as int) =~= a.take(b.len() as int).take(c.len() as int));
}

/// A run of entries below `parent` that holds the entry `child` holds all
/// that is inside `child`, and goes on from there as it went on before.
proof fn lemma_run_skips_subtree(items: Seq<Walked>, parent: int, child: int)
    requires
        0 <= parent < items.len(),
        0 <= child < items.len(),
        is_below(components(items[child].path), components(items[parent].path)),
    ensures
        run_end(items, parent, child) == run_end(items, parent, subtree_end(items, child)),
{
    lemma_run_end(items, child, child + 1);
    let end = subtree_end(items, child);
    lemma_run_from_to(items, parent, child, child, end);
}

proof fn lemma_run_from_to(items: Seq<Walked>, parent: int, child: int, from: int, to: int)
    requires
        0 <= parent < items.len(),
        0 <= child <= from <= to <= items.len(),
        child < items.len(),
        is_below(components(items[child].path), components(items[parent].path)),
        forall|j: int|
            child < j < to ==> is_below(
                components(#[trigger] items[j].path),
                components(items[child].path),
            ),
    ensures
        run_end(items, parent, from) == run_end(items, parent, to),
    decreases to - from,
{
    if from < to {
        if from > child {
            lemma_below_transitive(
                components(items[from].path),
                components(items[child].path),
                components(items[parent].path),
            );
        }
        lemma_run_from_to(items, parent, child, from + 1, to);
    }
}

/// An entry as a listing shows it: its name and its metadata.
pub type Listed = (Seq<u8>, Option<Metadata>);

/// The entries of a tree, each before what is inside it.
pub open spec fn preorder(tree: EntryTree) -> Seq<Listed>
    decreases tree, 0nat,
{
    seq![(tree.name, tree.metadata)] + preorder_all(tree.entries, tree.entries.len())
}

/// The entries of the first `n` trees of a sequence, tree after tree.
pub open spec fn preorder_all(trees: Seq<EntryTree>, n: nat) -> Seq<Listed>
    decreases trees, n,
{
    if n == 0 || n > trees.len() {
        Seq::empty()
    } else {
        preorder_all(trees, (n - 1) as nat) + preorder(trees[n - 1])
    }
}

/// The entries of a listing from `from` up to `to`, each under the last
/// component of its path.
pub open spec fn listed(items: Seq<Walked>, from: int, to: int) -> Seq<Listed> {
    Seq::new(
        (to - from) as nat,
        |k: int| (last_component(components(items[from + k].path)), items[from + k].metadata),
    )
}

proof fn lemma_preorder_all_cons(first: EntryTree, rest: Seq<EntryTree>, n: nat)
    requires
        n <= rest.len(),
    ensures
        preorder_all(seq![first] + rest, n + 1) == preorder(first) + preorder_all(rest, n),
    decreases n,
{
    let all = seq![first] + rest;
    if n == 0 {
        assert(preorder_all(all, 0) =~= Seq::<Listed>::empty());
        assert(all[0] == first);
        assert(preorder_all(all, 1) == preorder_all(all, 0) + preorder(all[0]));
        assert(preorder_all(all, 1) =~= preorder(first) + preorder_all(rest, 0));
    } else {
        lemma_preorder_all_cons(first, rest, (n - 1) as nat);
        assert(all[n as int] == rest[n - 1]);
        assert(preorder_all(all, n + 1) == preorder_all(all, n) + preorder(all[n as int]));
        assert(preorder_all(all, n + 1) =~= preorder(first) + preorder_all(rest, n));
    }
}

/// Nothing is lost and nothing is moved: the entries of the tree of an
/// entry, each before what is inside it, are the entry itself and then the
/// entries of the listing up to the end of what is inside it, in the order
/// of the listing.
pub proof fn lemma_preorder(items: Seq<Walked>, at: int, name: Seq<u8>)
    requires
        0 <= at < items.len(),
    ensures
        preorder(tree_at(items, at, name)) == seq![(name, items[at].metadata)] + listed(
            items,
            at + 1,
            subtree_end(items, at),
        ),
    decreases items.len() - at, 0nat,
{
    lemma_children_preorder(items, at, at + 1);
}

proof fn lemma_children_preorder(items: Seq<Walked>, parent: int, from: int)
    requires
        0 <= parent < from <= items.len(),
    ensures
        preorder_all(
            children_from(items, parent, from),
            children_from(items, parent, from).len(),
        ) == listed(items, from, run_end(items, parent, from)),
    decreases items.len() - from, 1nat,
{
    let kids = children_from(items, parent, from);
    if from < items.len() && is_below(components(items[from].path), components(items[parent].path)) {
        let name = last_component(components(items[from].path));
        let child = tree_at(items, from, name);
        let end = subtree_end(items, from);
        lemma_run_end(items, from, from + 1);
        lemma_run_end(items, parent, end);
        lemma_preorder(items, from, name);
        lemma_run_skips_subtree(items, parent, from);
        lemma_children_preorder(items, parent, end);
        let rest = children_from(items, parent, end);
        assert(kids == seq![child] + rest);
        lemma_preorder_all_cons(child, rest, rest.len());
        assert(seq![(name, items[from].metadata)] + listed(items, from + 1, end) =~= listed(
            items,
            from,
            end,
        ));
        assert(listed(items, from, end) + listed(items, end, run_end(items, parent, end))
            =~= listed(items, from, run_end(items, parent, from)));
    } else {
        assert(kids =~= Seq::<EntryTree>::empty());
        assert(listed(items, from, from) =~= Seq::<Listed>::empty());
    }
}

/// Whether the path `child` lies below the path `parent`.
pub fn lies_below(child: &Vec<Vec<u8>>, parent: &Vec<Vec<u8>>) -> (r: bool)
    ensures
        r == is_below(components(*child), components(*parent)),
{
    if parent.len() >= child.len() {
        return false;
    }
    let mut i: usize = 0;
    while i < parent.len()
        invariant
            i <= parent@.len() < child@.len(),
            forall|j: int| 0 <= j < i ==> child@[j]@ == parent@[j]@,
        decreases parent@.len() - i,
    {
        match compare(child[i].as_slice(), parent[i].as_slice()) {
            Rank::Same => {},
            _ => {
                proof {
                    let c = components(*child);
                    let p = components(*parent);
                    if c.take(p.len() as int) == p {
                        assert(c.take(p.len() as int)[i as int] == c[i as int]);
                    }
                }
                return false;
            },
        }
        i += 1;
    }
    proof {
        let c = components(*child);
        let p = components(*parent);
        assert(c.take(p.len() as int) =~= p);
    }
    true
}

/// The name of an entry: the last component of its path.
pub fn name_of(path: &Vec<Vec<u8>>) -> (r: Vec<u8>)
    ensures
        r@ == last_component(components(*path)),
{
    if path.len() == 0 {
        Vec::new()
    } else {
        path[path.len() - 1].clone()
    }
}

/// The tree of a walk that begins at the entry named `root`. `items` is
/// what the walk handed out, the entry of the root itself first. The
/// entries behind the root that do not lie below it, and all that follow
/// them, are left aside.
pub fn scan(root: Vec<u8>, items: &Vec<Walked>) -> (r: DiskEntry)
    requires
        items@.len() > 0,
    ensures
        tree_of(r) == tree_at(items@, 0, root@),
{
    let (entry, _) = scan_folder(items, 0, root);
    entry
}

/// The tree of entry `at`, and the place behind everything inside it.
pub fn scan_folder(items: &Vec<Walked>, at: usize, name: Vec<u8>) -> (r: (DiskEntry, usize))
    requires
        at < items@.len(),
    ensures
        tree_of(r.0) == tree_at(items@, at as int, name@),
        r.1 == subtree_end(items@, at as int),
        at < r.1 <= items@.len(),
    decreases items@.len() - at,
{
    let mut entries: Vec<DiskEntry> = Vec::new();
    let count = items.len();
    let mut cursor = at + 1;
    proof {
        lemma_run_end(items@, at as int, at + 1);
        assert(trees_of(entries@) =~= Seq::<EntryTree>::empty());
    }
    loop
        invariant
            at < cursor <= items@.len(),
            at < items@.len(),
            run_end(items@, at as int, cursor as int) == subtree_end(items@, at as int),
            children_from(items@, at as int, at + 1) == trees_of(entries@) + children_from(
                items@,
                at as int,
                cursor as int,
            ),
        ensures
            cursor >= items@.len() || !is_below(
                components(items@[cursor as int].path),
                components(items@[at as int].path),
            ),
        decreases items@.len() - cursor,
    {
        // if a node under parent node.
        if cursor >= items.len() || !lies_below(&items[cursor].path, &items[at].path) {
            break ;
        }
        let child_name = name_of(&items[cursor].path);
        let (child, next) = scan_folder(items, cursor, child_name);
        proof {
            lemma_run_skips_subtree(items@, at as int, cursor as int);
            let kids = trees_of(entries@);
            let rest = children_from(items@, at as int, next as int);
            assert(kids + (seq![tree_of(child)] + rest) =~= kids.push(tree_of(child)) + rest);
            assert(trees_of(entries@.push(child)) =~= kids.push(tree_of(child)));
        }
        entries.push(child);
        cursor = next;
    }
    let entry = DiskEntry { name, metadata: items[at].metadata, entries };
    proof {
        assert(children_from(items@, at as int, cursor as int) =~= Seq::<EntryTree>::empty());
        assert(tree_of(entry).entries =~= trees_of(entries@));
    }
    (entry, cursor)
}

} // verus!
