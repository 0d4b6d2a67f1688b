//! The rules of a walk over a directory tree.
//!
//! A walk looks each path up without following symbolic links, lists the
//! directories, and builds a tree of nodes. What the file system answered
//! is handed in as a value, so that the rules stand apart from the input
//! and output: a path that is not found is left out, since its removal will
//! be told as an event of its own; a path that cannot be inspected is kept
//! without metadata, since the index should know that something is there;
//! and an interrupted call is tried again.

use crate::node::NodeMetadata;
use vstd::prelude::*;

verus! {

/// Why the file system did not answer.
#[derive(Clone, Copy, Debug, PartialEq, Eq, Structural)]
pub enum IoFailure {
    NotFound,
    PermissionDenied,
    Interrupted,
    Other,
}

/// What a look at a path showed.
#[derive(Clone, Copy, Debug, PartialEq, Eq)]
pub struct Stat {
    pub is_dir: bool,
    pub metadata: NodeMetadata,
}

/// The outcome of looking a path up.
#[derive(Clone, Copy, Debug, PartialEq, Eq)]
pub enum Lookup {
    Found(Stat),
    Failed(IoFailure),
}

/// What to do with a path after it was looked up.
#[derive(Clone, Copy, Debug, PartialEq, Eq)]
pub enum StatDecision {
    /// Leave the path out of the tree.
    Drop,
    /// Look it up once more, and keep it with whatever that shows.
    Retry,
    /// Keep it, with the metadata if there are any.
    Keep(Option<Stat>),
}

/// What the file system showed of one path: the path and its last
/// component, the outcome of the lookup, the outcome of the second lookup
/// where the first was interrupted, and for a directory what each try to
/// list it gave. A listing that was interrupted is followed by the next
/// try.
#[derive(Debug)]
pub struct Observed {
    pub path: String,
    pub name: String,
    pub lookup: Lookup,
    pub second_lookup: Option<Stat>,
    pub listings: Vec<Listing>,
}

/// What one try to list a directory gave.
#[derive(Debug)]
pub enum Listing {
    Entries(Vec<Entry>),
    Failed(IoFailure),
}

/// What to do with a listing.
#[derive(Clone, Copy, Debug, PartialEq, Eq, Structural)]
pub enum ListingDecision {
    /// List the directory once more, and go by what that gives.
    Retry,
    /// Go by this listing.
    Keep,
}

/// One item of the listing of a directory.
#[derive(Debug)]
pub enum Entry {
    /// A directory, with what the file system showed of it.
    Dir(Observed),
    /// Anything else, with its metadata where they were asked for and
    /// could be read.
    File { name: String, metadata: Option<NodeMetadata> },
    /// An item whose kind could not be read.
    Unknown,
    /// An item that the listing failed on.
    Failed(IoFailure),
}

/// One entry of a walked tree.
#[derive(Debug)]
pub struct Node {
    pub children: Vec<Node>,
    pub name: String,
    pub metadata: Option<NodeMetadata>,
}

/// A walked tree as a value: the name of the entry, its metadata where
/// they were read, and the trees of its children.
pub struct Tree {
    pub name: Seq<char>,
    pub metadata: Option<NodeMetadata>,
    pub children: Seq<Tree>,
}

/// What a walk is asked to do.
pub struct Settings {
    /// The path that the walk keeps out of.
    pub ignore: Option<Seq<char>>,
    /// Whether the metadata of files are wanted.
    pub need_metadata: bool,
}

/// What a walk yields: the tree, and how many files and directories it
/// came by.
pub struct Visit {
    pub tree: Option<Tree>,
    pub files: nat,
    pub dirs: nat,
}

/// What the walk of a listing yields.
pub struct Visits {
    pub trees: Seq<Tree>,
    pub files: nat,
    pub dirs: nat,
}

/// What a walk is asked to do, and the counts that it keeps.
#[derive(Debug)]
pub struct WalkData {
    num_files: usize,
    num_dirs: usize,
    ignore_directory: Option<String>,
    /// If set, metadata will be collected for each file node(folder node will get free metadata).
    need_metadata: bool,
}

/// The tree that a node stands for.
pub open spec fn tree_of(node: Node) -> Tree
    decreases node,
{
    Tree {
        name: node.name@,
        metadata: node.metadata,
        children: Seq::new(
            node.children@.len(),
            |i: int|
                if 0 <= i < node.children@.len() {
                    tree_of(node.children@[i])
                } else {
                    Tree { name: Seq::empty(), metadata: None, children: Seq::empty() }
                },
        ),
    }
}

/// The trees that a sequence of nodes stands for.
pub open spec fn trees_of(nodes: Seq<Node>) -> Seq<Tree> {
    Seq::new(nodes.len(), |i: int| tree_of(nodes[i]))
}

/// What is kept of a path after its lookup: nothing where it was not
/// found, what the second lookup showed where the first was interrupted,
/// and otherwise what the first showed, if anything.
pub open spec fn kept_stat(o: Observed) -> StatDecision {
    match o.lookup {
        Lookup::Found(stat) => StatDecision::Keep(Some(stat)),
        Lookup::Failed(IoFailure::NotFound) => StatDecision::Drop,
        Lookup::Failed(IoFailure::Interrupted) => StatDecision::Keep(o.second_lookup),
        Lookup::Failed(_) => StatDecision::Keep(None),
    }
}

/// The node of a file in a listing.
pub open spec fn file_tree(name: Seq<char>, metadata: Option<NodeMetadata>, s: Settings) -> Tree {
    Tree {
        name,
        metadata: if s.need_metadata {
            metadata
        } else {
            None
        },
        children: Seq::empty(),
    }
}

/// Whether a listing was cut short by an interrupt: the call that opened
/// the directory was interrupted, or a call that read an item of it was.
pub open spec fn was_interrupted(listing: Listing) -> bool {
    match listing {
        Listing::Failed(failed) => failed == IoFailure::Interrupted,
        Listing::Entries(entries) => exists|i: int|
            0 <= i < entries@.len() && is_interrupted_item(#[trigger] entries@[i]),
    }
}

/// Whether an item of a listing is a call that was interrupted.
pub open spec fn is_interrupted_item(entry: Entry) -> bool {
    entry is Failed && entry->Failed_0 == IoFailure::Interrupted
}

/// The walk of what the tries to list a directory gave, from try `from`
/// on: the walk of the first listing that was not interrupted, and nothing
/// where every try was interrupted or none was made.
pub open spec fn visit_listings(listings: Seq<Listing>, from: nat, s: Settings) -> Visits
    decreases listings, listings.len() - from,
{
    if from >= listings.len() {
        Visits { trees: Seq::empty(), files: 0, dirs: 0 }
    } else if was_interrupted(listings[from as int]) {
        visit_listings(listings, from + 1, s)
    } else {
        match listings[from as int] {
            Listing::Entries(entries) => visit_entries(entries@, entries@.len(), s),
            Listing::Failed(_) => Visits { trees: Seq::empty(), files: 0, dirs: 0 },
        }
    }
}

/// The walk of one path.
pub open spec fn visit(o: Observed, s: Settings) -> Visit
    decreases o, 0nat,
{
    if s.ignore == Some(o.path@) {
        Visit { tree: None, files: 0, dirs: 0 }
    } else {
        match kept_stat(o) {
            StatDecision::Keep(Some(stat)) => if stat.is_dir {
                let inner = visit_listings(o.listings@, 0, s);
                Visit {
                    tree: Some(
                        Tree {
                            name: o.name@,
                            metadata: Some(stat.metadata),
                            children: inner.trees,
                        },
                    ),
                    files: inner.files,
                    dirs: inner.dirs + 1,
                }
            } else {
                Visit {
                    tree: Some(
                        Tree {
                            name: o.name@,
                            metadata: Some(stat.metadata),
                            children: Seq::empty(),
                        },
                    ),
                    files: 1,
                    dirs: 0,
                }
            },
            StatDecision::Keep(None) => Visit {
                tree: Some(Tree { name: o.name@, metadata: None, children: Seq::empty() }),
                files: 1,
                dirs: 0,
            },
            _ => Visit { tree: None, files: 0, dirs: 0 },
        }
    }
}

/// The walk of the first `n` items of a listing.
pub open spec fn visit_entries(entries: Seq<Entry>, n: nat, s: Settings) -> Visits
    decreases entries, n,
{
    if n == 0 || n > entries.len() {
        Visits { trees: Seq::empty(), files: 0, dirs: 0 }
    } else {
        let before = visit_entries(entries, (n - 1) as nat, s);
        match entries[n - 1] {
            Entry::Dir(o) => {
                let v = visit(o, s);
                Visits {
                    trees: match v.tree {
                        Some(tree) => before.trees.push(tree),
                        None => before.trees,
                    },
                    files: before.files + v.files,
                    dirs: before.dirs + v.dirs,
                }
            },
            Entry::File { name, metadata } => Visits {
                trees: before.trees.push(file_tree(name@, metadata, s)),
                files: before.files + 1,
                dirs: before.dirs,
            },
            _ => before,
        }
    }
}

/// The number of entries in a tree.
pub open spec fn tree_size(tree: Tree) -> nat
    decreases tree, 0nat,
{
    1 + trees_size(tree.children, tree.children.len())
}

/// The number of entries in the first `n` trees of a sequence.
pub open spec fn trees_size(trees: Seq<Tree>, n: nat) -> nat
    decreases trees, n,
{
    if n == 0 || n > trees.len() {
        0
    } else {
        trees_size(trees, (n - 1) as nat) + tree_size(trees[n - 1])
    }
}

proof fn lemma_trees_size_prefix(trees: Seq<Tree>, last: Tree, n: nat)
    requires
        n <= trees.len(),
    ensures
        trees_size(trees.push(last), n) == trees_size(trees, n),
    decreases n,
{
    if n > 0 {
        lemma_trees_size_prefix(trees, last, (n - 1) as nat);
        assert(trees.push(last)[n - 1] == trees[n - 1]);
    }
}

proof fn lemma_trees_size_push(trees: Seq<Tree>, last: Tree)
    ensures
        trees_size(trees.push(last), trees.len() + 1) == trees_size(trees, trees.len())
            + tree_size(last),
{
    lemma_trees_size_prefix(trees, last, trees.len());
    assert(trees.push(last)[trees.len() as int] == last);
}

/// Every entry of the tree is counted once: the files and the directories
/// that a walk comes by are as many as the entries of the tree it yields.
pub proof fn lemma_counts_match_tree(o: Observed, s: Settings)
    ensures
        match visit(o, s).tree {
            Some(tree) => visit(o, s).files + visit(o, s).dirs == tree_size(tree),
            None => visit(o, s).files + visit(o, s).dirs == 0,
        },
    decreases o, 0nat,
{
    if s.ignore != Some(o.path@) {
        match kept_stat(o) {
            StatDecision::Keep(Some(stat)) => {
                if stat.is_dir {
                    lemma_counts_match_listings(o.listings@, 0, s);
                } else {
                    assert(trees_size(Seq::<Tree>::empty(), 0) == 0);
                }
            },
            StatDecision::Keep(None) => {
                assert(trees_size(Seq::<Tree>::empty(), 0) == 0);
            },
            _ => {},
        }
    }
}

proof fn lemma_counts_match_listings(listings: Seq<Listing>, from: nat, s: Settings)
    ensures
        visit_listings(listings, from, s).files + visit_listings(listings, from, s).dirs
            == trees_size(
            visit_listings(listings, from, s).trees,
            visit_listings(listings, from, s).trees.len(),
        ),
    decreases listings, listings.len() - from,
{
    if from >= listings.len() {
        assert(trees_size(Seq::<Tree>::empty(), 0) == 0);
    } else if was_interrupted(listings[from as int]) {
        lemma_counts_match_listings(listings, from + 1, s);
    } else {
        match listings[from as int] {
            Listing::Entries(entries) => {
                lemma_counts_match_trees(entries@, entries@.len(), s);
            },
            Listing::Failed(_) => {
                assert(trees_size(Seq::<Tree>::empty(), 0) == 0);
            },
        }
    }
}

/// The tries that were interrupted are passed over.
proof fn lemma_visit_listings_skip(listings: Seq<Listing>, from: nat, to: nat, s: Settings)
    requires
        from <= to <= listings.len(),
        forall|i: int| from <= i < to ==> was_interrupted(#[trigger] listings[i]),
    ensures
        visit_listings(listings, from, s) == visit_listings(listings, to, s),
    decreases to - from,
{
    if from < to {
        lemma_visit_listings_skip(listings, from + 1, to, s);
    }
}

proof fn lemma_counts_match_trees(entries: Seq<Entry>, n: nat, s: Settings)
    ensures
        visit_entries(entries, n, s).files + visit_entries(entries, n, s).dirs == trees_size(
            visit_entries(entries, n, s).trees,
            visit_entries(entries, n, s).trees.len(),
        ),
    decreases entries, n,
{
    if n == 0 || n > entries.len() {
        assert(trees_size(Seq::<Tree>::empty(), 0) == 0);
    } else {
        let before = visit_entries(entries, (n - 1) as nat, s);
        lemma_counts_match_trees(entries, (n - 1) as nat, s);
        match entries[n - 1] {
            Entry::Dir(o) => {
                lemma_counts_match_tree(o, s);
                match visit(o, s).tree {
                    Some(tree) => {
                        lemma_trees_size_push(before.trees, tree);
                    },
                    None => {},
                }
            },
            Entry::File { name, metadata } => {
                let leaf = file_tree(name@, metadata, s);
                assert(trees_size(leaf.children, 0) == 0);
                lemma_trees_size_push(before.trees, leaf);
            },
            _ => {},
        }
    }
}

/// A count that has gone round where it passed the largest number.
pub open spec fn wrapped(n: int) -> usize {
    (n % (usize::MAX + 1)) as usize
}

proof fn lemma_wrapped_bump(n: int, x: usize)
    requires
        0 <= n,
        x == wrapped(n),
    ensures
        (if x == usize::MAX {
            0usize
        } else {
            (x + 1) as usize
        }) == wrapped(n + 1),
{
    let m = usize::MAX + 1;
    vstd::arithmetic::div_mod::lemma_fundamental_div_mod(n, m);
    vstd::arithmetic::div_mod::lemma_fundamental_div_mod(n + 1, m);
    vstd::arithmetic::div_mod::lemma_mod_bound(n, m);
    vstd::arithmetic::div_mod::lemma_mod_bound(n + 1, m);
    let q = n / m;
    let q1 = (n + 1) / m;
    assert(m * q1 - m * q == m * (q1 - q)) by (nonlinear_arith);
    if q1 - q >= 2 {
        assert(m * (q1 - q) >= 2 * m) by (nonlinear_arith)
            requires
                q1 - q >= 2,
                m > 0,
        ;
    }
    if q1 - q <= -1 {
        assert(m * (q1 - q) <= -m) by (nonlinear_arith)
            requires
                q1 - q <= -1,
                m > 0,
        ;
    }
    if q1 == q {
        assert(m * (q1 - q) == 0) by (nonlinear_arith)
            requires
                q1 == q,
        ;
    } else {
        assert(m * (q1 - q) == m) by (nonlinear_arith)
            requires
                q1 - q == 1,
        ;
    }
}

/// A count that fits has not gone round.
pub proof fn lemma_wrapped_small(n: int)
    requires
        0 <= n <= usize::MAX,
    ensures
        wrapped(n) == n,
{
    vstd::arithmetic::div_mod::lemma_small_mod(n as nat, (usize::MAX + 1) as nat);
}

/// Whether a failed call is to be tried again: an interrupted one is.
pub fn handle_error_and_retry(failed: IoFailure) -> (r: bool)
    ensures
        r == (failed == IoFailure::Interrupted),
{
    match failed {
        IoFailure::Interrupted => true,
        _ => false,
    }
}

/// What to do with a listing: one that an interrupt cut short is made
/// again, and any other is gone by, a failed one too.
pub fn after_listing(listing: &Listing) -> (r: ListingDecision)
    ensures
        r == if was_interrupted(*listing) {
            ListingDecision::Retry
        } else {
            ListingDecision::Keep
        },
{
    match listing {
        Listing::Failed(failed) => if handle_error_and_retry(*failed) {
            ListingDecision::Retry
        } else {
            ListingDecision::Keep
        },
        Listing::Entries(entries) => {
            let mut i: usize = 0;
            while i < entries.len()
                invariant
                    i <= entries@.len(),
                    *listing == Listing::Entries(*entries),
                    forall|k: int| 0 <= k < i ==> !is_interrupted_item(#[trigger] entries@[k]),
                decreases entries@.len() - i,
            {
                match &entries[i] {
                    Entry::Failed(failed) => {
                        if handle_error_and_retry(*failed) {
                            proof {
                                let seen = listing->Entries_0;
                                assert(seen == *entries);
                                assert(is_interrupted_item(seen@[i as int]));
                                assert(was_interrupted(*listing));
                            }
                            return ListingDecision::Retry;
                        }
                    },
                    _ => {},
                }
                i += 1;
            }
            ListingDecision::Keep
        },
    }
}

/// What to do with a path after its first lookup.
pub fn after_stat(lookup: Lookup) -> (r: StatDecision)
    ensures
        r == match lookup {
            Lookup::Found(stat) => StatDecision::Keep(Some(stat)),
            Lookup::Failed(IoFailure::NotFound) => StatDecision::Drop,
            Lookup::Failed(IoFailure::Interrupted) => StatDecision::Retry,
            Lookup::Failed(_) => StatDecision::Keep(None),
        },
{
    match lookup {
        Lookup::Found(stat) => StatDecision::Keep(Some(stat)),
        // If it's not found, we definitely don't want it.
        Lookup::Failed(IoFailure::NotFound) => StatDecision::Drop,
        // If it's permission denied or something, we still want to insert it into the tree.
        Lookup::Failed(failed) => if handle_error_and_retry(failed) {
            StatDecision::Retry
        } else {
            StatDecision::Keep(None)
        },
    }
}

/// Whether two strings hold the same text.
fn same_text(a: &String, b: &String) -> (r: bool)
    ensures
        r == (a@ == b@),
{
    *a == *b
}

impl WalkData {
    /// What the walk is asked to do.
    pub closed spec fn settings(&self) -> Settings {
        Settings {
            ignore: match self.ignore_directory {
                Some(path) => Some(path@),
                None => None,
            },
            need_metadata: self.need_metadata,
        }
    }

    /// The number of files that the walk has come by.
    pub closed spec fn files(&self) -> usize {
        self.num_files
    }

    /// The number of directories that the walk has come by.
    pub closed spec fn dirs(&self) -> usize {
        self.num_dirs
    }

    /// The number of files that the walk has come by.
    pub fn num_files(&self) -> (r: usize)
        ensures
            r == self.files(),
    {
        self.num_files
    }

    /// The number of directories that the walk has come by.
    pub fn num_dirs(&self) -> (r: usize)
        ensures
            r == self.dirs(),
    {
        self.num_dirs
    }

    /// A walk that keeps out of `path`, with its counts at zero.
    pub fn new(path: String, need_metadata: bool) -> (r: Self)
        ensures
            r.settings() == (Settings { ignore: Some(path@), need_metadata }),
            r.files() == 0,
            r.dirs() == 0,
    {
        Self { num_files: 0, num_dirs: 0, ignore_directory: Some(path), need_metadata }
    }

    /// A walk that keeps out of nothing and asks for no metadata of files.
    pub fn unrestricted() -> (r: Self)
        ensures
            r.settings() == (Settings { ignore: None, need_metadata: false }),
            r.files() == 0,
            r.dirs() == 0,
    {
        Self { num_files: 0, num_dirs: 0, ignore_directory: None, need_metadata: false }
    }

    /// Whether the walk keeps out of `path`.
    pub fn is_ignored(&self, path: &String) -> (r: bool)
        ensures
            r == (self.settings().ignore == Some(path@)),
    {
        match &self.ignore_directory {
            Some(ignored) => same_text(ignored, path),
            None => false,
        }
    }

    /// Whether the metadata of files are wanted.
    pub fn needs_metadata(&self) -> (r: bool)
        ensures
            r == self.settings().need_metadata,
    {
        self.need_metadata
    }

    fn count_file(&mut self)
        ensures
            final(self).settings() == old(self).settings(),
            final(self).dirs() == old(self).dirs(),
            final(self).files() == if old(self).files() == usize::MAX {
                0usize
            } else {
                (old(self).files() + 1) as usize
            },
    {
        self.num_files = self.num_files.wrapping_add(1);
    }

    fn count_dir(&mut self)
        ensures
            final(self).settings() == old(self).settings(),
            final(self).files() == old(self).files(),
            final(self).dirs() == if old(self).dirs() == usize::MAX {
                0usize
            } else {
                (old(self).dirs() + 1) as usize
            },
    {
        self.num_dirs = self.num_dirs.wrapping_add(1);
    }
}

/// The kind of a walked node as far as the tree tells it: a node with
/// children is a directory, and any other counts as a file.
pub fn node_kind(node: &Node) -> (r: crate::node::FileType)
    ensures
        r == if node.children@.len() > 0 {
            crate::node::FileType::Dir
        } else {
            crate::node::FileType::File
        },
{
    if node.children.len() > 0 {
        crate::node::FileType::Dir
    } else {
        crate::node::FileType::File
    }
}

/// Whether a node is what the walk of a path yields.
pub open spec fn is_walk_of(r: Option<Node>, v: Visit) -> bool {
    match (r, v.tree) {
        (Some(node), Some(tree)) => tree_of(node) == tree,
        (None, None) => true,
        _ => false,
    }
}

/// Builds the tree of what was seen below `dir`, and counts the files and
/// directories in it. The counts go round at the largest number.
pub fn walk_it(dir: &Observed, walk_data: &mut WalkData) -> (r: Option<Node>)
    ensures
        final(walk_data).settings() == old(walk_data).settings(),
        is_walk_of(r, visit(*dir, old(walk_data).settings())),
        final(walk_data).files() == wrapped(
            old(walk_data).files() + visit(*dir, old(walk_data).settings()).files,
        ),
        final(walk_data).dirs() == wrapped(
            old(walk_data).dirs() + visit(*dir, old(walk_data).settings()).dirs,
        ),
{
    proof {
        vstd::arithmetic::div_mod::lemma_small_mod(
            walk_data.files() as nat,
            (usize::MAX + 1) as nat,
        );
        vstd::arithmetic::div_mod::lemma_small_mod(
            walk_data.dirs() as nat,
            (usize::MAX + 1) as nat,
        );
    }
    walk(dir, walk_data, Ghost(walk_data.files() as int), Ghost(walk_data.dirs() as int))
}

/// The walk of one path. The two ghost numbers are the counts that the
/// counters of `walk_data` stand for, before they went round.
fn walk(path: &Observed, walk_data: &mut WalkData, Ghost(files): Ghost<int>, Ghost(dirs): Ghost<int>) -> (r:
    Option<Node>)
    requires
        0 <= files,
        0 <= dirs,
        old(walk_data).files() == wrapped(files),
        old(walk_data).dirs() == wrapped(dirs),
    ensures
        final(walk_data).settings() == old(walk_data).settings(),
        is_walk_of(r, visit(*path, old(walk_data).settings())),
        final(walk_data).files() == wrapped(
            files + visit(*path, old(walk_data).settings()).files,
        ),
        final(walk_data).dirs() == wrapped(dirs + visit(*path, old(walk_data).settings()).dirs),
    decreases path, 0nat,
{
    let ghost s = walk_data.settings();
    if walk_data.is_ignored(&path.path) {
        return None;
    }
    let stat = match after_stat(path.lookup) {
        StatDecision::Drop => {
            return None;
        },
        StatDecision::Retry => path.second_lookup,
        StatDecision::Keep(stat) => stat,
    };
    let is_dir = match stat {
        Some(stat) => stat.is_dir,
        None => false,
    };
    let mut children: Vec<Node> = Vec::new();
    if is_dir {
        proof {
            lemma_wrapped_bump(dirs, walk_data.dirs());
        }
        walk_data.count_dir();
        let mut at: usize = 0;
        while at < path.listings.len()
            invariant
                at <= path.listings@.len(),
                forall|i: int| 0 <= i < at ==> was_interrupted(#[trigger] path.listings@[i]),
            ensures
                at <= path.listings@.len(),
                forall|i: int| 0 <= i < at ==> was_interrupted(#[trigger] path.listings@[i]),
                at < path.listings@.len() ==> !was_interrupted(path.listings@[at as int]),
            decreases path.listings@.len() - at,
        {
            match after_listing(&path.listings[at]) {
                ListingDecision::Keep => {
                    break ;
                },
                ListingDecision::Retry => {},
            }
            at += 1;
        }
        proof {
            lemma_visit_listings_skip(path.listings@, 0, at as nat, s);
            assert(trees_of(children@) =~= Seq::<Tree>::empty());
        }
        if at < path.listings.len() {
            match &path.listings[at] {
                Listing::Entries(entries) => {
                    let mut i: usize = 0;
                    while i < entries.len()
                        invariant
                            i <= entries@.len(),
                            at < path.listings@.len(),
                            path.listings@[at as int] == Listing::Entries(*entries),
                            walk_data.settings() == s,
                            0 <= files,
                            0 <= dirs,
                            trees_of(children@) == visit_entries(entries@, i as nat, s).trees,
                            walk_data.files() == wrapped(
                                files + visit_entries(entries@, i as nat, s).files,
                            ),
                            walk_data.dirs() == wrapped(
                                dirs + 1 + visit_entries(entries@, i as nat, s).dirs,
                            ),
                        decreases entries@.len() - i,
                    {
                        let ghost before = visit_entries(entries@, i as nat, s);
                        let ghost kids = children@;
                        match &entries[i] {
                            Entry::Dir(below) => {
                                proof {
                                    let listing = path.listings@[at as int];
                                    assert(decreases_to!(*path => path.listings));
                                    assert(decreases_to!(path.listings => path.listings@));
                                    assert(decreases_to!(path.listings@ => listing));
                                    assert(listing->Entries_0 == *entries);
                                    assert(decreases_to!(listing => listing->Entries_0));
                                    assert(decreases_to!(*entries => entries@));
                                    assert(decreases_to!(entries@ => entries@[i as int]));
                                    assert(entries@[i as int]->Dir_0 == *below);
                                    assert(decreases_to!(entries@[i as int] => entries@[i as int]->Dir_0));
                                }
                                let child = walk(
                                    below,
                                    walk_data,
                                    Ghost(files + before.files),
                                    Ghost(dirs + 1 + before.dirs),
                                );
                                match child {
                                    Some(node) => {
                                        children.push(node);
                                        proof {
                                            assert(trees_of(children@) =~= trees_of(kids).push(
                                                tree_of(node),
                                            ));
                                        }
                                    },
                                    None => {},
                                }
                            },
                            Entry::File { name, metadata } => {
                                proof {
                                    lemma_wrapped_bump(files + before.files, walk_data.files());
                                }
                                walk_data.count_file();
                                let node = Node {
                                    children: Vec::new(),
                                    name: name.clone(),
                                    metadata: if walk_data.needs_metadata() {
                                        *metadata
                                    } else {
                                        None
                                    },
                                };
                                proof {
                                    assert(tree_of(node).children =~= Seq::<Tree>::empty());
                                    assert(tree_of(node) == file_tree(name@, *metadata, s));
                                }
                                children.push(node);
                                proof {
                                    assert(trees_of(children@) =~= trees_of(kids).push(tree_of(node)));
                                }
                            },
                            _ => {},
                        }
                        i += 1;
                    }
                },
                Listing::Failed(_) => {
                    proof {
                        assert(trees_of(children@) =~= Seq::<Tree>::empty());
                    }
                },
            }
        }
    } else {
        proof {
            lemma_wrapped_bump(files, walk_data.files());
            assert(trees_of(children@) =~= Seq::<Tree>::empty());
        }
        walk_data.count_file();
    }
    let node = Node {
        children,
        name: path.name.clone(),
        metadata: match stat {
            Some(stat) => Some(stat.metadata),
            None => None,
        },
    };
    proof {
        assert(tree_of(node).children =~= trees_of(children@));
    }
    Some(node)
}

} // verus!
