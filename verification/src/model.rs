//! The traversal as a recursive function of a file system, and the proof
//! that the steps of a [`crate::walk::Walk`] compute it: a traversal that is
//! handed, at each step, what the file system holds ends with the tree that
//! this function gives. That tree holds nothing but what the file system
//! lists.

use crate::entry::nodes_of;
use crate::entry::DirEntryView;
use crate::entry::EntryKind;
use crate::entry::EntryView;
use crate::laws::first_ending_in;
use crate::laws::law_find_by_last_component;
use crate::laws::named_by_path;
use crate::shape::lemma_begin_ok;
use crate::shape::lemma_listed_ok;
use crate::shape::lemma_read;
use crate::shape::lemma_settle_advances;
use crate::shape::tree_ok;
use crate::shape::walk_ok;
use crate::walk::first_with_path;
use crate::walk::leaf;
use crate::walk::settle;
use crate::walk::FrameView;
use crate::walk::TraversalView;
use crate::walk::WalkError;
use crate::walk::WalkView;
use crate::walker::Config;
use vstd::prelude::*;

verus! {

/// A file system, as far as a traversal reads it: what each directory lists,
/// `None` for a path that cannot be read as a directory.
pub struct FileSystem {
    /// The listing of the directory at a path.
    pub read_dir: spec_fn(Seq<u8>) -> Option<Seq<DirEntryView>>,
}

/// How the visit of the entries of one directory ends.
pub struct Visit {
    /// The subtrees of the entries that were kept.
    pub children: Seq<EntryView>,
    /// How many entries have been visited by then, in all directories.
    pub visited: nat,
    /// A directory could not be read.
    pub failed: bool,
}

/// Visits `entries`, the ordered entries of one directory whose children lie
/// at `depth`, after `visited` entries have been visited and the subtrees
/// `done` are complete.
///
/// The visit stops when no entry is left or when as many entries have been
/// visited as the tree may hold records. An entry whose visit reaches that
/// cap, or that lies deeper than the greatest depth, is dropped. Any other
/// entry becomes a node; where it is a directory, its own entries are visited
/// first.
pub open spec fn walk_entries(
    fs: FileSystem,
    config: Config,
    entries: Seq<DirEntryView>,
    depth: nat,
    visited: nat,
    done: Seq<EntryView>,
) -> Visit
    decreases (config.max_depth + 2 - depth) as nat, 0nat, entries.len(),
{
    if entries.len() == 0 || visited >= config.max_entries {
        Visit { children: done, visited, failed: false }
    } else {
        let entry = entries[0];
        let rest = entries.skip(1);
        if visited + 1 < config.max_entries && depth <= config.max_depth {
            if entry.kind == EntryKind::Directory {
                let inner = walk_directory(fs, config, entry, depth + 1, visited + 1);
                if inner.failed {
                    inner
                } else {
                    let node = EntryView { dirent: Some(entry), children: inner.children, depth };
                    walk_entries(fs, config, rest, depth, inner.visited, done.push(node))
                }
            } else {
                walk_entries(fs, config, rest, depth, visited + 1, done.push(leaf(entry, depth)))
            }
        } else {
            walk_entries(fs, config, rest, depth, visited + 1, done)
        }
    }
}

/// Reads the directory `dirent`, whose children lie at `depth`, and visits
/// what the filter and the ordering take from its listing.
pub open spec fn walk_directory(
    fs: FileSystem,
    config: Config,
    dirent: DirEntryView,
    depth: nat,
    visited: nat,
) -> Visit
    decreases (config.max_depth + 2 - depth) as nat, 1nat, 0nat,
{
    match (fs.read_dir)(dirent.path) {
        None => Visit { children: Seq::empty(), visited, failed: true },
        Some(listing) => walk_entries(
            fs,
            config,
            config.read(listing),
            depth,
            visited,
            Seq::empty(),
        ),
    }
}

/// The tree of the root `dirent`: a directory with what the traversal takes
/// from it, any other root alone.
pub open spec fn walk_tree(fs: FileSystem, config: Config, dirent: DirEntryView) -> Result<
    EntryView,
    WalkError,
> {
    if dirent.kind == EntryKind::Directory {
        let visit = walk_directory(fs, config, dirent, 0, 0);
        if visit.failed {
            Err(WalkError::Io)
        } else {
            Ok(EntryView { dirent: Some(dirent), children: visit.children, depth: 0 })
        }
    } else {
        Ok(leaf(dirent, 0))
    }
}

/// The whole traversal of a file system: `root` is the canonical path of the
/// root, `siblings` the listing of the directory that holds it, `None` for a
/// failure to get the one or the other.
pub open spec fn walk_root(
    fs: FileSystem,
    config: Config,
    root: Option<Seq<u8>>,
    siblings: Option<Seq<DirEntryView>>,
) -> Result<EntryView, WalkError> {
    if root is None || siblings is None {
        Err(WalkError::Io)
    } else {
        match first_with_path(siblings.unwrap(), root.unwrap()) {
            None => Err(WalkError::InvalidInput),
            Some(dirent) => walk_tree(fs, config, dirent),
        }
    }
}

/// How the traversal ends once the visit of the innermost directory of
/// `frames` has ended with `visit`: that directory becomes a node of the one
/// above it, whose visit goes on, up to the root.
pub open spec fn unwind(
    fs: FileSystem,
    config: Config,
    frames: Seq<FrameView>,
    visit: Visit,
) -> Result<EntryView, WalkError>
    decreases frames.len(),
{
    if visit.failed || frames.len() == 0 {
        Err(WalkError::Io)
    } else if frames.len() == 1 {
        Ok(EntryView { dirent: Some(frames[0].dirent), children: visit.children, depth: 0 })
    } else {
        let above = frames.drop_last();
        let parent = above.last();
        let depth = (above.len() - 1) as nat;
        let node = EntryView {
            dirent: Some(frames.last().dirent),
            children: visit.children,
            depth,
        };
        unwind(
            fs,
            config,
            above,
            walk_entries(
                fs,
                config,
                parent.pending,
                depth,
                visit.visited,
                parent.children.push(node),
            ),
        )
    }
}

/// How a traversal that works through `frames` ends on the file system `fs`.
pub open spec fn outcome_of_frames(
    fs: FileSystem,
    config: Config,
    frames: Seq<FrameView>,
    visited: nat,
) -> Result<EntryView, WalkError> {
    let top = frames.last();
    unwind(
        fs,
        config,
        frames,
        walk_entries(fs, config, top.pending, (frames.len() - 1) as nat, visited, top.children),
    )
}

impl TraversalView {
    /// How the traversal ends on the file system `fs`.
    pub open spec fn outcome(self, fs: FileSystem) -> Result<EntryView, WalkError> {
        unwind(
            fs,
            self.config,
            self.frames(),
            walk_directory(fs, self.config, self.awaited, self.ancestors.len(), self.visited),
        )
    }
}

impl WalkView {
    /// How the walk ends on the file system `fs`: as it has ended, or as the
    /// traversal that it waits with ends.
    pub open spec fn outcome(self, fs: FileSystem) -> Result<EntryView, WalkError> {
        match self {
            WalkView::Reading(traversal) => traversal.outcome(fs),
            WalkView::Finished(tree) => Ok(tree),
            WalkView::Failed(error) => Err(error),
        }
    }
}

/// Of the innermost directory only the record matters to how the traversal
/// ends once its visit has ended.
proof fn lemma_unwind_top(
    fs: FileSystem,
    config: Config,
    frames: Seq<FrameView>,
    other: Seq<FrameView>,
    visit: Visit,
)
    requires
        frames.len() == other.len(),
        frames.len() > 0,
        frames.drop_last() == other.drop_last(),
        frames.last().dirent == other.last().dirent,
    ensures
        unwind(fs, config, frames, visit) == unwind(fs, config, other, visit),
{
}

/// Working through what has been read ends as the recursive visit does.
pub proof fn lemma_settle_follows(
    fs: FileSystem,
    config: Config,
    frames: Seq<FrameView>,
    visited: nat,
)
    requires
        frames.len() > 0,
    ensures
        settle(config, frames, visited).outcome(fs) == outcome_of_frames(
            fs,
            config,
            frames,
            visited,
        ),
    decreases frames.len(), frames.last().pending.len(),
{
    let top = frames.last();
    let above = frames.drop_last();
    let depth = above.len();
    if top.pending.len() == 0 || visited >= config.max_entries {
        if above.len() > 0 {
            let parent = above.last();
            let node = EntryView {
                dirent: Some(top.dirent),
                children: top.children,
                depth: (depth - 1) as nat,
            };
            let grown = FrameView { children: parent.children.push(node), ..parent };
            let after = above.drop_last().push(grown);
            lemma_settle_follows(fs, config, after, visited);
            assert(after.drop_last() =~= above.drop_last());
            let level = (depth - 1) as nat;
            lemma_unwind_top(
                fs,
                config,
                after,
                above,
                walk_entries(fs, config, grown.pending, level, visited, grown.children),
            );
        }
    } else {
        let entry = top.pending[0];
        let rest = FrameView { pending: top.pending.skip(1), ..top };
        if visited + 1 < config.max_entries && depth <= config.max_depth {
            if entry.kind == EntryKind::Directory {
                let traversal = TraversalView {
                    config,
                    visited: visited + 1,
                    ancestors: above.push(rest),
                    awaited: entry,
                };
                let inner = walk_directory(fs, config, entry, depth + 1, visited + 1);
                assert(traversal.frames().drop_last() =~= above.push(rest));
                if !inner.failed {
                    let node = EntryView { dirent: Some(entry), children: inner.children, depth };
                    let next = walk_entries(
                        fs,
                        config,
                        rest.pending,
                        depth,
                        inner.visited,
                        rest.children.push(node),
                    );
                    assert(above.push(rest).drop_last() =~= above);
                    lemma_unwind_top(fs, config, above.push(rest), frames, next);
                }
            } else {
                let grown = FrameView { children: top.children.push(leaf(entry, depth)), ..rest };
                let after = above.push(grown);
                lemma_settle_follows(fs, config, after, visited + 1);
                assert(after.drop_last() =~= above);
                lemma_unwind_top(
                    fs,
                    config,
                    after,
                    frames,
                    walk_entries(fs, config, grown.pending, depth, visited + 1, grown.children),
                );
            }
        } else {
            let after = above.push(rest);
            lemma_settle_follows(fs, config, after, visited + 1);
            assert(after.drop_last() =~= above);
            lemma_unwind_top(
                fs,
                config,
                after,
                frames,
                walk_entries(fs, config, rest.pending, depth, visited + 1, rest.children),
            );
        }
    }
}

/// A step that is handed what the file system holds does not change how the
/// traversal ends.
pub proof fn lemma_listed_follows(fs: FileSystem, traversal: TraversalView)
    ensures
        traversal.listed((fs.read_dir)(traversal.awaited.path)).outcome(fs) == traversal.outcome(
            fs,
        ),
{
    let config = traversal.config;
    match (fs.read_dir)(traversal.awaited.path) {
        None => {},
        Some(found) => {
            let top = FrameView {
                dirent: traversal.awaited,
                pending: config.read(found),
                children: Seq::empty(),
            };
            let frames = traversal.ancestors.push(top);
            lemma_settle_follows(fs, config, frames, traversal.visited);
            assert(frames.drop_last() =~= traversal.ancestors);
            assert(traversal.frames().drop_last() =~= traversal.ancestors);
            lemma_unwind_top(
                fs,
                config,
                frames,
                traversal.frames(),
                walk_directory(
                    fs,
                    config,
                    traversal.awaited,
                    traversal.ancestors.len(),
                    traversal.visited,
                ),
            );
        },
    }
}

/// The first step begins the traversal that the recursive function
/// describes.
pub proof fn lemma_begin_follows(
    fs: FileSystem,
    config: Config,
    root: Option<Seq<u8>>,
    siblings: Option<Seq<DirEntryView>>,
)
    ensures
        config.begin(root, siblings).outcome(fs) == walk_root(fs, config, root, siblings),
{
}

/// The walk after up to `steps` further steps on the file system `fs`: each
/// request for a listing is answered with what `fs` holds. A walk that has
/// ended stays as it is.
pub open spec fn run(fs: FileSystem, walk: WalkView, steps: nat) -> WalkView
    decreases steps,
{
    match walk {
        WalkView::Reading(traversal) => if steps == 0 {
            walk
        } else {
            run(fs, traversal.listed((fs.read_dir)(traversal.awaited.path)), (steps - 1) as nat)
        },
        _ => walk,
    }
}

/// Steps on a file system do not change how the walk ends on it.
pub proof fn lemma_run_follows(fs: FileSystem, walk: WalkView, steps: nat)
    ensures
        run(fs, walk, steps).outcome(fs) == walk.outcome(fs),
    decreases steps,
{
    if let WalkView::Reading(traversal) = walk {
        if steps > 0 {
            lemma_listed_follows(fs, traversal);
            lemma_run_follows(
                fs,
                traversal.listed((fs.read_dir)(traversal.awaited.path)),
                (steps - 1) as nat,
            );
        }
    }
}

/// Steps keep a walk sound, and a sound walk has ended once it has taken as
/// many steps as it may still visit entries.
pub proof fn lemma_run_ends(fs: FileSystem, config: Config, walk: WalkView, steps: nat)
    requires
        walk_ok(config, walk),
    ensures
        walk_ok(config, run(fs, walk, steps)),
        walk matches WalkView::Reading(traversal) && traversal.visited + steps
            >= config.max_entries ==> !(run(fs, walk, steps) is Reading),
    decreases steps,
{
    if let WalkView::Reading(traversal) = walk {
        if steps > 0 {
            let answer = (fs.read_dir)(traversal.awaited.path);
            lemma_listed_ok(traversal, answer);
            if let Some(found) = answer {
                lemma_settle_advances(
                    config,
                    traversal.ancestors.push(
                        FrameView {
                            dirent: traversal.awaited,
                            pending: config.read(found),
                            children: Seq::empty(),
                        },
                    ),
                    traversal.visited,
                );
            }
            lemma_run_ends(fs, config, traversal.listed(answer), (steps - 1) as nat);
        }
    }
}

/// Determinism. A traversal of a file system that does not change, with each
/// request answered by what the file system holds, has ended after at most
/// as many steps as the tree may hold records. It ends as the recursive
/// function of the file system and the configuration says: with that tree,
/// or with that error. A tree that it ends with is sound.
pub proof fn law_walk_is_a_function(
    fs: FileSystem,
    config: Config,
    root: Option<Seq<u8>>,
    siblings: Option<Seq<DirEntryView>>,
)
    requires
        config.wf(),
    ensures
        run(fs, config.begin(root, siblings), config.max_entries) == (match walk_root(
            fs,
            config,
            root,
            siblings,
        ) {
            Ok(tree) => WalkView::Finished(tree),
            Err(error) => WalkView::Failed(error),
        }),
        walk_root(fs, config, root, siblings) matches Ok(tree) ==> tree_ok(config, tree),
{
    let start = config.begin(root, siblings);
    lemma_begin_ok(config, root, siblings);
    lemma_begin_follows(fs, config, root, siblings);
    lemma_run_follows(fs, start, config.max_entries);
    lemma_run_ends(fs, config, start, config.max_entries);
}

impl FileSystem {
    /// The directory `parent` can be read and lists `child`.
    pub open spec fn lists(self, parent: DirEntryView, child: DirEntryView) -> bool {
        (self.read_dir)(parent.path) matches Some(listing) && listing.contains(child)
    }

    /// Every node of `tree` has a record, and the record of every node below
    /// the root is one that the file system lists in the directory of the
    /// node above it.
    pub open spec fn holds(self, tree: EntryView) -> bool
        decreases tree,
    {
        &&& tree.dirent is Some
        &&& forall|i: int|
            0 <= i < tree.children.len() ==> {
                let child = #[trigger] tree.children[i];
                &&& child.dirent is Some
                &&& self.lists(tree.dirent.unwrap(), child.dirent.unwrap())
                &&& self.holds(child)
            }
    }

    /// Each of `children` is a tree of the file system whose root is listed
    /// in the directory `parent`.
    pub open spec fn holds_below(self, parent: DirEntryView, children: Seq<EntryView>) -> bool {
        forall|i: int|
            0 <= i < children.len() ==> {
                let child = #[trigger] children[i];
                &&& child.dirent is Some
                &&& self.lists(parent, child.dirent.unwrap())
                &&& self.holds(child)
            }
    }
}

/// The visit of entries that a directory lists gives, unless it fails,
/// subtrees of the file system whose roots that directory lists.
pub proof fn lemma_walk_entries_holds(
    fs: FileSystem,
    config: Config,
    parent: DirEntryView,
    entries: Seq<DirEntryView>,
    depth: nat,
    visited: nat,
    done: Seq<EntryView>,
)
    requires
        forall|i: int| 0 <= i < entries.len() ==> fs.lists(parent, #[trigger] entries[i]),
        fs.holds_below(parent, done),
    ensures
        ({
            let visit = walk_entries(fs, config, entries, depth, visited, done);
            !visit.failed ==> fs.holds_below(parent, visit.children)
        }),
    decreases (config.max_depth + 2 - depth) as nat, 0nat, entries.len(),
{
    if entries.len() > 0 && visited < config.max_entries {
        let entry = entries[0];
        let rest = entries.skip(1);
        assert forall|i: int| 0 <= i < rest.len() implies fs.lists(parent, #[trigger] rest[i]) by {}
        if visited + 1 < config.max_entries && depth <= config.max_depth {
            if entry.kind == EntryKind::Directory {
                let inner = walk_directory(fs, config, entry, depth + 1, visited + 1);
                lemma_walk_directory_holds(fs, config, entry, depth + 1, visited + 1);
                if !inner.failed {
                    let node = EntryView { dirent: Some(entry), children: inner.children, depth };
                    lemma_walk_entries_holds(
                        fs,
                        config,
                        parent,
                        rest,
                        depth,
                        inner.visited,
                        done.push(node),
                    );
                }
            } else {
                let node = leaf(entry, depth);
                lemma_walk_entries_holds(
                    fs,
                    config,
                    parent,
                    rest,
                    depth,
                    visited + 1,
                    done.push(node),
                );
            }
        } else {
            lemma_walk_entries_holds(fs, config, parent, rest, depth, visited + 1, done);
        }
    }
}

/// The visit of a directory gives, unless it fails, subtrees of the file
/// system whose roots the directory lists.
pub proof fn lemma_walk_directory_holds(
    fs: FileSystem,
    config: Config,
    dirent: DirEntryView,
    depth: nat,
    visited: nat,
)
    ensures
        ({
            let visit = walk_directory(fs, config, dirent, depth, visited);
            !visit.failed ==> fs.holds_below(dirent, visit.children)
        }),
    decreases (config.max_depth + 2 - depth) as nat, 1nat, 0nat,
{
    if let Some(listing) = (fs.read_dir)(dirent.path) {
        lemma_read(config, listing);
        lemma_walk_entries_holds(
            fs,
            config,
            dirent,
            config.read(listing),
            depth,
            visited,
            Seq::empty(),
        );
    }
}

/// The tree holds what the file system lists. The record of the root of a
/// tree that the traversal of a file system ends with is the first sibling
/// with the path of the root. The record of every other node is one that the
/// file system lists in the directory of the node above it.
pub proof fn law_tree_holds_what_is_listed(
    fs: FileSystem,
    config: Config,
    root: Option<Seq<u8>>,
    siblings: Option<Seq<DirEntryView>>,
)
    ensures
        walk_root(fs, config, root, siblings) matches Ok(tree) ==> {
            &&& root is Some
            &&& siblings is Some
            &&& tree.dirent == first_with_path(siblings.unwrap(), root.unwrap())
            &&& fs.holds(tree)
        },
{
    if root is Some && siblings is Some {
        if let Some(dirent) = first_with_path(siblings.unwrap(), root.unwrap()) {
            if dirent.kind == EntryKind::Directory {
                lemma_walk_directory_holds(fs, config, dirent, 0, 0);
            }
        }
    }
}

impl FileSystem {
    /// Every record that a directory of the file system lists has for its
    /// file name the last component of its path.
    pub open spec fn names_by_path(self, backslash: bool) -> bool {
        forall|parent: DirEntryView, child: DirEntryView| #[trigger]
            self.lists(parent, child) ==> child.named_by_path(backslash)
    }
}

/// The record that is found first with a path is one of the listing.
pub proof fn lemma_first_with_path(listing: Seq<DirEntryView>, path: Seq<u8>)
    ensures
        first_with_path(listing, path) matches Some(dirent) ==> listing.contains(dirent)
            && dirent.path == path,
    decreases listing.len(),
{
    if listing.len() > 0 && listing[0].path != path {
        let rest = listing.skip(1);
        lemma_first_with_path(rest, path);
        if let Some(dirent) = first_with_path(rest, path) {
            let k = choose|k: int| 0 <= k < rest.len() && rest[k] == dirent;
            assert(listing[k + 1] == dirent);
        }
    }
}

/// In a tree of a file system that names its records by their paths, every
/// record is named by its path, given that the record of the root is.
pub proof fn lemma_tree_named_by_path(fs: FileSystem, tree: EntryView, backslash: bool)
    requires
        fs.names_by_path(backslash),
        fs.holds(tree),
        tree.dirent.unwrap().named_by_path(backslash),
    ensures
        named_by_path(tree.nodes(), backslash),
    decreases tree, 1nat,
{
    lemma_forest_named_by_path(fs, tree.dirent.unwrap(), tree.children, backslash);
    assert forall|k: int| 0 <= k < tree.nodes().len() implies ((#[trigger] tree.nodes()[k]).dirent
        matches Some(dirent) ==> dirent.named_by_path(backslash)) by {
        if k > 0 {
            assert(tree.nodes()[k] == nodes_of(tree.children)[k - 1]);
        }
    }
}

/// In trees of such a file system whose roots a directory lists, every
/// record is named by its path.
pub proof fn lemma_forest_named_by_path(
    fs: FileSystem,
    parent: DirEntryView,
    forest: Seq<EntryView>,
    backslash: bool,
)
    requires
        fs.names_by_path(backslash),
        fs.holds_below(parent, forest),
    ensures
        named_by_path(nodes_of(forest), backslash),
    decreases forest, 0nat,
{
    if forest.len() > 0 {
        let first = forest[0];
        let rest = forest.skip(1);
        lemma_tree_named_by_path(fs, first, backslash);
        assert forall|i: int| 0 <= i < rest.len() implies {
            let child = #[trigger] rest[i];
            &&& child.dirent is Some
            &&& fs.lists(parent, child.dirent.unwrap())
            &&& fs.holds(child)
        } by {}
        lemma_forest_named_by_path(fs, parent, rest, backslash);
        let all = nodes_of(forest);
        assert forall|k: int| 0 <= k < all.len() implies ((#[trigger] all[k]).dirent matches Some(
            dirent,
        ) ==> dirent.named_by_path(backslash)) by {
            if k < first.nodes().len() {
                assert(all[k] == first.nodes()[k]);
            } else {
                assert(all[k] == nodes_of(rest)[k - first.nodes().len()]);
            }
        }
    }
}

/// Names in the tree of a file system. Where every record that the file
/// system lists, and every sibling of the root, has for its file name the
/// last component of its path, so has every record of the tree that the
/// traversal ends with. The lookup of a name in that tree then finds the
/// first node, in depth-first pre-order, whose path ends in the name.
pub proof fn law_tree_is_named_by_path(
    fs: FileSystem,
    config: Config,
    root: Option<Seq<u8>>,
    siblings: Option<Seq<DirEntryView>>,
    name: Seq<u8>,
    backslash: bool,
)
    requires
        fs.names_by_path(backslash),
        siblings matches Some(listing) ==> forall|i: int|
            0 <= i < listing.len() ==> (#[trigger] listing[i]).named_by_path(backslash),
    ensures
        walk_root(fs, config, root, siblings) matches Ok(tree) ==> {
            &&& named_by_path(tree.nodes(), backslash)
            &&& tree.find(name) == first_ending_in(tree.nodes(), name, backslash)
        },
{
    if let Ok(tree) = walk_root(fs, config, root, siblings) {
        law_tree_holds_what_is_listed(fs, config, root, siblings);
        lemma_first_with_path(siblings.unwrap(), root.unwrap());
        lemma_tree_named_by_path(fs, tree, backslash);
        law_find_by_last_component(tree, name, backslash);
    }
}

} // verus!
