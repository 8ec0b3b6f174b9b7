//! The traversal as a sequence of steps. Reading a directory is left to the
//! caller: a traversal says which directory it waits for, takes the listing,
//! and works on until it waits for the next one or the tree is complete.

use crate::entry::forest_view;
use crate::entry::lemma_forest_view_push;
use crate::entry::DirEntry;
use crate::entry::DirEntryView;
use crate::entry::Entry;
use crate::entry::EntryKind;
use crate::entry::EntryView;
use crate::model::lemma_begin_follows;
use crate::model::lemma_listed_follows;
use crate::model::walk_root;
use crate::model::FileSystem;
use crate::path::same_path;
use crate::shape::lemma_begin_ok;
use crate::shape::lemma_listed_ok;
use crate::shape::lemma_settle_advances;
use crate::shape::walk_ok;
use crate::walker::Config;
use crate::walker::Walker;
use vstd::prelude::*;

verus! {

/// Why a traversal ended without a tree.
#[derive(Clone, Copy, Debug, PartialEq, Eq, Structural)]
pub enum WalkError {
    /// The root could not be resolved, or a directory could not be read.
    Io,
    /// The directory that holds the root does not list it.
    InvalidInput,
}

/// Mathematical value of a directory that the traversal is inside of.
pub struct FrameView {
    /// The record of the directory.
    pub dirent: DirEntryView,
    /// Its entries that are still to be looked at, the next one first.
    pub pending: Seq<DirEntryView>,
    /// The subtrees of its entries that are complete.
    pub children: Seq<EntryView>,
}

/// Mathematical value of a [`Traversal`].
pub struct TraversalView {
    /// What the traversal is configured with.
    pub config: Config,
    /// How many entries have been taken from the listings so far.
    pub visited: nat,
    /// The directories from the root down to the one that holds `awaited`; for
    /// the root itself there is none.
    pub ancestors: Seq<FrameView>,
    /// The record of the directory whose listing is awaited.
    pub awaited: DirEntryView,
}

/// Mathematical value of a [`Walk`].
pub enum WalkView {
    /// The traversal waits for a listing.
    Reading(TraversalView),
    /// The traversal is over, with this tree.
    Finished(EntryView),
    /// The traversal was given up.
    Failed(WalkError),
}

/// The node of a file, or of a directory that nothing was taken from.
pub open spec fn leaf(dirent: DirEntryView, depth: nat) -> EntryView {
    EntryView { dirent: Some(dirent), children: Seq::empty(), depth }
}

/// The first record of `listing` whose path is `path`.
pub open spec fn first_with_path(listing: Seq<DirEntryView>, path: Seq<u8>) -> Option<
    DirEntryView,
>
    decreases listing.len(),
{
    if listing.len() == 0 {
        None
    } else if listing[0].path == path {
        Some(listing[0])
    } else {
        first_with_path(listing.skip(1), path)
    }
}

/// Works through the directories of `frames`, the innermost last, until the
/// listing of a further directory is needed or the tree is complete.
///
/// The innermost directory is closed when none of its entries is left or
/// when as many entries have been visited as the tree may hold records: it
/// becomes a node of the directory above it, or the root of the tree.
/// Otherwise its next entry is visited. The entry is dropped where the visit
/// reaches the cap, or where it lies deeper than the greatest depth. Else a
/// directory is read next, and any other entry becomes a node without
/// children.
pub open spec fn settle(config: Config, frames: Seq<FrameView>, visited: nat) -> WalkView
    decreases frames.len(), frames.last().pending.len(),
{
    if frames.len() == 0 {
        WalkView::Failed(WalkError::InvalidInput)
    } else {
        let top = frames.last();
        let above = frames.drop_last();
        let depth = above.len();
        if top.pending.len() == 0 || visited >= config.max_entries {
            if above.len() == 0 {
                WalkView::Finished(
                    EntryView { dirent: Some(top.dirent), children: top.children, depth: 0 },
                )
            } else {
                let parent = above.last();
                let node = EntryView {
                    dirent: Some(top.dirent),
                    children: top.children,
                    depth: (depth - 1) as nat,
                };
                settle(
                    config,
                    above.drop_last().push(
                        FrameView { children: parent.children.push(node), ..parent },
                    ),
                    visited,
                )
            }
        } else {
            let entry = top.pending[0];
            let rest = FrameView { pending: top.pending.skip(1), ..top };
            if visited + 1 < config.max_entries && depth <= config.max_depth {
                if entry.kind == EntryKind::Directory {
                    WalkView::Reading(
                        TraversalView {
                            config,
                            visited: visited + 1,
                            ancestors: above.push(rest),
                            awaited: entry,
                        },
                    )
                } else {
                    settle(
                        config,
                        above.push(
                            FrameView { children: top.children.push(leaf(entry, depth)), ..rest },
                        ),
                        visited + 1,
                    )
                }
            } else {
                settle(config, above.push(rest), visited + 1)
            }
        }
    }
}

impl Config {
    /// The start of a traversal. `root` is the canonical path of the root,
    /// `siblings` the listing of the directory that holds it; `None` stands
    /// for a failure to resolve the one or to read the other.
    ///
    /// The record of the root is the first of `siblings` with its path. A
    /// root that is a directory is read next; any other root is the whole
    /// tree.
    pub open spec fn begin(
        self,
        root: Option<Seq<u8>>,
        siblings: Option<Seq<DirEntryView>>,
    ) -> WalkView {
        if root is None || siblings is None {
            WalkView::Failed(WalkError::Io)
        } else {
            match first_with_path(siblings.unwrap(), root.unwrap()) {
                None => WalkView::Failed(WalkError::InvalidInput),
                Some(dirent) => if dirent.kind == EntryKind::Directory {
                    WalkView::Reading(
                        TraversalView {
                            config: self,
                            visited: 0,
                            ancestors: Seq::empty(),
                            awaited: dirent,
                        },
                    )
                } else {
                    WalkView::Finished(leaf(dirent, 0))
                },
            }
        }
    }
}

impl TraversalView {
    /// The traversal after the answer to its request: `listing` is what the
    /// awaited directory holds, `None` where it could not be read. A failure
    /// ends the traversal; a listing is ordered and worked through.
    pub open spec fn listed(self, listing: Option<Seq<DirEntryView>>) -> WalkView {
        match listing {
            None => WalkView::Failed(WalkError::Io),
            Some(found) => settle(
                self.config,
                self.ancestors.push(
                    FrameView {
                        dirent: self.awaited,
                        pending: self.config.read(found),
                        children: Seq::empty(),
                    },
                ),
                self.visited,
            ),
        }
    }
}

/// A directory that the traversal is inside of.
struct Frame {
    dirent: DirEntry,
    /// The entries that are still to be looked at, the next one last.
    pending: Vec<DirEntry>,
    children: Vec<Entry>,
}

impl View for Frame {
    type V = FrameView;

    closed spec fn view(&self) -> FrameView {
        FrameView {
            dirent: self.dirent@,
            pending: self.pending.deep_view().reverse(),
            children: forest_view(self.children@),
        }
    }
}

/// The values of `frames`, in the same order.
spec fn frames_view(frames: Seq<Frame>) -> Seq<FrameView> {
    frames.map_values(|frame: Frame| frame@)
}

/// A traversal that waits for the listing of a directory.
pub struct Traversal {
    walker: Walker,
    visited: usize,
    ancestors: Vec<Frame>,
    awaited: DirEntry,
}

impl View for Traversal {
    type V = TraversalView;

    closed spec fn view(&self) -> TraversalView {
        TraversalView {
            config: self.walker@,
            visited: self.visited as nat,
            ancestors: frames_view(self.ancestors@),
            awaited: self.awaited@,
        }
    }
}

/// A traversal between two steps.
pub enum Walk {
    /// The listing of a directory is needed: read the directory that
    /// [`Traversal::directory`] names and hand the result to
    /// [`Traversal::listed`].
    Reading(Traversal),
    /// The traversal is over; this is the tree.
    Finished(Entry),
    /// The traversal was given up.
    Failed(WalkError),
}

impl View for Walk {
    type V = WalkView;

    open spec fn view(&self) -> WalkView {
        match self {
            Walk::Reading(traversal) => WalkView::Reading(traversal@),
            Walk::Finished(entry) => WalkView::Finished(entry@),
            Walk::Failed(error) => WalkView::Failed(*error),
        }
    }
}

/// The value of the answer to a request for a path.
pub open spec fn path_view(path: Option<Vec<u8>>) -> Option<Seq<u8>> {
    match path {
        Some(bytes) => Some(bytes@),
        None => None,
    }
}

/// The value of the answer to a request for a listing.
pub open spec fn listing_view(listing: Option<Vec<DirEntry>>) -> Option<Seq<DirEntryView>> {
    match listing {
        Some(found) => Some(found.deep_view()),
        None => None,
    }
}

/// Returns the record of the root: the first of `siblings` whose path is
/// `path`. Where the listing holds none, the root cannot be found.
pub fn get_parent_entry(path: &Vec<u8>, siblings: Vec<DirEntry>) -> (found: Result<
    DirEntry,
    WalkError,
>)
    ensures
        match found {
            Ok(dirent) => first_with_path(siblings.deep_view(), path@) == Some(dirent@),
            Err(error) => error == WalkError::InvalidInput && first_with_path(
                siblings.deep_view(),
                path@,
            ) is None,
        },
{
    let ghost all = siblings.deep_view();
    proof {
        assert(all.skip(0) =~= all);
    }
    for entry in it: siblings
        invariant
            it.seq() == siblings@,
            all == siblings.deep_view(),
            first_with_path(all, path@) == first_with_path(all.skip(it.index() as int), path@),
    {
        proof {
            assert(all.skip(it.index() as int).skip(1) =~= all.skip(it.index() + 1));
        }
        if same_path(&entry.path, path) {
            return Ok(entry);
        }
    }
    Err(WalkError::InvalidInput)
}

/// Turns the order of `entries` round.
fn reversed(entries: Vec<DirEntry>) -> (turned: Vec<DirEntry>)
    ensures
        turned.deep_view() == entries.deep_view().reverse(),
{
    let mut entries = entries;
    let ghost all = entries.deep_view();
    let mut turned: Vec<DirEntry> = Vec::new();
    while entries.len() > 0
        invariant
            entries.len() <= all.len(),
            entries.deep_view() == all.take(entries.len() as int),
            turned.len() == all.len() - entries.len(),
            forall|i: int|
                0 <= i < turned.len() ==> (#[trigger] turned.deep_view()[i]) == all[all.len() - 1
                    - i],
        decreases entries.len(),
    {
        let ghost left = entries.deep_view();
        let ghost done = turned.deep_view();
        let entry = entries.pop().unwrap();
        turned.push(entry);
        assert forall|i: int| 0 <= i < turned.len() implies (#[trigger] turned.deep_view()[i])
            == all[all.len() - 1 - i] by {
            if i < done.len() {
                assert(turned.deep_view()[i] == done[i]);
            } else {
                assert(turned.deep_view()[i] == left[left.len() - 1]);
            }
        }
    }
    turned
}

/// The values of some directories and one more.
proof fn lemma_frames_view_push(frames: Seq<Frame>, frame: Frame)
    ensures
        frames_view(frames.push(frame)) == frames_view(frames).push(frame@),
        frames_view(frames).len() == frames.len(),
{
}

/// The values of some directories, the last apart.
proof fn lemma_frames_view_pop(frames: Seq<Frame>)
    requires
        frames.len() > 0,
    ensures
        frames_view(frames) == frames_view(frames.drop_last()).push(frames.last()@),
{
}

/// Works through the directories that have been read until a further listing
/// is needed or the tree is complete. `innermost` is the directory that was
/// read last, `outer` holds those above it, and `count` entries have been
/// visited.
fn advance(walker: Walker, outer: Vec<Frame>, innermost: Frame, count: usize) -> (walk: Walk)
    requires
        walk_ok(walker@, settle(walker@, frames_view(outer@).push(innermost@), count as nat)),
    ensures
        walk@ == settle(walker@, frames_view(outer@).push(innermost@), count as nat),
{
    let ghost goal = settle(walker@, frames_view(outer@).push(innermost@), count as nat);
    let mut ancestors = outer;
    let mut top = innermost;
    let mut visited = count;
    let max_entries = walker.entry_cap();
    let max_depth = walker.depth_cap();
    loop
        invariant
            goal == settle(walker@, frames_view(outer@).push(innermost@), count as nat),
            walk_ok(walker@, goal),
            max_entries == walker@.max_entries,
            max_depth == walker@.max_depth,
            settle(walker@, frames_view(ancestors@).push(top@), visited as nat) == goal,
        decreases ancestors.len(), top.pending.len(),
    {
        let ghost above = frames_view(ancestors@);
        proof {
            assert(above.push(top@).drop_last() =~= above);
        }
        if top.pending.len() == 0 || visited >= max_entries {
            let Frame { dirent, children, .. } = top;
            match ancestors.pop() {
                None => {
                    return Walk::Finished(Entry::new(children, Some(dirent), 0));
                },
                Some(parent) => {
                    let node = Entry::new(children, Some(dirent), ancestors.len());
                    proof {
                        lemma_frames_view_pop(ancestors@.push(parent));
                        assert(above.drop_last() =~= frames_view(ancestors@));
                        lemma_forest_view_push(parent.children@, node);
                    }
                    top = parent;
                    top.children.push(node);
                },
            }
        } else {
            let ghost waiting = top.pending.deep_view();
            let entry = top.pending.pop().unwrap();
            proof {
                assert(top.pending.deep_view() =~= waiting.drop_last());
                assert(waiting.drop_last().reverse() =~= waiting.reverse().skip(1));
            }
            visited = visited + 1;
            if visited < max_entries && ancestors.len() <= max_depth {
                match entry.kind {
                    EntryKind::Directory => {
                        proof {
                            lemma_frames_view_push(ancestors@, top);
                        }
                        ancestors.push(top);
                        return Walk::Reading(
                            Traversal { walker, visited, ancestors, awaited: entry },
                        );
                    },
                    _ => {
                        let node = Entry::new(Vec::new(), Some(entry), ancestors.len());
                        proof {
                            lemma_forest_view_push(top.children@, node);
                        }
                        top.children.push(node);
                    },
                }
            }
        }
    }
}

impl Walker {
    /// Begins the traversal. `root` is the canonical path of the root of this
    /// walker, `siblings` the listing of the directory that holds it; `None`
    /// stands for a failure to resolve the one or to read the other, and ends
    /// the traversal at once.
    ///
    /// The root is neither filtered nor counted against the depth: its node
    /// has depth 0, as the nodes of its immediate children have.
    pub fn walk_dir(self, root: Option<Vec<u8>>, siblings: Option<Vec<DirEntry>>) -> (walk: Walk)
        ensures
            walk@ == self@.begin(path_view(root), listing_view(siblings)),
            walk_ok(self@, walk@),
            forall|fs: FileSystem| #[trigger]
                walk@.outcome(fs) == walk_root(fs, self@, path_view(root), listing_view(siblings)),
    {
        proof {
            use_type_invariant(&self);
            lemma_begin_ok(self@, path_view(root), listing_view(siblings));
            assert forall|fs: FileSystem| #[trigger]
                self@.begin(path_view(root), listing_view(siblings)).outcome(fs) == walk_root(
                    fs,
                    self@,
                    path_view(root),
                    listing_view(siblings),
                ) by {
                lemma_begin_follows(fs, self@, path_view(root), listing_view(siblings));
            }
        }
        match (root, siblings) {
            (Some(path), Some(listing)) => match get_parent_entry(&path, listing) {
                Err(error) => Walk::Failed(error),
                Ok(dirent) => match dirent.kind {
                    EntryKind::Directory => {
                        let ancestors: Vec<Frame> = Vec::new();
                        assert(frames_view(ancestors@) =~= Seq::<FrameView>::empty());
                        Walk::Reading(
                            Traversal { walker: self, visited: 0, ancestors, awaited: dirent },
                        )
                    },
                    _ => {
                        let node = Entry::new(Vec::new(), Some(dirent), 0);
                        Walk::Finished(node)
                    },
                },
            },
            _ => Walk::Failed(WalkError::Io),
        }
    }
}

impl Traversal {
    /// Every traversal is in a sound state.
    #[verifier::type_invariant]
    pub open spec fn inv(self) -> bool {
        self@.wf()
    }

    /// The path of the directory whose listing the traversal waits for.
    pub fn directory(&self) -> (path: &Vec<u8>)
        ensures
            path@ == self@.awaited.path,
    {
        &self.awaited.path
    }

    /// Takes the answer to the request: what the awaited directory holds, or
    /// `None` where it could not be read, which ends the traversal. A listing
    /// is filtered and ordered, and the traversal goes on until it needs the
    /// next listing or the tree is complete.
    pub fn listed(self, listing: Option<Vec<DirEntry>>) -> (walk: Walk)
        ensures
            walk@ == self@.listed(listing_view(listing)),
            walk_ok(self@.config, walk@),
            walk@ matches WalkView::Reading(next) ==> next.visited > self@.visited,
            forall|fs: FileSystem|
                (fs.read_dir)(self@.awaited.path) == listing_view(listing)
                    ==> #[trigger] walk@.outcome(fs) == self@.outcome(fs),
    {
        proof {
            use_type_invariant(&self);
            lemma_listed_ok(self@, listing_view(listing));
            if let Some(found) = listing_view(listing) {
                lemma_settle_advances(
                    self@.config,
                    self@.ancestors.push(
                        FrameView {
                            dirent: self@.awaited,
                            pending: self@.config.read(found),
                            children: Seq::empty(),
                        },
                    ),
                    self@.visited,
                );
            }
            assert forall|fs: FileSystem|
                (fs.read_dir)(self@.awaited.path) == listing_view(listing)
                implies #[trigger] self@.listed(listing_view(listing)).outcome(fs)
                    == self@.outcome(fs) by {
                lemma_listed_follows(fs, self@);
            }
        }
        match listing {
            None => Walk::Failed(WalkError::Io),
            Some(found) => {
                let Traversal { walker, visited, ancestors, awaited } = self;
                let entries = walker.read_entries(found);
                let ghost ordered = entries.deep_view();
                let pending = reversed(entries);
                assert(pending.deep_view().reverse() =~= ordered);
                let top = Frame { dirent: awaited, pending, children: Vec::new() };
                advance(walker, ancestors, top, visited)
            },
        }
    }
}

} // verus!
