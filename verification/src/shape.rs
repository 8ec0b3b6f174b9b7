//! What holds of every tree that a traversal builds, and of a traversal
//! between two steps: the order of siblings, the depths, the number of
//! records, and that the filter has passed every record below the root.

use crate::entry::items_of;
use crate::entry::lemma_items_of_concat;
use crate::entry::lemma_nodes_of_concat;
use crate::entry::lemma_nodes_of_single;
use crate::entry::nodes_of;
use crate::entry::DirEntryView;
use crate::entry::EntryKind;
use crate::entry::EntryView;
use crate::order::lemma_sort_by_path;
use crate::order::sort_by_path;
use crate::path::lex_le;
use crate::walk::leaf;
use crate::walk::settle;
use crate::walk::FrameView;
use crate::walk::TraversalView;
use crate::walk::WalkView;
use crate::walker::Config;
use vstd::prelude::*;

verus! {

impl Config {
    /// The record may stand in the tree below the root: the filter admits its
    /// path, and it is a directory or a regular file.
    pub open spec fn keeps(self, dirent: DirEntryView) -> bool {
        &&& self.admits(dirent.path)
        &&& (dirent.kind == EntryKind::Directory || dirent.kind == EntryKind::File)
    }
}

/// `first` may stand before `second` among the entries of one directory: a
/// directory before a file, and of two of the same kind the one whose path
/// does not come after the other's.
pub open spec fn precedes(first: DirEntryView, second: DirEntryView) -> bool {
    if first.kind == second.kind {
        lex_le(first.path, second.path)
    } else {
        first.kind == EntryKind::Directory
    }
}

/// Every record of `records` may stand before each later one.
pub open spec fn in_order(records: Seq<DirEntryView>) -> bool {
    forall|i: int, j: int|
        0 <= i < j < records.len() ==> precedes(#[trigger] records[i], #[trigger] records[j])
}

/// The records of the roots of `forest`.
pub open spec fn records_of(forest: Seq<EntryView>) -> Seq<DirEntryView> {
    Seq::new(forest.len(), |i: int| forest[i].dirent.unwrap())
}

/// The number of records that the trees of `forest` hold.
pub open spec fn records_in(forest: Seq<EntryView>) -> nat {
    items_of(nodes_of(forest)).len()
}

/// `tree` is a subtree that a traversal with `config` may hold at `depth`:
/// its record passed the filter, its depth is `depth` and within the cap,
/// only a directory has children, they are in order, and each is such a
/// subtree one level deeper.
pub open spec fn subtree_ok(config: Config, tree: EntryView, depth: nat) -> bool
    decreases tree,
{
    &&& tree.dirent is Some
    &&& config.keeps(tree.dirent.unwrap())
    &&& tree.depth == depth
    &&& depth <= config.max_depth
    &&& (tree.dirent.unwrap().kind != EntryKind::Directory ==> tree.children.len() == 0)
    &&& in_order(records_of(tree.children))
    &&& forall|i: int|
        0 <= i < tree.children.len() ==> subtree_ok(config, #[trigger] tree.children[i], depth + 1)
}

/// `tree` is a tree that a traversal with `config` may end with. The root has
/// a record and depth 0; the filter was not applied to it. Its children are
/// subtrees at depth 0, in order, and the tree holds no more records than the
/// cap allows.
pub open spec fn tree_ok(config: Config, tree: EntryView) -> bool {
    &&& tree.dirent is Some
    &&& tree.depth == 0
    &&& (tree.dirent.unwrap().kind != EntryKind::Directory ==> tree.children.len() == 0)
    &&& in_order(records_of(tree.children))
    &&& forall|i: int|
        0 <= i < tree.children.len() ==> subtree_ok(config, #[trigger] tree.children[i], 0)
    &&& tree.count() <= config.max_entries
}

/// The record of the directory that the traversal has gone into from
/// `frames[k]`, as a sequence of one; empty for the innermost directory.
pub open spec fn entered_from(frames: Seq<FrameView>, k: int) -> Seq<DirEntryView> {
    if k + 1 < frames.len() {
        seq![frames[k + 1].dirent]
    } else {
        Seq::empty()
    }
}

/// The entries of a directory as the traversal meets them: those whose
/// subtrees are complete, the one it has gone into, those still to come.
pub open spec fn lineup(frame: FrameView, entered: Seq<DirEntryView>) -> Seq<DirEntryView> {
    records_of(frame.children) + entered + frame.pending
}

/// `frame` is a directory at `depth` that a traversal with `config` may be
/// inside of.
pub open spec fn frame_ok(
    config: Config,
    frame: FrameView,
    depth: nat,
    entered: Seq<DirEntryView>,
) -> bool {
    &&& frame.dirent.kind == EntryKind::Directory
    &&& (depth > 0 ==> config.keeps(frame.dirent))
    &&& forall|i: int|
        0 <= i < frame.children.len() ==> subtree_ok(config, #[trigger] frame.children[i], depth)
    &&& forall|i: int| 0 <= i < frame.pending.len() ==> config.keeps(#[trigger] frame.pending[i])
    &&& in_order(lineup(frame, entered))
}

/// The number of records in the part of the tree that `frames` hold: one for
/// each directory and those of the complete subtrees.
pub open spec fn held(frames: Seq<FrameView>) -> nat
    decreases frames.len(),
{
    if frames.len() == 0 {
        0
    } else {
        held(frames.drop_last()) + 1 + records_in(frames.last().children)
    }
}

/// `frames` and `visited` are a state that a traversal with `config` may be
/// in while it works through what it has read.
pub open spec fn frames_ok(config: Config, frames: Seq<FrameView>, visited: nat) -> bool {
    &&& config.wf()
    &&& 1 <= frames.len() <= config.max_depth + 2
    &&& visited <= config.max_entries
    &&& forall|k: int|
        0 <= k < frames.len() ==> frame_ok(
            config,
            #[trigger] frames[k],
            k as nat,
            entered_from(frames, k),
        )
    &&& held(frames) <= visited + 1
    &&& held(frames) <= config.max_entries
}

impl TraversalView {
    /// The directories above the awaited one, and the awaited one with
    /// nothing read yet.
    pub open spec fn frames(self) -> Seq<FrameView> {
        self.ancestors.push(
            FrameView { dirent: self.awaited, pending: Seq::empty(), children: Seq::empty() },
        )
    }

    /// A state that a traversal may be in while it waits for a listing.
    pub open spec fn wf(self) -> bool {
        &&& frames_ok(self.config, self.frames(), self.visited)
        &&& self.visited < self.config.max_entries
    }
}

/// `walk` is a state that a traversal with `config` may be in between two
/// steps: it waits for a listing in a sound state, or it has ended, and then
/// a tree is one that such a traversal may end with.
pub open spec fn walk_ok(config: Config, walk: WalkView) -> bool {
    match walk {
        WalkView::Reading(traversal) => traversal.config == config && traversal.wf(),
        WalkView::Finished(tree) => tree_ok(config, tree),
        WalkView::Failed(_) => true,
    }
}

/// A forest with one more tree holds the records of both.
pub proof fn lemma_records_in_push(forest: Seq<EntryView>, tree: EntryView)
    ensures
        records_in(forest.push(tree)) == records_in(forest) + tree.count(),
{
    assert(forest.push(tree) =~= forest + seq![tree]);
    lemma_nodes_of_concat(forest, seq![tree]);
    lemma_nodes_of_single(tree);
    lemma_items_of_concat(nodes_of(forest), tree.nodes());
}

/// A tree holds the record of its root, where it has one, and the records of
/// its children.
pub proof fn lemma_count(tree: EntryView)
    ensures
        tree.count() == (if tree.dirent is Some {
            1nat
        } else {
            0nat
        }) + records_in(tree.children),
{
    let below = nodes_of(tree.children);
    assert((seq![tree] + below).skip(1) =~= below);
}

/// A further directory adds its own record and those of its complete
/// subtrees.
pub proof fn lemma_held_push(frames: Seq<FrameView>, frame: FrameView)
    ensures
        held(frames.push(frame)) == held(frames) + 1 + records_in(frame.children),
{
    assert(frames.push(frame).drop_last() =~= frames);
}

/// Leaving out one record keeps the others in order.
pub proof fn lemma_in_order_remove(records: Seq<DirEntryView>, at: int)
    requires
        in_order(records),
        0 <= at < records.len(),
    ensures
        in_order(records.remove(at)),
{
    let less = records.remove(at);
    assert forall|i: int, j: int| 0 <= i < j < less.len() implies precedes(
        #[trigger] less[i],
        #[trigger] less[j],
    ) by {}
}

/// The first records of a sequence in order are in order.
pub proof fn lemma_in_order_take(records: Seq<DirEntryView>, n: int)
    requires
        in_order(records),
        0 <= n <= records.len(),
    ensures
        in_order(records.take(n)),
{
    let first = records.take(n);
    assert forall|i: int, j: int| 0 <= i < j < first.len() implies precedes(
        #[trigger] first[i],
        #[trigger] first[j],
    ) by {}
}

/// Every record of the sorted selection of a kind is in the listing, is of
/// that kind and is admitted.
pub proof fn lemma_entries_of(config: Config, listing: Seq<DirEntryView>, kind: EntryKind)
    ensures
        forall|i: int|
            0 <= i < config.entries_of(listing, kind).len() ==> {
                let entry = #[trigger] config.entries_of(listing, kind)[i];
                &&& entry.kind == kind
                &&& config.admits(entry.path)
                &&& listing.contains(entry)
            },
        forall|i: int, j: int|
            0 <= i < j < config.entries_of(listing, kind).len() ==> lex_le(
                (#[trigger] config.entries_of(listing, kind)[i]).path,
                (#[trigger] config.entries_of(listing, kind)[j]).path,
            ),
{
    broadcast use vstd::seq_lib::group_to_multiset_ensures;

    let chosen = listing.filter(config.selects(kind));
    let sorted = sort_by_path(chosen);
    lemma_sort_by_path(chosen);
    assert forall|i: int| 0 <= i < sorted.len() implies {
        let entry = #[trigger] sorted[i];
        &&& entry.kind == kind
        &&& config.admits(entry.path)
        &&& listing.contains(entry)
    } by {
        let entry = sorted[i];
        assert(sorted.to_multiset().count(entry) > 0);
        let k = choose|k: int| 0 <= k < chosen.len() && chosen[k] == entry;
        listing.lemma_filter_pred(config.selects(kind), k);
        listing.lemma_filter_contains_rev(config.selects(kind), entry);
    }
}

/// What is taken from a listing has passed the filter and is in order.
pub proof fn lemma_read(config: Config, listing: Seq<DirEntryView>)
    ensures
        forall|i: int|
            0 <= i < config.read(listing).len() ==> config.keeps(
                #[trigger] config.read(listing)[i],
            ),
        forall|i: int|
            0 <= i < config.read(listing).len() ==> listing.contains(
                #[trigger] config.read(listing)[i],
            ),
        in_order(config.read(listing)),
{
    let all = config.read(listing);
    lemma_entries_of(config, listing, EntryKind::Directory);
    lemma_entries_of(config, listing, EntryKind::File);
    assert forall|i: int| 0 <= i < all.len() implies config.keeps(#[trigger] all[i])
        && listing.contains(all[i]) by {}
    assert forall|i: int, j: int| 0 <= i < j < all.len() implies precedes(
        #[trigger] all[i],
        #[trigger] all[j],
    ) by {}
}

/// `frames` after the innermost directory has become a node of the one
/// above it.
pub open spec fn closed(frames: Seq<FrameView>) -> Seq<FrameView> {
    let top = frames.last();
    let above = frames.drop_last();
    let parent = above.last();
    let node = EntryView {
        dirent: Some(top.dirent),
        children: top.children,
        depth: (above.len() - 1) as nat,
    };
    above.drop_last().push(FrameView { children: parent.children.push(node), ..parent })
}

/// `frames` after the next entry of the innermost directory has been taken
/// and dropped.
pub open spec fn passed(frames: Seq<FrameView>) -> Seq<FrameView> {
    let top = frames.last();
    frames.drop_last().push(FrameView { pending: top.pending.skip(1), ..top })
}

/// `frames` after the next entry of the innermost directory has become a
/// node without children.
pub open spec fn kept(frames: Seq<FrameView>) -> Seq<FrameView> {
    let top = frames.last();
    let depth = (frames.len() - 1) as nat;
    frames.drop_last().push(
        FrameView {
            pending: top.pending.skip(1),
            children: top.children.push(leaf(top.pending[0], depth)),
            ..top
        },
    )
}

/// Closing the innermost directory keeps the state sound.
proof fn lemma_closed_ok(config: Config, frames: Seq<FrameView>, visited: nat)
    requires
        frames_ok(config, frames, visited),
        frames.len() >= 2,
    ensures
        frames_ok(config, closed(frames), visited),
{
    let n = frames.len() as int;
    let top = frames[n - 1];
    let parent = frames[n - 2];
    let above = frames.drop_last();
    let node = EntryView {
        dirent: Some(top.dirent),
        children: top.children,
        depth: (above.len() - 1) as nat,
    };
    let grown = FrameView { children: parent.children.push(node), ..parent };
    let after = closed(frames);
    // The children of the closed directory are the first of its lineup.
    assert(subtree_ok(config, node, (n - 2) as nat)) by {
        lemma_in_order_take(lineup(top, Seq::empty()), top.children.len() as int);
        assert(lineup(top, Seq::empty()).take(top.children.len() as int) =~= records_of(
            top.children,
        ));
    }
    // The new node stands where the entered directory stood.
    assert(frame_ok(config, grown, (n - 2) as nat, Seq::empty())) by {
        assert(lineup(grown, Seq::empty()) =~= lineup(parent, seq![top.dirent]));
    }
    assert forall|k: int| 0 <= k < after.len() implies frame_ok(
        config,
        #[trigger] after[k],
        k as nat,
        entered_from(after, k),
    ) by {}
    assert(held(after) == held(frames)) by {
        lemma_held_push(above, top);
        lemma_held_push(above.drop_last(), parent);
        lemma_held_push(above.drop_last(), grown);
        lemma_records_in_push(parent.children, node);
        lemma_count(node);
    }
}

/// Closing the root gives a sound tree.
proof fn lemma_finished_ok(config: Config, frames: Seq<FrameView>, visited: nat)
    requires
        frames_ok(config, frames, visited),
        frames.len() == 1,
    ensures
        tree_ok(
            config,
            EntryView { dirent: Some(frames[0].dirent), children: frames[0].children, depth: 0 },
        ),
{
    let top = frames[0];
    let tree = EntryView { dirent: Some(top.dirent), children: top.children, depth: 0 };
    lemma_in_order_take(lineup(top, Seq::empty()), top.children.len() as int);
    assert(lineup(top, Seq::empty()).take(top.children.len() as int) =~= records_of(top.children));
    lemma_count(tree);
}

/// Dropping the next entry keeps the state sound.
proof fn lemma_passed_ok(config: Config, frames: Seq<FrameView>, visited: nat)
    requires
        frames_ok(config, frames, visited),
        frames.last().pending.len() > 0,
        visited < config.max_entries,
    ensures
        frames_ok(config, passed(frames), visited + 1),
{
    let n = frames.len() as int;
    let top = frames[n - 1];
    let above = frames.drop_last();
    let rest = FrameView { pending: top.pending.skip(1), ..top };
    let after = passed(frames);
    assert(frame_ok(config, rest, (n - 1) as nat, Seq::empty())) by {
        lemma_in_order_remove(lineup(top, Seq::empty()), top.children.len() as int);
        assert(lineup(top, Seq::empty()).remove(top.children.len() as int) =~= lineup(
            rest,
            Seq::empty(),
        ));
    }
    assert forall|k: int| 0 <= k < after.len() implies frame_ok(
        config,
        #[trigger] after[k],
        k as nat,
        entered_from(after, k),
    ) by {}
    assert(held(after) == held(frames)) by {
        lemma_held_push(above, top);
        lemma_held_push(above, rest);
    }
}

/// Keeping the next entry as a node without children keeps the state sound.
proof fn lemma_kept_ok(config: Config, frames: Seq<FrameView>, visited: nat)
    requires
        frames_ok(config, frames, visited),
        frames.last().pending.len() > 0,
        frames.last().pending[0].kind != EntryKind::Directory,
        visited + 1 < config.max_entries,
        frames.len() - 1 <= config.max_depth,
    ensures
        frames_ok(config, kept(frames), visited + 1),
{
    let n = frames.len() as int;
    let top = frames[n - 1];
    let above = frames.drop_last();
    let node = leaf(top.pending[0], (n - 1) as nat);
    let rest = FrameView {
        pending: top.pending.skip(1),
        children: top.children.push(node),
        ..top
    };
    let after = kept(frames);
    assert(subtree_ok(config, node, (n - 1) as nat));
    assert(frame_ok(config, rest, (n - 1) as nat, Seq::empty())) by {
        assert(lineup(rest, Seq::empty()) =~= lineup(top, Seq::empty()));
    }
    assert forall|k: int| 0 <= k < after.len() implies frame_ok(
        config,
        #[trigger] after[k],
        k as nat,
        entered_from(after, k),
    ) by {}
    assert(held(after) == held(frames) + 1) by {
        lemma_held_push(above, top);
        lemma_held_push(above, rest);
        lemma_records_in_push(top.children, node);
        lemma_count(node);
    }
}

/// Going into the next entry, a directory, gives a sound traversal.
proof fn lemma_entered_ok(config: Config, frames: Seq<FrameView>, visited: nat)
    requires
        frames_ok(config, frames, visited),
        frames.last().pending.len() > 0,
        frames.last().pending[0].kind == EntryKind::Directory,
        visited + 1 < config.max_entries,
        frames.len() - 1 <= config.max_depth,
    ensures
        (TraversalView {
            config,
            visited: visited + 1,
            ancestors: passed(frames),
            awaited: frames.last().pending[0],
        }).wf(),
{
    let n = frames.len() as int;
    let top = frames[n - 1];
    let above = frames.drop_last();
    let entry = top.pending[0];
    let rest = FrameView { pending: top.pending.skip(1), ..top };
    let fresh = FrameView { dirent: entry, pending: Seq::empty(), children: Seq::empty() };
    let after = passed(frames).push(fresh);
    assert(frame_ok(config, rest, (n - 1) as nat, seq![entry])) by {
        assert(lineup(rest, seq![entry]) =~= lineup(top, Seq::empty()));
    }
    assert(frame_ok(config, fresh, n as nat, Seq::empty()));
    assert forall|k: int| 0 <= k < after.len() implies frame_ok(
        config,
        #[trigger] after[k],
        k as nat,
        entered_from(after, k),
    ) by {}
    assert(held(after) == held(frames) + 1) by {
        lemma_held_push(above, top);
        lemma_held_push(above, rest);
        lemma_held_push(above.push(rest), fresh);
    }
}

/// Working through a sound state ends in a sound state: the invariants of a
/// traversal hold after every step.
pub proof fn lemma_settle_ok(config: Config, frames: Seq<FrameView>, visited: nat)
    requires
        frames_ok(config, frames, visited),
    ensures
        walk_ok(config, settle(config, frames, visited)),
    decreases frames.len(), frames.last().pending.len(),
{
    let top = frames.last();
    let above = frames.drop_last();
    if top.pending.len() == 0 || visited >= config.max_entries {
        if above.len() == 0 {
            lemma_finished_ok(config, frames, visited);
        } else {
            lemma_closed_ok(config, frames, visited);
            lemma_settle_ok(config, closed(frames), visited);
        }
    } else if visited + 1 < config.max_entries && above.len() <= config.max_depth {
        if top.pending[0].kind == EntryKind::Directory {
            lemma_entered_ok(config, frames, visited);
        } else {
            lemma_kept_ok(config, frames, visited);
            lemma_settle_ok(config, kept(frames), visited + 1);
        }
    } else {
        lemma_passed_ok(config, frames, visited);
        lemma_settle_ok(config, passed(frames), visited + 1);
    }
}

/// Working through what has been read visits at least one entry before a
/// further listing is asked for. So a traversal asks for fewer listings than
/// the tree may hold records.
pub proof fn lemma_settle_advances(config: Config, frames: Seq<FrameView>, visited: nat)
    ensures
        settle(config, frames, visited) matches WalkView::Reading(traversal)
            ==> traversal.visited > visited,
    decreases frames.len(), frames.last().pending.len(),
{
    if frames.len() > 0 {
        let top = frames.last();
        let above = frames.drop_last();
        if top.pending.len() == 0 || visited >= config.max_entries {
            if above.len() > 0 {
                lemma_settle_advances(config, closed(frames), visited);
            }
        } else if visited + 1 < config.max_entries && above.len() <= config.max_depth {
            if top.pending[0].kind != EntryKind::Directory {
                lemma_settle_advances(config, kept(frames), visited + 1);
            }
        } else {
            lemma_settle_advances(config, passed(frames), visited + 1);
        }
    }
}

/// The first step of a traversal gives a sound state.
pub proof fn lemma_begin_ok(
    config: Config,
    root: Option<Seq<u8>>,
    siblings: Option<Seq<DirEntryView>>,
)
    requires
        config.wf(),
    ensures
        walk_ok(config, config.begin(root, siblings)),
{
    match config.begin(root, siblings) {
        WalkView::Reading(traversal) => {
            let frames = traversal.frames();
            assert(held(frames.drop_last()) == 0);
        },
        WalkView::Finished(tree) => {
            lemma_count(tree);
        },
        WalkView::Failed(_) => {},
    }
}

/// A step from a sound state gives a sound state.
pub proof fn lemma_listed_ok(traversal: TraversalView, listing: Option<Seq<DirEntryView>>)
    requires
        traversal.wf(),
    ensures
        walk_ok(traversal.config, traversal.listed(listing)),
{
    if let Some(found) = listing {
        let config = traversal.config;
        let before = traversal.frames();
        let n = before.len() as int;
        let top = FrameView {
            dirent: traversal.awaited,
            pending: config.read(found),
            children: Seq::empty(),
        };
        let frames = traversal.ancestors.push(top);
        lemma_read(config, found);
        assert(frame_ok(config, top, (n - 1) as nat, Seq::empty()));
        assert forall|k: int| 0 <= k < frames.len() implies frame_ok(
            config,
            #[trigger] frames[k],
            k as nat,
            entered_from(frames, k),
        ) by {
            if k < n - 1 {
                assert(frames[k] == before[k]);
            }
        }
        assert(held(frames) == held(before)) by {
            lemma_held_push(traversal.ancestors, top);
            lemma_held_push(traversal.ancestors, before[n - 1]);
        }
        lemma_settle_ok(config, frames, traversal.visited);
    }
}

} // verus!
