//! What the two caps do to the tree: with the depth capped at 0 the tree is
//! the root with the first level, and a smaller cap on the records keeps the
//! first records of the flat view and nothing else.

use crate::entry::items_of;
use crate::entry::lemma_items_of_concat;
use crate::entry::lemma_nodes_of_concat;
use crate::entry::lemma_nodes_of_single;
use crate::entry::nodes_of;
use crate::entry::DirEntryView;
use crate::entry::EntryItemView;
use crate::entry::EntryKind;
use crate::entry::EntryView;
use crate::model::walk_directory;
use crate::model::walk_entries;
use crate::model::walk_tree;
use crate::model::FileSystem;
use crate::model::Visit;
use crate::shape::lemma_count;
use crate::shape::lemma_records_in_push;
use crate::shape::records_in;
use crate::walk::leaf;
use crate::walk::WalkError;
use crate::walker::Config;
use vstd::prelude::*;

verus! {

/// A node without children for each of `entries`, all at `depth`.
pub open spec fn leaves(entries: Seq<DirEntryView>, depth: nat) -> Seq<EntryView> {
    Seq::new(entries.len(), |i: int| leaf(entries[i], depth))
}

/// How many entries are taken from the listing of `entry`: none where it is
/// no directory or cannot be read.
pub open spec fn taken_below(fs: FileSystem, config: Config, entry: DirEntryView) -> nat {
    if entry.kind == EntryKind::Directory && (fs.read_dir)(entry.path) is Some {
        config.read((fs.read_dir)(entry.path).unwrap()).len()
    } else {
        0
    }
}

/// How many entries a traversal with the depth capped at 0 visits for
/// `entries`, the first level: each of them, and for each directory among
/// them what is taken from its listing.
pub open spec fn visits_to_first_level(
    fs: FileSystem,
    config: Config,
    entries: Seq<DirEntryView>,
) -> nat
    decreases entries.len(),
{
    if entries.len() == 0 {
        0
    } else {
        1 + taken_below(fs, config, entries[0]) + visits_to_first_level(
            fs,
            config,
            entries.skip(1),
        )
    }
}

/// Every directory among `entries` can be read.
pub open spec fn directories_readable(fs: FileSystem, entries: Seq<DirEntryView>) -> bool {
    forall|i: int|
        0 <= i < entries.len() && (#[trigger] entries[i]).kind == EntryKind::Directory ==> (
        fs.read_dir)(entries[i].path) is Some
}

/// Entries that lie deeper than the greatest depth are visited and dropped,
/// all of them where the cap on the records allows as many visits.
pub proof fn lemma_too_deep(
    fs: FileSystem,
    config: Config,
    entries: Seq<DirEntryView>,
    depth: nat,
    visited: nat,
    done: Seq<EntryView>,
)
    requires
        depth > config.max_depth,
        visited + entries.len() <= config.max_entries,
    ensures
        walk_entries(fs, config, entries, depth, visited, done) == (Visit {
            children: done,
            visited: visited + entries.len(),
            failed: false,
        }),
    decreases entries.len(),
{
    if entries.len() > 0 {
        lemma_too_deep(fs, config, entries.skip(1), depth, visited + 1, done);
    }
}

/// With the depth capped at 0 and a cap on the records that never binds, the
/// visit of the first level keeps every entry, each as a node without
/// children.
pub proof fn lemma_first_level(
    fs: FileSystem,
    config: Config,
    entries: Seq<DirEntryView>,
    visited: nat,
    done: Seq<EntryView>,
)
    requires
        config.max_depth == 0,
        directories_readable(fs, entries),
        visited + visits_to_first_level(fs, config, entries) < config.max_entries,
    ensures
        walk_entries(fs, config, entries, 0, visited, done) == (Visit {
            children: done + leaves(entries, 0),
            visited: visited + visits_to_first_level(fs, config, entries),
            failed: false,
        }),
    decreases entries.len(),
{
    if entries.len() > 0 {
        let entry = entries[0];
        let rest = entries.skip(1);
        assert forall|i: int| 0 <= i < rest.len() && (#[trigger] rest[i]).kind
            == EntryKind::Directory implies (fs.read_dir)(rest[i].path) is Some by {}
        assert(done.push(leaf(entry, 0)) + leaves(rest, 0) =~= done + leaves(entries, 0));
        if entry.kind == EntryKind::Directory {
            let listing = (fs.read_dir)(entry.path).unwrap();
            let below = config.read(listing);
            lemma_too_deep(fs, config, below, 1, visited + 1, Seq::empty());
            assert(walk_directory(fs, config, entry, 1, visited + 1) == (Visit {
                children: Seq::empty(),
                visited: visited + 1 + below.len(),
                failed: false,
            }));
            lemma_first_level(
                fs,
                config,
                rest,
                visited + 1 + below.len(),
                done.push(leaf(entry, 0)),
            );
        } else {
            lemma_first_level(fs, config, rest, visited + 1, done.push(leaf(entry, 0)));
        }
    }
}

/// Depth capped at 0. Take a root that is a directory and can be read, as
/// can the directories that it lists, and a cap on the records that never
/// binds. Then the tree is the root with exactly what is taken from its
/// listing, in that order, each entry a node of depth 0 without children:
/// nothing from below the first level is in the tree.
pub proof fn law_depth_zero_keeps_the_first_level(
    fs: FileSystem,
    config: Config,
    dirent: DirEntryView,
    listing: Seq<DirEntryView>,
)
    requires
        config.max_depth == 0,
        dirent.kind == EntryKind::Directory,
        (fs.read_dir)(dirent.path) == Some(listing),
        directories_readable(fs, config.read(listing)),
        visits_to_first_level(fs, config, config.read(listing)) < config.max_entries,
    ensures
        walk_tree(fs, config, dirent) == Ok::<EntryView, WalkError>(
            EntryView {
                dirent: Some(dirent),
                children: leaves(config.read(listing), 0),
                depth: 0,
            },
        ),
{
    lemma_first_level(fs, config, config.read(listing), 0, Seq::empty());
}

/// The flat view of a forest: the records of its nodes in depth-first
/// pre-order, each with its depth.
pub open spec fn flat(forest: Seq<EntryView>) -> Seq<EntryItemView> {
    items_of(nodes_of(forest))
}

/// `config` with the cap on the records set to `cap`.
pub open spec fn capped(config: Config, cap: nat) -> Config {
    Config { max_entries: cap, ..config }
}

/// `children` begins with the subtrees `done`.
pub open spec fn extends(children: Seq<EntryView>, done: Seq<EntryView>) -> bool {
    done.len() <= children.len() && children.take(done.len() as int) == done
}

/// The visit kept a node for every entry that it visited: it did not fail,
/// the cap never bound, and no entry lay too deep.
pub open spec fn all_kept(visited: nat, done: Seq<EntryView>, visit: Visit) -> bool {
    !visit.failed && visit.visited + records_in(done) == visited + records_in(visit.children)
}

/// How many of `more` further records a traversal keeps that may hold `cap`
/// records, the root's among them, and has visited `visited` entries.
pub open spec fn kept_of(cap: nat, visited: nat, more: int) -> int {
    if cap - 1 - visited <= 0 {
        0
    } else if more <= cap - 1 - visited {
        more
    } else {
        cap - 1 - visited
    }
}

/// The filter and the ordering do not look at the cap on the records.
pub proof fn lemma_capped_reads_the_same(config: Config, cap: nat, listing: Seq<DirEntryView>)
    ensures
        capped(config, cap).read(listing) == config.read(listing),
{
    let other = capped(config, cap);
    assert(other.selects(EntryKind::Directory) =~= config.selects(EntryKind::Directory));
    assert(other.selects(EntryKind::File) =~= config.selects(EntryKind::File));
}

/// The flat view of a forest that begins with `done` begins with the flat
/// view of `done`.
pub proof fn lemma_flat_extends(children: Seq<EntryView>, done: Seq<EntryView>)
    requires
        extends(children, done),
    ensures
        flat(children) == flat(done) + flat(children.skip(done.len() as int)),
        flat(children).take(flat(done).len() as int) == flat(done),
        records_in(children) >= records_in(done),
{
    let more = children.skip(done.len() as int);
    assert(children =~= done + more);
    lemma_nodes_of_concat(done, more);
    lemma_items_of_concat(nodes_of(done), nodes_of(more));
}

/// The flat view of a forest with one more tree, whose root has a record.
pub proof fn lemma_flat_push(done: Seq<EntryView>, node: EntryView)
    requires
        node.dirent is Some,
    ensures
        flat(done.push(node)) == flat(done) + seq![
            EntryItemView { dirent: node.dirent.unwrap(), depth: node.depth },
        ] + flat(node.children),
        records_in(done.push(node)) == records_in(done) + 1 + records_in(node.children),
{
    assert(done.push(node) =~= done + seq![node]);
    lemma_nodes_of_concat(done, seq![node]);
    lemma_nodes_of_single(node);
    lemma_items_of_concat(nodes_of(done), node.nodes());
    let below = nodes_of(node.children);
    assert((seq![node] + below).skip(1) =~= below);
    lemma_records_in_push(done, node);
    lemma_count(node);
}

/// A visit only adds to the subtrees that are complete, and visits at least
/// one entry for every record that it adds.
pub proof fn lemma_visit_grows(
    fs: FileSystem,
    config: Config,
    entries: Seq<DirEntryView>,
    depth: nat,
    visited: nat,
    done: Seq<EntryView>,
)
    ensures
        ({
            let visit = walk_entries(fs, config, entries, depth, visited, done);
            !visit.failed ==> {
                &&& extends(visit.children, done)
                &&& visit.visited + records_in(done) >= visited + records_in(visit.children)
                &&& records_in(visit.children) >= records_in(done)
            }
        }),
    decreases (config.max_depth + 2 - depth) as nat, 0nat, entries.len(),
{
    let visit = walk_entries(fs, config, entries, depth, visited, done);
    if entries.len() == 0 || visited >= config.max_entries {
        assert(done.take(done.len() as int) =~= done);
    } else if !visit.failed {
        let entry = entries[0];
        let rest = entries.skip(1);
        if visited + 1 < config.max_entries && depth <= config.max_depth {
            let node = if entry.kind == EntryKind::Directory {
                let listing = (fs.read_dir)(entry.path).unwrap();
                lemma_visit_grows(
                    fs,
                    config,
                    config.read(listing),
                    depth + 1,
                    visited + 1,
                    Seq::empty(),
                );
                let inner = walk_directory(fs, config, entry, depth + 1, visited + 1);
                let node = EntryView { dirent: Some(entry), children: inner.children, depth };
                lemma_visit_grows(fs, config, rest, depth, inner.visited, done.push(node));
                node
            } else {
                let node = leaf(entry, depth);
                lemma_visit_grows(fs, config, rest, depth, visited + 1, done.push(node));
                node
            };
            lemma_flat_push(done, node);
            let grown = done.push(node);
            assert(visit.children.take(done.len() as int) =~= visit.children.take(
                grown.len() as int,
            ).take(done.len() as int));
            assert(grown.take(done.len() as int) =~= done);
            lemma_flat_extends(visit.children, done);
        } else {
            lemma_visit_grows(fs, config, rest, depth, visited + 1, done);
        }
    }
}

/// A smaller cap keeps a prefix. Take a visit that kept a node for every
/// entry it visited, and the same visit under a cap that is no greater.
/// Where the smaller cap is not reached, the two visits are the same.
/// Otherwise the visit under the smaller cap reaches its cap, and its flat
/// view is the flat view of the other cut off where the cap is full.
pub proof fn lemma_cap_keeps_a_prefix(
    fs: FileSystem,
    config: Config,
    cap: nat,
    entries: Seq<DirEntryView>,
    depth: nat,
    visited: nat,
    done: Seq<EntryView>,
)
    requires
        cap <= config.max_entries,
        all_kept(visited, done, walk_entries(fs, config, entries, depth, visited, done)),
    ensures
        ({
            let full = walk_entries(fs, config, entries, depth, visited, done);
            let part = walk_entries(fs, capped(config, cap), entries, depth, visited, done);
            let more = records_in(full.children) - records_in(done);
            &&& !part.failed
            &&& more >= 0
            &&& visited + more < cap ==> part == full
            &&& visited + more >= cap ==> part.visited >= cap
            &&& flat(part.children) == flat(full.children).take(
                records_in(done) + kept_of(cap, visited, more),
            )
        }),
    decreases (config.max_depth + 2 - depth) as nat, 0nat, entries.len(),
{
    let small = capped(config, cap);
    let full = walk_entries(fs, config, entries, depth, visited, done);
    lemma_visit_grows(fs, config, entries, depth, visited, done);
    lemma_flat_extends(full.children, done);
    // Where no entry is left or the smaller cap is reached, the visit under
    // it ends with `done`.
    if entries.len() > 0 && visited < cap {
        let entry = entries[0];
        let rest = entries.skip(1);
        if visited + 1 < config.max_entries && depth <= config.max_depth {
            if entry.kind == EntryKind::Directory {
                let inner = walk_directory(fs, config, entry, depth + 1, visited + 1);
                let listing = (fs.read_dir)(entry.path).unwrap();
                let below = config.read(listing);
                let node = EntryView { dirent: Some(entry), children: inner.children, depth };
                let grown = done.push(node);
                lemma_capped_reads_the_same(config, cap, listing);
                lemma_visit_grows(fs, config, below, depth + 1, visited + 1, Seq::empty());
                lemma_visit_grows(fs, config, rest, depth, inner.visited, grown);
                lemma_flat_push(done, node);
                let inside = records_in(inner.children) as int;
                if visited + 1 >= cap {
                    // The smaller cap is reached with this entry, which is dropped.
                    assert(walk_entries(fs, small, rest, depth, visited + 1, done) == Visit {
                        children: done,
                        visited: visited + 1,
                        failed: false,
                    });
                } else {
                    lemma_cap_keeps_a_prefix(
                        fs,
                        config,
                        cap,
                        below,
                        depth + 1,
                        visited + 1,
                        Seq::empty(),
                    );
                    let cut = walk_directory(fs, small, entry, depth + 1, visited + 1);
                    if visited + 1 + inside < cap {
                        let seen = inner.visited;
                        lemma_cap_keeps_a_prefix(fs, config, cap, rest, depth, seen, grown);
                    } else {
                        // The smaller cap is reached inside this directory: the visit
                        // ends with what is left of it.
                        let stub = EntryView { dirent: Some(entry), children: cut.children, depth };
                        lemma_flat_push(done, stub);
                        lemma_flat_extends(full.children, grown);
                        assert(walk_entries(fs, small, rest, depth, cut.visited, done.push(stub))
                            == Visit {
                            children: done.push(stub),
                            visited: cut.visited,
                            failed: false,
                        });
                    }
                }
            } else {
                let node = leaf(entry, depth);
                let grown = done.push(node);
                lemma_visit_grows(fs, config, rest, depth, visited + 1, grown);
                lemma_flat_push(done, node);
                if visited + 1 >= cap {
                    assert(walk_entries(fs, small, rest, depth, visited + 1, done) == Visit {
                        children: done,
                        visited: visited + 1,
                        failed: false,
                    });
                } else {
                    lemma_cap_keeps_a_prefix(fs, config, cap, rest, depth, visited + 1, grown);
                }
            }
        } else {
            // The visit with the greater cap drops this entry: it visits an entry
            // without keeping it, which was excluded.
            lemma_visit_grows(fs, config, rest, depth, visited + 1, done);
        }
    }
}

/// The cap keeps a prefix. Take the traversal of a root in which every entry
/// that was visited is in the tree: no directory failed, the cap never
/// bound, and nothing lay deeper than the greatest depth. The same traversal
/// under a cap of `cap` records, no greater than the first, ends with a tree
/// whose flat view is the first `cap` items of the flat view of the first
/// tree, or all of them where there are fewer: nothing before the cut is
/// dropped and nothing behind it is kept.
pub proof fn law_cap_keeps_a_prefix(
    fs: FileSystem,
    config: Config,
    dirent: DirEntryView,
    cap: nat,
)
    requires
        1 <= cap <= config.max_entries,
        dirent.kind == EntryKind::Directory ==> all_kept(
            0,
            Seq::empty(),
            walk_directory(fs, config, dirent, 0, 0),
        ),
    ensures
        walk_tree(fs, config, dirent) is Ok,
        walk_tree(fs, capped(config, cap), dirent) is Ok,
        ({
            let full = walk_tree(fs, config, dirent).unwrap();
            let part = walk_tree(fs, capped(config, cap), dirent).unwrap();
            part.items() == full.items().take(
                if cap <= full.count() {
                    cap as int
                } else {
                    full.count() as int
                },
            )
        }),
{
    let none = Seq::<EntryView>::empty();
    if dirent.kind == EntryKind::Directory {
        let listing = (fs.read_dir)(dirent.path).unwrap();
        lemma_capped_reads_the_same(config, cap, listing);
        lemma_cap_keeps_a_prefix(fs, config, cap, config.read(listing), 0, 0, none);
    }
    let full = walk_tree(fs, config, dirent).unwrap();
    let part = walk_tree(fs, capped(config, cap), dirent).unwrap();
    lemma_flat_push(none, full);
    lemma_flat_push(none, part);
    lemma_nodes_of_single(full);
    lemma_nodes_of_single(part);
}

} // verus!
