//! What a caller may rely on of every tree that a traversal ends with, stated
//! node by node, and how the lookup of a name relates to the flat view.

use crate::entry::first_item_named;
use crate::entry::first_named;
use crate::entry::items_of;
use crate::entry::nodes_of;
use crate::entry::EntryItemView;
use crate::entry::EntryKind;
use crate::entry::EntryView;
use crate::path::has_dotted_component;
use crate::path::last_component;
use crate::path::lemma_lex_le_antisymmetric;
use crate::path::lex_le;
use crate::path::lex_lt;
use crate::shape::records_of;
use crate::shape::subtree_ok;
use crate::shape::tree_ok;
use crate::walker::Config;
use vstd::prelude::*;

verus! {

/// The node is one that a traversal with `config` may hold at the depth that
/// the node itself records.
pub open spec fn node_ok(config: Config, node: EntryView) -> bool {
    subtree_ok(config, node, node.depth)
}

/// Every node of a sound subtree is a sound subtree at its own depth.
pub proof fn lemma_nodes_ok(config: Config, tree: EntryView, depth: nat)
    requires
        subtree_ok(config, tree, depth),
    ensures
        forall|k: int| 0 <= k < tree.nodes().len() ==> node_ok(config, #[trigger] tree.nodes()[k]),
    decreases tree, 1nat,
{
    lemma_forest_nodes_ok(config, tree.children, depth + 1);
    assert forall|k: int| 0 <= k < tree.nodes().len() implies node_ok(
        config,
        #[trigger] tree.nodes()[k],
    ) by {
        if k > 0 {
            assert(tree.nodes()[k] == nodes_of(tree.children)[k - 1]);
        }
    }
}

/// Every node of a forest of sound subtrees is a sound subtree at its own
/// depth.
pub proof fn lemma_forest_nodes_ok(config: Config, forest: Seq<EntryView>, depth: nat)
    requires
        forall|i: int| 0 <= i < forest.len() ==> subtree_ok(config, #[trigger] forest[i], depth),
    ensures
        forall|k: int|
            0 <= k < nodes_of(forest).len() ==> node_ok(config, #[trigger] nodes_of(forest)[k]),
    decreases forest, 0nat,
{
    if forest.len() > 0 {
        let first = forest[0];
        let rest = forest.skip(1);
        lemma_nodes_ok(config, first, depth);
        assert forall|i: int| 0 <= i < rest.len() implies subtree_ok(
            config,
            #[trigger] rest[i],
            depth,
        ) by {}
        lemma_forest_nodes_ok(config, rest, depth);
        let all = nodes_of(forest);
        assert forall|k: int| 0 <= k < all.len() implies node_ok(config, #[trigger] all[k]) by {
            if k >= first.nodes().len() {
                assert(all[k] == nodes_of(rest)[k - first.nodes().len()]);
            }
        }
    }
}

/// The first node of a tree, in depth-first pre-order, is its root; every
/// other node is a sound subtree at its own depth.
pub proof fn lemma_tree_nodes(config: Config, tree: EntryView)
    requires
        tree_ok(config, tree),
    ensures
        tree.nodes().len() >= 1,
        tree.nodes()[0] == tree,
        forall|k: int| 1 <= k < tree.nodes().len() ==> node_ok(config, #[trigger] tree.nodes()[k]),
{
    lemma_forest_nodes_ok(config, tree.children, 0);
    assert forall|k: int| 1 <= k < tree.nodes().len() implies node_ok(
        config,
        #[trigger] tree.nodes()[k],
    ) by {
        assert(tree.nodes()[k] == nodes_of(tree.children)[k - 1]);
    }
}

/// Order of siblings. Take any node of a tree that a traversal ended with,
/// and any two of its children, `first` before `second`. Then `first` is a
/// directory or `second` is a file: no directory comes after a file. Where
/// both are directories or both are files, the path of `first` does not come
/// after the path of `second`; where the two paths differ, it comes strictly
/// before, and the path of `second` does not come before it.
pub proof fn law_siblings_in_order(config: Config, tree: EntryView, n: int, i: int, j: int)
    requires
        tree_ok(config, tree),
        0 <= n < tree.nodes().len(),
        0 <= i < j < tree.nodes()[n].children.len(),
    ensures
        ({
            let node = tree.nodes()[n];
            let first = node.children[i].dirent.unwrap();
            let second = node.children[j].dirent.unwrap();
            &&& node.children[i].dirent is Some
            &&& node.children[j].dirent is Some
            &&& first.kind == EntryKind::Directory || second.kind == EntryKind::File
            &&& first.kind == second.kind ==> lex_le(first.path, second.path)
            &&& first.kind == second.kind && first.path != second.path ==> lex_lt(
                first.path,
                second.path,
            ) && !lex_le(second.path, first.path)
        }),
{
    lemma_tree_nodes(config, tree);
    let before = tree.nodes()[n].children[i].dirent.unwrap().path;
    let after = tree.nodes()[n].children[j].dirent.unwrap().path;
    if lex_le(before, after) && lex_le(after, before) {
        lemma_lex_le_antisymmetric(before, after);
    }
    let node = tree.nodes()[n];
    let records = records_of(node.children);
    assert(records[i] == node.children[i].dirent.unwrap());
    assert(records[j] == node.children[j].dirent.unwrap());
    if n > 0 {
        assert(subtree_ok(config, node.children[i], node.depth + 1));
        assert(subtree_ok(config, node.children[j], node.depth + 1));
    }
}

/// Depths. The root of a tree that a traversal ended with has depth 0, and
/// so has each of its children. A child of any other node lies one deeper
/// than that node. No node lies deeper than the greatest depth of the
/// configuration.
pub proof fn law_depths(config: Config, tree: EntryView, n: int, i: int)
    requires
        tree_ok(config, tree),
        0 <= n < tree.nodes().len(),
        0 <= i < tree.nodes()[n].children.len(),
    ensures
        tree.depth == 0,
        n == 0 ==> tree.nodes()[n].children[i].depth == 0,
        n > 0 ==> tree.nodes()[n].children[i].depth == tree.nodes()[n].depth + 1,
        tree.nodes()[n].children[i].depth <= config.max_depth,
{
    lemma_tree_nodes(config, tree);
    let node = tree.nodes()[n];
    if n > 0 {
        assert(subtree_ok(config, node.children[i], node.depth + 1));
    }
}

/// Number of records. A tree that a traversal ended with holds no more
/// records, the root's among them, than the configuration allows; its flat
/// view is as long as that at most.
pub proof fn law_count(config: Config, tree: EntryView)
    requires
        tree_ok(config, tree),
    ensures
        tree.count() <= config.max_entries,
        tree.items().len() <= config.max_entries,
{
}

/// The filter. Every node below the root of a tree that a traversal ended
/// with has a record that passed the filter: its path is none of the
/// excluded paths; where dotted names are skipped, no component of its path,
/// as the separators of the host part it, begins with a dot; and it is a
/// directory or a regular file, so no symbolic link. Only a directory has
/// children.
pub proof fn law_filtered(config: Config, tree: EntryView, n: int)
    requires
        tree_ok(config, tree),
        1 <= n < tree.nodes().len(),
    ensures
        ({
            let node = tree.nodes()[n];
            let dirent = node.dirent.unwrap();
            &&& node.dirent is Some
            &&& !config.skip_directories.contains(dirent.path)
            &&& config.skip_dotted ==> !has_dotted_component(
                dirent.path,
                config.backslash_separates,
            )
            &&& dirent.kind == EntryKind::Directory || dirent.kind == EntryKind::File
            &&& dirent.kind != EntryKind::Directory ==> node.children.len() == 0
        }),
{
    lemma_tree_nodes(config, tree);
}

/// The first record with a given name among the records of some nodes is the
/// record of the first node with that name.
pub proof fn lemma_first_named(nodes: Seq<EntryView>, name: Seq<u8>)
    ensures
        match first_named(nodes, name) {
            Some(node) => node.dirent is Some && first_item_named(items_of(nodes), name) == Some(
                EntryItemView { dirent: node.dirent.unwrap(), depth: node.depth },
            ),
            None => first_item_named(items_of(nodes), name) is None,
        },
    decreases nodes.len(),
{
    if nodes.len() > 0 {
        let rest = items_of(nodes.skip(1));
        lemma_first_named(nodes.skip(1), name);
        match nodes[0].dirent {
            Some(dirent) => {
                let item = EntryItemView { dirent, depth: nodes[0].depth };
                assert((seq![item] + rest).skip(1) =~= rest);
            },
            None => {},
        }
    }
}

/// Lookup and flat view agree. The node that the lookup of a name finds in a
/// tree is the node of the first item of the flat view with that name: the
/// item holds the record and the depth of that node. The lookup finds
/// nothing exactly where the flat view holds no item with that name.
pub proof fn law_find_first_item(tree: EntryView, name: Seq<u8>)
    ensures
        match tree.find(name) {
            Some(node) => node.dirent is Some && first_item_named(tree.items(), name) == Some(
                EntryItemView { dirent: node.dirent.unwrap(), depth: node.depth },
            ),
            None => first_item_named(tree.items(), name) is None,
        },
{
    lemma_first_named(tree.nodes(), name);
}

/// Every record of `nodes` has for its file name the last component of its
/// path.
pub open spec fn named_by_path(nodes: Seq<EntryView>, backslash: bool) -> bool {
    forall|i: int|
        0 <= i < nodes.len() ==> ((#[trigger] nodes[i]).dirent matches Some(dirent)
            ==> dirent.named_by_path(backslash))
}

/// The node has a record whose path ends in the component `name`.
pub open spec fn path_ends_in(node: EntryView, name: Seq<u8>, backslash: bool) -> bool {
    node.dirent matches Some(dirent) && last_component(dirent.path, backslash) == name
}

/// The first of `nodes` whose path ends in the component `name`.
pub open spec fn first_ending_in(nodes: Seq<EntryView>, name: Seq<u8>, backslash: bool) -> Option<
    EntryView,
>
    decreases nodes.len(),
{
    if nodes.len() == 0 {
        None
    } else if path_ends_in(nodes[0], name, backslash) {
        Some(nodes[0])
    } else {
        first_ending_in(nodes.skip(1), name, backslash)
    }
}

/// Among nodes whose records are named by their paths, the first with a
/// given file name is the first whose path ends in that name.
pub proof fn lemma_first_ending_in(nodes: Seq<EntryView>, name: Seq<u8>, backslash: bool)
    requires
        named_by_path(nodes, backslash),
    ensures
        first_named(nodes, name) == first_ending_in(nodes, name, backslash),
    decreases nodes.len(),
{
    if nodes.len() > 0 {
        let rest = nodes.skip(1);
        assert forall|i: int| 0 <= i < rest.len() implies ((#[trigger] rest[i]).dirent matches Some(
            dirent,
        ) ==> dirent.named_by_path(backslash)) by {}
        lemma_first_ending_in(rest, name, backslash);
    }
}

/// Lookup by the last component of the path. In a tree whose records have
/// for their file names the last components of their paths, as the records
/// of a file system have, the lookup of a name finds the first node, in
/// depth-first pre-order, whose path ends in that name, and finds nothing
/// exactly where no path ends in it.
pub proof fn law_find_by_last_component(tree: EntryView, name: Seq<u8>, backslash: bool)
    requires
        named_by_path(tree.nodes(), backslash),
    ensures
        tree.find(name) == first_ending_in(tree.nodes(), name, backslash),
        tree.find(name) matches Some(node) ==> path_ends_in(node, name, backslash),
{
    lemma_first_ending_in(tree.nodes(), name, backslash);
    lemma_first_ends_in(tree.nodes(), name, backslash);
}

/// The node that is found first with a path that ends in a name has such a
/// path.
pub proof fn lemma_first_ends_in(nodes: Seq<EntryView>, name: Seq<u8>, backslash: bool)
    ensures
        first_ending_in(nodes, name, backslash) matches Some(node) ==> path_ends_in(
            node,
            name,
            backslash,
        ),
    decreases nodes.len(),
{
    if nodes.len() > 0 && !path_ends_in(nodes[0], name, backslash) {
        lemma_first_ends_in(nodes.skip(1), name, backslash);
    }
}

} // verus!
