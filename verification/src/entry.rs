//! The records of a traversal and the tree they are assembled into, with the
//! two ways to consume the tree: the flat depth-first view and the lookup of
//! a file name.

use crate::path::is_last_component;
use crate::path::last_component;
use crate::path::same_bytes;
use std::collections::VecDeque;
use vstd::prelude::*;
use vstd::string::StringSliceAdditionalSpecFns;

verus! {

/// What a directory entry is, as far as the traversal tells entries apart.
#[derive(Clone, Copy, Debug, PartialEq, Eq, Structural)]
pub enum EntryKind {
    /// A directory that is no symbolic link.
    Directory,
    /// A regular file that is no symbolic link.
    File,
    /// A symbolic link, whatever it points to.
    Symlink,
    /// Anything else: a socket, a device, a pipe.
    Other,
}

impl EntryKind {
    /// The kind of an entry of which it is known whether its path is a
    /// symbolic link, whether it leads to a directory, and whether it leads
    /// to a regular file. A link is a link whatever it leads to.
    pub open spec fn of(is_symlink: bool, is_dir: bool, is_file: bool) -> EntryKind {
        if is_symlink {
            EntryKind::Symlink
        } else if is_dir {
            EntryKind::Directory
        } else if is_file {
            EntryKind::File
        } else {
            EntryKind::Other
        }
    }

    /// Tells the kind of an entry from what the file system says of its path.
    pub fn classify(is_symlink: bool, is_dir: bool, is_file: bool) -> (kind: EntryKind)
        ensures
            kind == EntryKind::of(is_symlink, is_dir, is_file),
    {
        if is_symlink {
            EntryKind::Symlink
        } else if is_dir {
            EntryKind::Directory
        } else if is_file {
            EntryKind::File
        } else {
            EntryKind::Other
        }
    }
}

/// Mathematical value of a [`DirEntry`].
pub struct DirEntryView {
    /// The absolute path of the entry.
    pub path: Seq<u8>,
    /// The last component of the path.
    pub file_name: Seq<u8>,
    /// What the entry is.
    pub kind: EntryKind,
}

impl DirEntryView {
    /// The file name of the record is the last component of its path, as the
    /// separators of the host part the path. Every record that a directory
    /// of the host lists is of this form.
    pub open spec fn named_by_path(self, backslash: bool) -> bool {
        self.file_name == last_component(self.path, backslash)
    }
}

/// One entry of a directory: its absolute path, its file name (the last
/// component of the path) and its kind.
#[derive(Clone, Debug, PartialEq, Eq)]
pub struct DirEntry {
    /// The absolute path of the entry.
    pub path: Vec<u8>,
    /// The last component of the path.
    pub file_name: Vec<u8>,
    /// What the entry is.
    pub kind: EntryKind,
}

impl View for DirEntry {
    type V = DirEntryView;

    open spec fn view(&self) -> DirEntryView {
        DirEntryView { path: self.path@, file_name: self.file_name@, kind: self.kind }
    }
}

impl DeepView for DirEntry {
    type V = DirEntryView;

    open spec fn deep_view(&self) -> DirEntryView {
        self@
    }
}

impl DirEntry {
    /// The record of the entry at `path`, whose last component is `file_name`.
    pub fn new(path: Vec<u8>, file_name: Vec<u8>, kind: EntryKind) -> (entry: DirEntry)
        ensures
            entry@ == (DirEntryView { path: path@, file_name: file_name@, kind }),
    {
        DirEntry { path, file_name, kind }
    }

    /// The absolute path of the entry.
    pub fn path(&self) -> (path: &Vec<u8>)
        ensures
            path@ == self@.path,
    {
        &self.path
    }

    /// The last component of the entry's path.
    pub fn file_name(&self) -> (name: &Vec<u8>)
        ensures
            name@ == self@.file_name,
    {
        &self.file_name
    }

    /// Tells whether the file name of the record is the last component of
    /// its path.
    pub fn named_by_path(&self, backslash: bool) -> (yes: bool)
        ensures
            yes == self@.named_by_path(backslash),
    {
        is_last_component(&self.file_name, &self.path, backslash)
    }

    /// The kind of the entry.
    pub fn kind(&self) -> (kind: EntryKind)
        ensures
            kind == self@.kind,
    {
        self.kind
    }
}

/// Mathematical value of an [`EntryItem`].
pub struct EntryItemView {
    /// The record of the entry.
    pub dirent: DirEntryView,
    /// The depth of the node that holds the record.
    pub depth: nat,
}

/// One element of the flat view of a tree: a record and the depth at which
/// the tree holds it.
#[derive(Clone, Debug, PartialEq, Eq)]
pub struct EntryItem {
    /// The record of the entry.
    pub dirent: DirEntry,
    /// Depth of the entry: 0 for the root and for its immediate children.
    pub depth: usize,
}

impl View for EntryItem {
    type V = EntryItemView;

    open spec fn view(&self) -> EntryItemView {
        EntryItemView { dirent: self.dirent@, depth: self.depth as nat }
    }
}

impl DeepView for EntryItem {
    type V = EntryItemView;

    open spec fn deep_view(&self) -> EntryItemView {
        self@
    }
}

impl EntryItem {
    /// The item of a record that the tree holds at `depth`.
    pub fn new(dirent: DirEntry, depth: usize) -> (item: EntryItem)
        ensures
            item@ == (EntryItemView { dirent: dirent@, depth: depth as nat }),
    {
        EntryItem { dirent, depth }
    }
}

/// Mathematical value of an [`Entry`]: a finite tree.
pub struct EntryView {
    /// The record of the node, where it has one.
    pub dirent: Option<DirEntryView>,
    /// The subtrees below the node, in their order.
    pub children: Seq<EntryView>,
    /// The depth that the node records.
    pub depth: nat,
}

/// A node of the result tree: the record of a directory or file, the subtrees
/// of what was found inside it, and its depth.
#[derive(Debug, PartialEq, Eq)]
pub struct Entry {
    /// The record of this node. Every node that a traversal builds has one.
    pub dirent: Option<DirEntry>,
    /// Directories, then files, found inside this directory.
    pub children: Vec<Entry>,
    /// Depth of this node: 0 for the root and for its immediate children,
    /// one more with each further level.
    pub depth: usize,
}

impl View for Entry {
    type V = EntryView;

    open spec fn view(&self) -> EntryView {
        tree_view(*self)
    }
}

/// The value of the tree `entry`.
pub open spec fn tree_view(entry: Entry) -> EntryView
    decreases entry,
{
    EntryView {
        dirent: match entry.dirent {
            Some(d) => Some(d@),
            None => None,
        },
        children: forest_view(entry.children@),
        depth: entry.depth as nat,
    }
}

/// The values of the trees of `forest`, in the same order.
pub open spec fn forest_view(forest: Seq<Entry>) -> Seq<EntryView>
    decreases forest,
{
    if forest.len() == 0 {
        Seq::empty()
    } else {
        forest_view(forest.drop_last()).push(tree_view(forest.last()))
    }
}

impl DeepView for Entry {
    type V = EntryView;

    open spec fn deep_view(&self) -> EntryView {
        self@
    }
}

impl EntryView {
    /// The nodes of the tree in depth-first pre-order: a node comes before
    /// its descendants, and the subtree of a child before the next child.
    pub open spec fn nodes(self) -> Seq<EntryView>
        decreases self,
    {
        seq![self] + nodes_of(self.children)
    }

    /// The flat view: in depth-first pre-order, the record and depth of each
    /// node that has a record.
    pub open spec fn items(self) -> Seq<EntryItemView> {
        items_of(self.nodes())
    }

    /// The node has a record whose file name is `name`.
    pub open spec fn is_named(self, name: Seq<u8>) -> bool {
        self.dirent matches Some(d) && d.file_name == name
    }

    /// The first node in depth-first pre-order whose file name is `name`.
    pub open spec fn find(self, name: Seq<u8>) -> Option<EntryView> {
        first_named(self.nodes(), name)
    }

    /// The number of records that the tree holds.
    pub open spec fn count(self) -> nat {
        self.items().len()
    }
}

/// The pre-order sequences of the trees of `forest`, one after the other.
pub open spec fn nodes_of(forest: Seq<EntryView>) -> Seq<EntryView>
    decreases forest,
{
    if forest.len() == 0 {
        Seq::empty()
    } else {
        forest[0].nodes() + nodes_of(forest.skip(1))
    }
}

/// The records of `nodes`, each with the depth of its node, in the same
/// order; a node without a record gives nothing.
pub open spec fn items_of(nodes: Seq<EntryView>) -> Seq<EntryItemView>
    decreases nodes.len(),
{
    if nodes.len() == 0 {
        Seq::empty()
    } else {
        let rest = items_of(nodes.skip(1));
        match nodes[0].dirent {
            Some(d) => seq![EntryItemView { dirent: d, depth: nodes[0].depth }] + rest,
            None => rest,
        }
    }
}

/// The first of `nodes` whose file name is `name`.
pub open spec fn first_named(nodes: Seq<EntryView>, name: Seq<u8>) -> Option<EntryView>
    decreases nodes.len(),
{
    if nodes.len() == 0 {
        None
    } else if nodes[0].is_named(name) {
        Some(nodes[0])
    } else {
        first_named(nodes.skip(1), name)
    }
}

/// The first of `items` whose file name is `name`.
pub open spec fn first_item_named(items: Seq<EntryItemView>, name: Seq<u8>) -> Option<
    EntryItemView,
>
    decreases items.len(),
{
    if items.len() == 0 {
        None
    } else if items[0].dirent.file_name == name {
        Some(items[0])
    } else {
        first_item_named(items.skip(1), name)
    }
}

/// The pre-order of two forests, one after the other, is the pre-order of
/// the first followed by that of the second.
pub proof fn lemma_nodes_of_concat(a: Seq<EntryView>, b: Seq<EntryView>)
    ensures
        nodes_of(a + b) == nodes_of(a) + nodes_of(b),
    decreases a.len(),
{
    if a.len() > 0 {
        assert((a + b).skip(1) =~= a.skip(1) + b);
        lemma_nodes_of_concat(a.skip(1), b);
    }
}

/// The pre-order of a forest of one tree is that of the tree.
pub proof fn lemma_nodes_of_single(t: EntryView)
    ensures
        nodes_of(seq![t]) == t.nodes(),
{
    assert(nodes_of(seq![t].skip(1)) =~= Seq::<EntryView>::empty());
}

/// The records of two sequences of nodes, one after the other, are those of
/// the first followed by those of the second.
pub proof fn lemma_items_of_concat(a: Seq<EntryView>, b: Seq<EntryView>)
    ensures
        items_of(a + b) == items_of(a) + items_of(b),
    decreases a.len(),
{
    if a.len() > 0 {
        assert((a + b).skip(1) =~= a.skip(1) + b);
        lemma_items_of_concat(a.skip(1), b);
    }
}

/// The value of a forest holds, at each index, the value of the tree at that
/// index.
pub proof fn lemma_forest_view_index(forest: Seq<Entry>)
    ensures
        forest_view(forest).len() == forest.len(),
        forall|i: int| 0 <= i < forest.len() ==> (#[trigger] forest_view(forest)[i]) == forest[i]@,
    decreases forest.len(),
{
    if forest.len() > 0 {
        lemma_forest_view_index(forest.drop_last());
    }
}

/// The value of two forests, one after the other.
pub proof fn lemma_forest_view_concat(a: Seq<Entry>, b: Seq<Entry>)
    ensures
        forest_view(a + b) == forest_view(a) + forest_view(b),
{
    lemma_forest_view_index(a);
    lemma_forest_view_index(b);
    lemma_forest_view_index(a + b);
}

/// The value of a forest with one more tree.
pub proof fn lemma_forest_view_push(forest: Seq<Entry>, entry: Entry)
    ensures
        forest_view(forest.push(entry)) == forest_view(forest).push(entry@),
{
    assert(forest.push(entry).drop_last() =~= forest);
}

/// The value of a forest of one tree.
pub proof fn lemma_forest_view_single(entry: Entry)
    ensures
        forest_view(seq![entry]) == seq![entry@],
{
    lemma_forest_view_index(seq![entry]);
}

/// The nodes of a queue of trees, in pre-order: first the root of the first
/// tree, then the nodes of the queue that holds the children of that root in
/// its place.
proof fn lemma_queue_step(node: Entry, rest: Seq<Entry>)
    ensures
        ({
            let nodes = nodes_of(forest_view(seq![node] + rest));
            &&& nodes.len() > 0
            &&& nodes[0] == node@
            &&& nodes.skip(1) == nodes_of(forest_view(node.children@ + rest))
        }),
{
    lemma_forest_view_concat(seq![node], rest);
    lemma_forest_view_single(node);
    lemma_nodes_of_concat(seq![node@], forest_view(rest));
    lemma_nodes_of_single(node@);
    lemma_forest_view_concat(node.children@, rest);
    lemma_nodes_of_concat(node@.children, forest_view(rest));
    let tail = nodes_of(node@.children) + nodes_of(forest_view(rest));
    assert((seq![node@] + tail).skip(1) =~= tail);
}

/// Puts `children` in front of what `queue` holds, the first child first.
fn push_front_all(queue: &mut VecDeque<Entry>, children: Vec<Entry>)
    ensures
        final(queue)@ == children@ + old(queue)@,
{
    let mut children = children;
    let ghost all = children@;
    let ghost rest = queue@;
    while children.len() > 0
        invariant
            children.len() <= all.len(),
            children@ == all.take(children.len() as int),
            queue@ == all.skip(children.len() as int) + rest,
        decreases children.len(),
    {
        let child = children.pop().unwrap();
        queue.push_front(child);
    }
}

impl Entry {
    /// A node with the given children, record and depth.
    pub fn new(children: Vec<Entry>, dirent: Option<DirEntry>, depth: usize) -> (entry: Entry)
        ensures
            entry@ == (EntryView {
                dirent: match dirent {
                    Some(d) => Some(d@),
                    None => None,
                },
                children: forest_view(children@),
                depth: depth as nat,
            }),
    {
        Entry { children, dirent, depth }
    }

    /// Consumes the tree and returns its flat view: the records in depth-first
    /// pre-order, each with the depth of its node.
    pub fn flatten(self) -> (items: Vec<EntryItem>)
        ensures
            items.deep_view() == self@.items(),
    {
        let ghost whole = self@;
        let mut queue: VecDeque<Entry> = VecDeque::new();
        let mut flat: Vec<EntryItem> = Vec::new();
        queue.push_back(self);
        proof {
            lemma_forest_view_single(self);
            lemma_nodes_of_single(whole);
        }
        while queue.len() > 0
            invariant
                flat.deep_view() + items_of(nodes_of(forest_view(queue@))) == whole.items(),
            decreases nodes_of(forest_view(queue@)).len(),
        {
            let ghost before = queue@;
            let node = queue.pop_front().unwrap();
            proof {
                assert(before =~= seq![node] + queue@);
                lemma_queue_step(node, queue@);
            }
            let Entry { dirent, children, depth } = node;
            if let Some(d) = dirent {
                flat.push(EntryItem::new(d, depth));
            }
            push_front_all(&mut queue, children);
        }
        flat
    }

    /// Consumes the tree and returns the first node, in depth-first pre-order,
    /// whose file name is `name`, with its subtree; `None` where the tree holds
    /// no such node.
    pub fn find(self, name: &str) -> (found: Option<Entry>)
        ensures
            match found {
                Some(entry) => self@.find(name.spec_bytes()) == Some(entry@),
                None => self@.find(name.spec_bytes()) is None,
            },
    {
        let ghost whole = self@;
        let ghost wanted = name.spec_bytes();
        let mut queue: VecDeque<Entry> = VecDeque::new();
        queue.push_back(self);
        proof {
            lemma_forest_view_single(self);
            lemma_nodes_of_single(whole);
        }
        while queue.len() > 0
            invariant
                whole == self@,
                wanted == name.spec_bytes(),
                first_named(nodes_of(forest_view(queue@)), wanted) == whole.find(wanted),
            decreases nodes_of(forest_view(queue@)).len(),
        {
            let ghost before = queue@;
            let node = queue.pop_front().unwrap();
            proof {
                assert(before =~= seq![node] + queue@);
                lemma_queue_step(node, queue@);
            }
            let named = match &node.dirent {
                Some(d) => same_bytes(d.file_name.as_slice(), name.as_bytes()),
                None => false,
            };
            if named {
                return Some(node);
            }
            push_front_all(&mut queue, node.children);
        }
        None
    }
}

impl IntoIterator for Entry {
    type Item = EntryItem;

    type IntoIter = std::vec::IntoIter<EntryItem>;

    /// Iterates over the flat view of the tree.
    fn into_iter(self) -> (iter: std::vec::IntoIter<EntryItem>)
        ensures
            vstd::std_specs::vec::into_iter_elts(iter).map_values(|item: EntryItem| item@)
                == self@.items(),
    {
        let items = self.flatten();
        items.into_iter()
    }
}

} // verus!
