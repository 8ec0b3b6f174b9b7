use dir_walker::EntryKind::{Directory, File, Symlink};
use dir_walker::{DirEntry, Entry, EntryItem, EntryKind, Walk, WalkError, Walker};

fn fx_record(path: &str, kind: EntryKind) -> DirEntry {
    let name = path.rsplit('/').next().unwrap();
    DirEntry::new(path.as_bytes().to_vec(), name.as_bytes().to_vec(), kind)
}

/// The tree `/fx`: a directory `a` with `x.txt` and `.hidden`, a file
/// `b.txt`, a directory `.git` with `HEAD`, and a link to `a`. Beside it an
/// empty directory and a deep one.
fn list_fx(directory: &[u8]) -> Option<Vec<DirEntry>> {
    match directory {
        b"/" => Some(vec![
            fx_record("/fx", Directory),
            fx_record("/empty", Directory),
            fx_record("/deep", Directory),
            fx_record("/locked", Directory),
        ]),
        b"/fx" => Some(vec![
            fx_record("/fx/link", Symlink),
            fx_record("/fx/b.txt", File),
            fx_record("/fx/a", Directory),
            fx_record("/fx/.git", Directory),
        ]),
        b"/fx/a" => Some(vec![fx_record("/fx/a/x.txt", File), fx_record("/fx/a/.hidden", File)]),
        b"/fx/.git" => Some(vec![fx_record("/fx/.git/HEAD", File)]),
        b"/empty" => Some(vec![]),
        b"/deep" => Some(vec![fx_record("/deep/one", Directory), fx_record("/deep/z.txt", File)]),
        b"/deep/one" => Some(vec![
            fx_record("/deep/one/two", Directory),
            fx_record("/deep/one/y.txt", File),
        ]),
        b"/deep/one/two" => Some(vec![
            fx_record("/deep/one/two/three", Directory),
            fx_record("/deep/one/two/x.txt", File),
        ]),
        b"/deep/one/two/three" => Some(vec![fx_record("/deep/one/two/three/w.txt", File)]),
        b"/locked" => Some(vec![
            fx_record("/locked/open", Directory),
            fx_record("/locked/shut", Directory),
        ]),
        b"/locked/open" => Some(vec![fx_record("/locked/open/f.txt", File)]),
        _ => None,
    }
}

fn fx_parent(path: &[u8]) -> Vec<u8> {
    let cut = path.iter().rposition(|b| *b == b'/').unwrap();
    if cut == 0 {
        b"/".to_vec()
    } else {
        path[..cut].to_vec()
    }
}

/// Runs a traversal over the fixture. The root of the walker is taken as
/// canonical where the fixture knows it; a leading `.` stands for `/`.
fn walk_fx(walker: Walker) -> Result<Entry, WalkError> {
    let given = walker.root().clone();
    let canonical = if given.starts_with(b"./") { given[1..].to_vec() } else { given };
    let known: [&[u8]; 6] = [b"/fx", b"/fx/b.txt", b"/empty", b"/deep", b"/locked", b"/fx/a"];
    let root = if known.contains(&canonical.as_slice()) { Some(canonical) } else { None };
    let siblings = match &root {
        Some(path) => list_fx(&fx_parent(path)),
        None => None,
    };
    let mut walk = walker.walk_dir(root, siblings);
    loop {
        walk = match walk {
            Walk::Reading(traversal) => {
                let listing = list_fx(traversal.directory());
                traversal.listed(listing)
            }
            Walk::Finished(tree) => return Ok(tree),
            Walk::Failed(error) => return Err(error),
        };
    }
}

fn flat(tree: Entry) -> Vec<(String, usize)> {
    tree.flatten()
        .into_iter()
        .map(|item| (String::from_utf8(item.dirent.path).unwrap(), item.depth))
        .collect()
}

fn pairs(expected: &[(&str, usize)]) -> Vec<(String, usize)> {
    expected.iter().map(|(path, depth)| (path.to_string(), *depth)).collect()
}

#[test]
fn walks_the_whole_tree_in_order() {
    let tree = walk_fx(Walker::new(b"./fx".to_vec())).unwrap();
    assert_eq!(
        flat(tree),
        pairs(&[
            ("/fx", 0),
            ("/fx/.git", 0),
            ("/fx/.git/HEAD", 1),
            ("/fx/a", 0),
            ("/fx/a/.hidden", 1),
            ("/fx/a/x.txt", 1),
            ("/fx/b.txt", 0),
        ])
    );
}

#[test]
fn symbolic_links_are_left_out() {
    let tree = walk_fx(Walker::new(b"./fx".to_vec())).unwrap();
    assert!(flat(tree).iter().all(|(path, _)| path != "/fx/link"));
}

#[test]
fn skip_dotted_leaves_out_dotted_names_and_what_they_hold() {
    let tree = walk_fx(Walker::new(b"./fx".to_vec()).skip_dotted()).unwrap();
    assert_eq!(
        flat(tree),
        pairs(&[("/fx", 0), ("/fx/a", 0), ("/fx/a/x.txt", 1), ("/fx/b.txt", 0)])
    );
}

#[test]
fn skip_directories_leaves_out_the_directory_and_what_it_holds() {
    let walker = Walker::new(b"./fx".to_vec()).skip_directories(vec![b"/fx/a".to_vec()]);
    let tree = walk_fx(walker).unwrap();
    assert_eq!(
        flat(tree),
        pairs(&[("/fx", 0), ("/fx/.git", 0), ("/fx/.git/HEAD", 1), ("/fx/b.txt", 0)])
    );
}

#[test]
fn skip_directories_replaces_an_earlier_list() {
    let walker = Walker::new(b"./fx".to_vec())
        .skip_directories(vec![b"/fx/a".to_vec()])
        .skip_directories(vec![b"/fx/.git".to_vec()]);
    let tree = walk_fx(walker).unwrap();
    assert_eq!(
        flat(tree),
        pairs(&[
            ("/fx", 0),
            ("/fx/a", 0),
            ("/fx/a/.hidden", 1),
            ("/fx/a/x.txt", 1),
            ("/fx/b.txt", 0),
        ])
    );
}

#[test]
fn max_depth_zero_keeps_the_children_of_the_root_only() {
    let tree = walk_fx(Walker::new(b"./fx".to_vec()).max_depth(0)).unwrap();
    assert!(tree.children.iter().all(|child| child.children.is_empty()));
    assert_eq!(
        flat(tree),
        pairs(&[("/fx", 0), ("/fx/.git", 0), ("/fx/a", 0), ("/fx/b.txt", 0)])
    );
}

#[test]
fn max_depth_keeps_the_nodes_at_that_depth() {
    let tree = walk_fx(Walker::new(b"./deep".to_vec()).max_depth(1)).unwrap();
    assert_eq!(
        flat(tree),
        pairs(&[
            ("/deep", 0),
            ("/deep/one", 0),
            ("/deep/one/two", 1),
            ("/deep/one/y.txt", 1),
            ("/deep/z.txt", 0),
        ])
    );
}

#[test]
fn max_entries_two_keeps_the_first_two_records() {
    let tree = walk_fx(Walker::new(b"./fx".to_vec()).max_entries(2)).unwrap();
    assert_eq!(flat(tree), pairs(&[("/fx", 0), ("/fx/.git", 0)]));
}

#[test]
fn max_entries_one_keeps_the_root_alone() {
    let tree = walk_fx(Walker::new(b"./fx".to_vec()).max_entries(1)).unwrap();
    assert!(tree.children.is_empty());
    assert_eq!(flat(tree), pairs(&[("/fx", 0)]));
}

#[test]
fn max_entries_counts_the_root() {
    for cap in 1..=12usize {
        let tree = walk_fx(Walker::new(b"./fx".to_vec()).max_entries(cap)).unwrap();
        let records = flat(tree).len();
        assert!(records <= cap);
        assert_eq!(records, cap.min(7));
    }
}

#[test]
fn entries_dropped_for_their_depth_count_as_visited() {
    // Visited in order: one, two, three (dropped, too deep), x.txt (dropped),
    // y.txt, z.txt. The sixth visit reaches the cap, so z.txt is dropped too.
    let walker = Walker::new(b"./deep".to_vec()).max_depth(1).max_entries(6);
    let tree = walk_fx(walker).unwrap();
    assert_eq!(
        flat(tree),
        pairs(&[("/deep", 0), ("/deep/one", 0), ("/deep/one/two", 1), ("/deep/one/y.txt", 1)])
    );
}

#[test]
fn truncation_is_no_error() {
    let walk = walk_fx(Walker::new(b"./deep".to_vec()).max_entries(3));
    assert_eq!(
        flat(walk.unwrap()),
        pairs(&[("/deep", 0), ("/deep/one", 0), ("/deep/one/two", 1)])
    );
}

#[test]
fn empty_directory_is_a_node_without_children() {
    let tree = walk_fx(Walker::new(b"./empty".to_vec())).unwrap();
    assert!(tree.children.is_empty());
    assert_eq!(tree.depth, 0);
    assert_eq!(tree.dirent.unwrap().path(), &b"/empty".to_vec());
}

#[test]
fn root_that_is_a_file_is_a_single_node() {
    let tree = walk_fx(Walker::new(b"./fx/b.txt".to_vec())).unwrap();
    assert!(tree.children.is_empty());
    assert_eq!(tree.depth, 0);
    let dirent = tree.dirent.unwrap();
    assert_eq!(dirent.path(), &b"/fx/b.txt".to_vec());
    assert_eq!(dirent.file_name(), &b"b.txt".to_vec());
    assert_eq!(dirent.kind(), EntryKind::File);
}

#[test]
fn root_that_does_not_exist_is_an_io_error() {
    assert_eq!(walk_fx(Walker::new(b"./nowhere".to_vec())), Err(WalkError::Io));
}

#[test]
fn unresolved_root_fails_whatever_the_listing() {
    let walker = Walker::new(b"./fx".to_vec());
    let walk = walker.walk_dir(None, list_fx(b"/"));
    assert!(matches!(walk, Walk::Failed(WalkError::Io)));
}

#[test]
fn unreadable_parent_is_an_io_error() {
    let walker = Walker::new(b"./fx".to_vec());
    let walk = walker.walk_dir(Some(b"/fx".to_vec()), None);
    assert!(matches!(walk, Walk::Failed(WalkError::Io)));
}

#[test]
fn root_missing_from_its_parent_is_invalid_input() {
    let walker = Walker::new(b"./fx".to_vec());
    let walk = walker.walk_dir(Some(b"/fx".to_vec()), list_fx(b"/fx"));
    assert!(matches!(walk, Walk::Failed(WalkError::InvalidInput)));
}

#[test]
fn root_that_no_directory_holds_is_invalid_input() {
    // The root of the file system has no parent: it is found in no listing.
    let walker = Walker::new(b"/".to_vec());
    let walk = walker.walk_dir(Some(b"/".to_vec()), Some(Vec::new()));
    assert!(matches!(walk, Walk::Failed(WalkError::InvalidInput)));
}

#[test]
fn records_of_a_traversal_are_named_by_their_paths() {
    let tree = walk_fx(Walker::new(b"./deep".to_vec())).unwrap();
    assert!(tree.flatten().iter().all(|item| item.dirent.named_by_path(false)));
}

#[test]
fn cap_keeps_the_first_records_of_the_flat_view() {
    let full = flat(walk_fx(Walker::new(b"./deep".to_vec())).unwrap());
    assert_eq!(full.len(), 8);
    for cap in 1..=10usize {
        let part = flat(walk_fx(Walker::new(b"./deep".to_vec()).max_entries(cap)).unwrap());
        assert_eq!(part, full[..cap.min(8)]);
    }
}

#[test]
fn unreadable_directory_aborts_the_traversal() {
    // `/locked/shut` is listed by its parent, but cannot be read itself.
    assert_eq!(walk_fx(Walker::new(b"./locked".to_vec())), Err(WalkError::Io));
}

#[test]
fn unreadable_directory_that_is_skipped_does_no_harm() {
    let walker = Walker::new(b"./locked".to_vec()).skip_directories(vec![b"/locked/shut".to_vec()]);
    let tree = walk_fx(walker).unwrap();
    assert_eq!(
        flat(tree),
        pairs(&[("/locked", 0), ("/locked/open", 0), ("/locked/open/f.txt", 1)])
    );
}

#[test]
fn root_in_the_skip_list_is_walked_all_the_same() {
    let walker = Walker::new(b"./fx".to_vec()).skip_directories(vec![b"/fx".to_vec()]);
    let tree = walk_fx(walker).unwrap();
    assert_eq!(flat(tree).len(), 7);
}

#[test]
fn dotted_root_is_kept_but_nothing_below_it() {
    // Every path below `/fx/.git` has a dotted component.
    let walker = Walker::new(b"/fx/.git".to_vec()).skip_dotted();
    let walk = walker.walk_dir(Some(b"/fx/.git".to_vec()), list_fx(b"/fx"));
    let walk = match walk {
        Walk::Reading(traversal) => {
            assert_eq!(traversal.directory(), &b"/fx/.git".to_vec());
            traversal.listed(list_fx(b"/fx/.git"))
        }
        _ => panic!("the root is a directory"),
    };
    match walk {
        Walk::Finished(tree) => assert_eq!(flat(tree), pairs(&[("/fx/.git", 0)])),
        _ => panic!("one listing ends this traversal"),
    }
}

#[test]
fn traversal_asks_for_the_directories_depth_first() {
    let mut asked: Vec<String> = Vec::new();
    let mut walk = Walker::new(b"./fx".to_vec()).walk_dir(Some(b"/fx".to_vec()), list_fx(b"/"));
    let tree = loop {
        walk = match walk {
            Walk::Reading(traversal) => {
                asked.push(String::from_utf8(traversal.directory().clone()).unwrap());
                let listing = list_fx(traversal.directory());
                traversal.listed(listing)
            }
            Walk::Finished(tree) => break tree,
            Walk::Failed(error) => panic!("{error:?}"),
        };
    };
    assert_eq!(asked, vec!["/fx", "/fx/.git", "/fx/a"]);
    assert_eq!(tree.children.len(), 3);
}

#[test]
fn find_returns_the_node_with_that_name() {
    let tree = walk_fx(Walker::new(b"./fx".to_vec())).unwrap();
    let found = tree.find("x.txt").unwrap();
    assert_eq!(found.dirent.unwrap().path(), &b"/fx/a/x.txt".to_vec());
    assert_eq!(found.depth, 1);
}

#[test]
fn find_returns_a_directory_with_its_subtree() {
    let tree = walk_fx(Walker::new(b"./fx".to_vec())).unwrap();
    let found = tree.find("a").unwrap();
    assert_eq!(found.children.len(), 2);
    assert_eq!(flat(found), pairs(&[("/fx/a", 0), ("/fx/a/.hidden", 1), ("/fx/a/x.txt", 1)]));
}

#[test]
fn find_of_a_name_that_is_not_there_is_none() {
    let tree = walk_fx(Walker::new(b"./fx".to_vec())).unwrap();
    assert_eq!(tree.find("link"), None);
}

#[test]
fn find_agrees_with_the_first_item_of_the_flat_view() {
    for name in ["fx", "a", "x.txt", "HEAD", "b.txt", ".git", "none"] {
        let first = flat(walk_fx(Walker::new(b"./fx".to_vec())).unwrap())
            .into_iter()
            .find(|(path, _)| path.rsplit('/').next().unwrap() == name);
        let found = walk_fx(Walker::new(b"./fx".to_vec())).unwrap().find(name);
        let found = found.map(|node| {
            (String::from_utf8(node.dirent.unwrap().path).unwrap(), node.depth)
        });
        assert_eq!(found, first);
    }
}

#[test]
fn two_traversals_of_one_file_system_give_the_same_tree() {
    let first = walk_fx(Walker::new(b"./deep".to_vec()).max_depth(2).max_entries(6)).unwrap();
    let second = walk_fx(Walker::new(b"./deep".to_vec()).max_depth(2).max_entries(6)).unwrap();
    assert_eq!(first, second);
}

fn assert_node(node: &Entry, depth: usize, max_depth: usize) {
    let dirent = node.dirent.as_ref().unwrap();
    assert_eq!(node.depth, depth);
    assert!(node.depth <= max_depth);
    assert!(dirent.kind() == EntryKind::Directory || dirent.kind() == EntryKind::File);
    if dirent.kind() == EntryKind::File {
        assert!(node.children.is_empty());
    }
    assert_children(&node.children, depth + 1, max_depth);
}

fn assert_children(children: &[Entry], depth: usize, max_depth: usize) {
    for pair in children.windows(2) {
        let first = pair[0].dirent.as_ref().unwrap();
        let second = pair[1].dirent.as_ref().unwrap();
        assert!(first.kind() == EntryKind::Directory || second.kind() == EntryKind::File);
        if first.kind() == second.kind() {
            assert!(first.path() < second.path());
        }
    }
    for child in children {
        assert_node(child, depth, max_depth);
    }
}

#[test]
fn every_node_has_its_depth_and_its_place() {
    for max_depth in 0..4usize {
        let tree = walk_fx(Walker::new(b"./deep".to_vec()).max_depth(max_depth)).unwrap();
        assert_eq!(tree.depth, 0);
        assert_children(&tree.children, 0, max_depth);
    }
    let tree = walk_fx(Walker::new(b"./fx".to_vec())).unwrap();
    assert_children(&tree.children, 0, 100);
}

fn preorder(node: &Entry, out: &mut Vec<EntryItem>) {
    if let Some(dirent) = &node.dirent {
        out.push(EntryItem::new(dirent.clone(), node.depth));
    }
    for child in &node.children {
        preorder(child, out);
    }
}

#[test]
fn flat_view_is_the_pre_order_walk_of_the_tree() {
    let tree = walk_fx(Walker::new(b"./deep".to_vec())).unwrap();
    let mut expected = Vec::new();
    preorder(&tree, &mut expected);
    assert_eq!(expected.len(), 8);
    assert_eq!(tree.flatten(), expected);
}

#[test]
fn iteration_gives_the_flat_view() {
    let expected = walk_fx(Walker::new(b"./fx".to_vec())).unwrap().flatten();
    let tree = walk_fx(Walker::new(b"./fx".to_vec())).unwrap();
    let iterated: Vec<EntryItem> = tree.into_iter().collect();
    assert_eq!(iterated, expected);
}

#[test]
fn walker_has_the_defaults() {
    let walker = Walker::new(b"./fx".to_vec());
    assert_eq!(walker.root(), &b"./fx".to_vec());
    assert_eq!(walker.depth_cap(), 100);
    assert_eq!(walker.entry_cap(), 10_000);
    assert!(walker.should_skip(&b"/fx/.git".to_vec()));
}

#[test]
fn options_set_what_they_name() {
    let walker = Walker::new(b"./fx".to_vec()).max_depth(7).max_entries(9);
    assert_eq!(walker.depth_cap(), 7);
    assert_eq!(walker.entry_cap(), 9);
    assert_eq!(walker.root(), &b"./fx".to_vec());
}

fn list_data(directory: &[u8]) -> Option<Vec<DirEntry>> {
    let entry = |path: &[u8], name: &[u8], kind| DirEntry::new(path.to_vec(), name.to_vec(), kind);
    match directory {
        b"/" => Some(vec![entry(b"/data", b"data", EntryKind::Directory)]),
        b"/data" => Some(vec![entry(b"/data/a.txt", b"a.txt", EntryKind::File)]),
        _ => None,
    }
}

#[test]
fn walk_of_a_small_tree_step_by_step() {
    let walker = Walker::new(b"/data".to_vec()).skip_dotted().max_depth(3);
    let mut walk = walker.walk_dir(Some(b"/data".to_vec()), list_data(b"/"));
    let tree = loop {
        walk = match walk {
            Walk::Reading(traversal) => {
                let listing = list_data(traversal.directory());
                traversal.listed(listing)
            }
            Walk::Finished(tree) => break tree,
            Walk::Failed(error) => panic!("{error:?}"),
        };
    };
    assert_eq!(tree.flatten().len(), 2);
}
