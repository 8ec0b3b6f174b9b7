use dir_walker::entry::{DirEntry, Entry, EntryItem, EntryKind};
use dir_walker::path::{is_dotted, path_le, same_bytes, same_path, separates};
use dir_walker::walk::{get_parent_entry, WalkError};
use dir_walker::walker::Walker;

fn bytes(text: &str) -> Vec<u8> {
    text.as_bytes().to_vec()
}

fn unit_record(path: &str, kind: EntryKind) -> DirEntry {
    let name = path.rsplit('/').next().unwrap();
    DirEntry::new(bytes(path), bytes(name), kind)
}

fn paths_of(entries: &[DirEntry]) -> Vec<String> {
    entries.iter().map(|e| String::from_utf8(e.path().clone()).unwrap()).collect()
}

fn node(path: &str, kind: EntryKind, depth: usize, children: Vec<Entry>) -> Entry {
    Entry::new(children, Some(unit_record(path, kind)), depth)
}

#[test]
fn filter_admits_a_plain_path() {
    let walker = Walker::new(bytes("/r")).skip_dotted().skip_directories(vec![bytes("/r/x")]);
    assert!(walker.should_skip(&bytes("/r/a/b.txt")));
}

#[test]
fn filter_rejects_an_excluded_path() {
    let walker = Walker::new(bytes("/r")).skip_directories(vec![bytes("/r/x"), bytes("/r/y")]);
    assert!(!walker.should_skip(&bytes("/r/x")));
    assert!(!walker.should_skip(&bytes("/r/y")));
    assert!(walker.should_skip(&bytes("/r/z")));
}

#[test]
fn filter_compares_excluded_paths_as_a_whole() {
    let walker = Walker::new(bytes("/r")).skip_directories(vec![bytes("/r/x")]);
    assert!(walker.should_skip(&bytes("/r/x/inside")));
    assert!(walker.should_skip(&bytes("/r/xy")));
    assert!(walker.should_skip(&bytes("/r")));
    assert!(walker.should_skip(&bytes("/r/x/")));
}

#[test]
fn filter_rejects_dotted_components_when_asked_to() {
    let walker = Walker::new(bytes("/r")).skip_dotted();
    assert!(!walker.should_skip(&bytes("/r/.git")));
    assert!(!walker.should_skip(&bytes("/r/.git/HEAD")));
    assert!(!walker.should_skip(&bytes("/r/a/.hidden")));
    assert!(!walker.should_skip(&bytes(".git")));
    assert!(walker.should_skip(&bytes("/r/a.b")));
    assert!(walker.should_skip(&bytes("/r/a./b")));
    assert!(walker.should_skip(&bytes("/r/a")));
}

#[test]
fn filter_takes_the_backslash_for_a_separator_where_the_host_does() {
    let walker = Walker::new(bytes("C:\\r")).skip_dotted().backslash_separates(true);
    assert!(!walker.should_skip(&bytes("C:\\r\\.git")));
    assert!(!walker.should_skip(&bytes("C:\\r/.git")));
    assert!(!walker.should_skip(&bytes("/r/a\\.b")));
    assert!(walker.should_skip(&bytes("C:\\r\\git.d")));
}

#[test]
fn filter_takes_the_backslash_for_a_byte_of_a_name_where_the_host_does() {
    // The two components are `r` and `a\.b`: none begins with a dot.
    let walker = Walker::new(bytes("/r")).skip_dotted();
    assert!(walker.should_skip(&bytes("/r/a\\.b")));
    assert!(walker.should_skip(&bytes("/r/\\.b")));
    assert!(!walker.should_skip(&bytes("/r/.a\\b")));
    let walker = Walker::new(bytes("/r")).skip_dotted().backslash_separates(false);
    assert!(walker.should_skip(&bytes("/r/a\\.b")));
}

#[test]
fn separators_are_those_of_the_host() {
    assert!(separates(b'/', false));
    assert!(separates(b'/', true));
    assert!(separates(b'\\', true));
    assert!(!separates(b'\\', false));
    assert!(!separates(b'.', true));
    assert!(!separates(b'a', false));
}

#[test]
fn filter_keeps_dotted_names_by_default() {
    let walker = Walker::new(bytes("/r"));
    assert!(walker.should_skip(&bytes("/r/.git")));
}

#[test]
fn filter_puts_the_exclusion_before_the_dots() {
    let walker = Walker::new(bytes("/r")).skip_dotted().skip_directories(vec![bytes("/r/.x")]);
    assert!(!walker.should_skip(&bytes("/r/.x")));
}

#[test]
fn dotted_component_is_found_at_a_component_start_only() {
    for backslash in [false, true] {
        assert!(is_dotted(&bytes("."), backslash));
        assert!(is_dotted(&bytes("./a"), backslash));
        assert!(is_dotted(&bytes("/a/.b"), backslash));
        assert!(is_dotted(&bytes("/a/.."), backslash));
        assert!(!is_dotted(&bytes(""), backslash));
        assert!(!is_dotted(&bytes("/a/b.c"), backslash));
        assert!(!is_dotted(&bytes("a."), backslash));
        assert!(!is_dotted(&bytes("/"), backslash));
    }
    assert!(is_dotted(&bytes("a\\.b"), true));
    assert!(!is_dotted(&bytes("a\\.b"), false));
    assert!(!is_dotted(&bytes("/r/a\\.b"), false));
}

#[test]
fn paths_are_ordered_byte_by_byte() {
    assert!(path_le(&bytes(""), &bytes("")));
    assert!(path_le(&bytes(""), &bytes("a")));
    assert!(!path_le(&bytes("a"), &bytes("")));
    assert!(path_le(&bytes("a"), &bytes("a")));
    assert!(path_le(&bytes("a"), &bytes("ab")));
    assert!(!path_le(&bytes("ab"), &bytes("a")));
    assert!(path_le(&bytes("/r/.git"), &bytes("/r/a")));
    assert!(!path_le(&bytes("/r/a"), &bytes("/r/.git")));
    assert!(path_le(&bytes("/r/B"), &bytes("/r/a")));
    assert!(path_le(&bytes("/r/a10"), &bytes("/r/a9")));
    assert!(path_le(&vec![0x7f], &vec![0x80]));
    assert!(!path_le(&vec![0xff], &vec![0x00, 0xff]));
}

#[test]
fn paths_are_equal_where_their_bytes_are() {
    assert!(same_path(&bytes("/r/a"), &bytes("/r/a")));
    assert!(!same_path(&bytes("/r/a"), &bytes("/r/b")));
    assert!(!same_path(&bytes("/r/a"), &bytes("/r/a/")));
    assert!(same_path(&bytes(""), &bytes("")));
    assert!(same_bytes(b"lib.rs", "lib.rs".as_bytes()));
    assert!(!same_bytes(b"lib.rs", b"lib.r"));
}

#[test]
fn reader_puts_directories_first_and_sorts_each_group() {
    let walker = Walker::new(bytes("/r"));
    let listing = vec![
        unit_record("/r/m.txt", EntryKind::File),
        unit_record("/r/z", EntryKind::Directory),
        unit_record("/r/a.txt", EntryKind::File),
        unit_record("/r/b", EntryKind::Directory),
        unit_record("/r/.c", EntryKind::Directory),
        unit_record("/r/Z.txt", EntryKind::File),
    ];
    let entries = walker.read_entries(listing);
    assert_eq!(
        paths_of(&entries),
        vec!["/r/.c", "/r/b", "/r/z", "/r/Z.txt", "/r/a.txt", "/r/m.txt"]
    );
}

#[test]
fn reader_leaves_out_links_and_other_kinds() {
    let walker = Walker::new(bytes("/r"));
    let listing = vec![
        unit_record("/r/socket", EntryKind::Other),
        unit_record("/r/link", EntryKind::Symlink),
        unit_record("/r/f", EntryKind::File),
    ];
    let entries = walker.read_entries(listing);
    assert_eq!(paths_of(&entries), vec!["/r/f"]);
    assert_eq!(entries[0].kind(), EntryKind::File);
}

#[test]
fn reader_leaves_out_what_the_filter_rejects() {
    let walker = Walker::new(bytes("/r")).skip_dotted().skip_directories(vec![bytes("/r/out")]);
    let listing = vec![
        unit_record("/r/out", EntryKind::Directory),
        unit_record("/r/.dot", EntryKind::File),
        unit_record("/r/in", EntryKind::Directory),
        unit_record("/r/f", EntryKind::File),
    ];
    assert_eq!(paths_of(&walker.read_entries(listing)), vec!["/r/in", "/r/f"]);
}

#[test]
fn reader_of_an_empty_listing_gives_nothing() {
    let walker = Walker::new(bytes("/r"));
    assert!(walker.read_entries(Vec::new()).is_empty());
}

#[test]
fn reader_keeps_the_order_of_records_with_one_path() {
    let walker = Walker::new(bytes("/r"));
    let listing = vec![
        DirEntry::new(bytes("/r/b"), bytes("second"), EntryKind::File),
        DirEntry::new(bytes("/r/a"), bytes("one"), EntryKind::File),
        DirEntry::new(bytes("/r/b"), bytes("first"), EntryKind::File),
        DirEntry::new(bytes("/r/a"), bytes("two"), EntryKind::File),
    ];
    let names: Vec<Vec<u8>> =
        walker.read_entries(listing).into_iter().map(|e| e.file_name).collect();
    assert_eq!(names, vec![bytes("one"), bytes("two"), bytes("second"), bytes("first")]);
}

#[test]
fn reader_sorts_a_long_listing() {
    let walker = Walker::new(bytes("/r"));
    let mut listing = Vec::new();
    for i in 0..200u32 {
        let n = (i * 7919) % 200;
        listing.push(unit_record(&format!("/r/f{n:03}"), EntryKind::File));
    }
    let entries = walker.read_entries(listing);
    assert_eq!(entries.len(), 200);
    for (i, entry) in entries.iter().enumerate() {
        assert_eq!(entry.path(), &bytes(&format!("/r/f{i:03}")));
    }
}

#[test]
fn get_entries_gives_the_two_groups() {
    let walker = Walker::new(bytes("/r"));
    let listing = vec![
        unit_record("/r/f2", EntryKind::File),
        unit_record("/r/d2", EntryKind::Directory),
        unit_record("/r/f1", EntryKind::File),
        unit_record("/r/l", EntryKind::Symlink),
        unit_record("/r/d1", EntryKind::Directory),
    ];
    let (dirs, files) = walker.get_entries(listing);
    assert_eq!(paths_of(&dirs), vec!["/r/d1", "/r/d2"]);
    assert_eq!(paths_of(&files), vec!["/r/f1", "/r/f2"]);
}

#[test]
fn root_record_is_the_first_sibling_with_its_path() {
    let siblings = vec![
        unit_record("/r/a", EntryKind::Directory),
        DirEntry::new(bytes("/r/b"), bytes("first"), EntryKind::File),
        DirEntry::new(bytes("/r/b"), bytes("second"), EntryKind::Directory),
    ];
    let found = get_parent_entry(&bytes("/r/b"), siblings).unwrap();
    assert_eq!(found.file_name(), &bytes("first"));
    assert_eq!(found.kind(), EntryKind::File);
}

#[test]
fn root_record_that_is_missing_is_invalid_input() {
    let siblings = vec![unit_record("/r/a", EntryKind::Directory)];
    assert_eq!(get_parent_entry(&bytes("/r/b"), siblings), Err(WalkError::InvalidInput));
    assert_eq!(get_parent_entry(&bytes("/r/b"), Vec::new()), Err(WalkError::InvalidInput));
}

#[test]
fn kind_is_told_from_the_link_first() {
    assert_eq!(EntryKind::classify(true, true, false), EntryKind::Symlink);
    assert_eq!(EntryKind::classify(true, false, true), EntryKind::Symlink);
    assert_eq!(EntryKind::classify(true, false, false), EntryKind::Symlink);
    assert_eq!(EntryKind::classify(false, true, false), EntryKind::Directory);
    assert_eq!(EntryKind::classify(false, true, true), EntryKind::Directory);
    assert_eq!(EntryKind::classify(false, false, true), EntryKind::File);
    assert_eq!(EntryKind::classify(false, false, false), EntryKind::Other);
}

#[test]
fn record_is_named_by_the_last_component_of_its_path() {
    let named = |path: &str, name: &str, backslash: bool| {
        DirEntry::new(bytes(path), bytes(name), EntryKind::File).named_by_path(backslash)
    };
    for backslash in [false, true] {
        assert!(named("/r/a/b.txt", "b.txt", backslash));
        assert!(named("/r", "r", backslash));
        assert!(named("plain", "plain", backslash));
        assert!(named("/", "", backslash));
        assert!(named("", "", backslash));
        assert!(named("/r/a/", "", backslash));
        assert!(!named("/r/a/b.txt", "a/b.txt", backslash));
        assert!(!named("/r/a/b.txt", "txt", backslash));
        assert!(!named("/r/a/b.txt", "b.txt ", backslash));
        assert!(!named("/r/a/b.txt", "", backslash));
        assert!(!named("/r/a/b.txt", "c.txt", backslash));
    }
    assert!(named("/r/a\\.b", "a\\.b", false));
    assert!(!named("/r/a\\.b", ".b", false));
    assert!(named("/r/a\\.b", ".b", true));
    assert!(!named("/r/a\\.b", "a\\.b", true));
    assert!(named("C:\\r\\x", "x", true));
    assert!(named("C:\\r\\x", "C:\\r\\x", false));
}

#[test]
fn record_gives_back_what_it_was_made_of() {
    let record = DirEntry::new(bytes("/r/a/b.txt"), bytes("b.txt"), EntryKind::File);
    assert_eq!(record.path(), &bytes("/r/a/b.txt"));
    assert_eq!(record.file_name(), &bytes("b.txt"));
    assert_eq!(record.kind(), EntryKind::File);
}

#[test]
fn node_and_item_hold_what_they_were_made_of() {
    let leaf = node("/r/f", EntryKind::File, 3, Vec::new());
    assert_eq!(leaf.depth, 3);
    assert!(leaf.children.is_empty());
    assert_eq!(leaf.dirent, Some(unit_record("/r/f", EntryKind::File)));
    let item = EntryItem::new(unit_record("/r/f", EntryKind::File), 3);
    assert_eq!(item.depth, 3);
    assert_eq!(item.dirent, unit_record("/r/f", EntryKind::File));
}

/// Two directories that both hold a `same.txt`, and a node without a record
/// between them.
fn hand_made() -> Entry {
    let first = node(
        "/r/a",
        EntryKind::Directory,
        0,
        vec![
            node("/r/a/other.txt", EntryKind::File, 1, Vec::new()),
            node("/r/a/same.txt", EntryKind::File, 1, Vec::new()),
        ],
    );
    let bare = Entry::new(vec![node("/r/x/same.txt", EntryKind::File, 1, Vec::new())], None, 0);
    let last = node(
        "/r/b",
        EntryKind::Directory,
        0,
        vec![node("/r/b/same.txt", EntryKind::File, 1, Vec::new())],
    );
    node("/r", EntryKind::Directory, 0, vec![first, bare, last])
}

#[test]
fn flat_view_passes_over_a_node_without_a_record() {
    let items: Vec<(Vec<u8>, usize)> =
        hand_made().flatten().into_iter().map(|i| (i.dirent.path, i.depth)).collect();
    assert_eq!(
        items,
        vec![
            (bytes("/r"), 0),
            (bytes("/r/a"), 0),
            (bytes("/r/a/other.txt"), 1),
            (bytes("/r/a/same.txt"), 1),
            (bytes("/r/x/same.txt"), 1),
            (bytes("/r/b"), 0),
            (bytes("/r/b/same.txt"), 1),
        ]
    );
}

#[test]
fn find_takes_the_first_of_several() {
    let found = hand_made().find("same.txt").unwrap();
    assert_eq!(found.dirent.unwrap().path(), &bytes("/r/a/same.txt"));
}

#[test]
fn find_may_return_the_root() {
    let found = hand_made().find("r").unwrap();
    assert_eq!(found, hand_made());
}

#[test]
fn find_compares_the_name_not_the_path() {
    assert_eq!(hand_made().find("/r/a"), None);
    assert_eq!(hand_made().find("same"), None);
    assert_eq!(hand_made().find(""), None);
}

#[test]
fn find_in_a_tree_without_records_is_none() {
    let bare = Entry::new(vec![Entry::new(Vec::new(), None, 0)], None, 0);
    assert_eq!(bare.find("x"), None);
    let bare = Entry::new(Vec::new(), None, 0);
    assert!(bare.flatten().is_empty());
}

#[test]
fn find_matches_a_name_that_is_not_ascii() {
    let child = node("/r/été.txt", EntryKind::File, 0, Vec::new());
    let tree = node("/r", EntryKind::Directory, 0, vec![child]);
    let found = tree.find("été.txt").unwrap();
    assert_eq!(found.dirent.unwrap().path(), &bytes("/r/été.txt"));
}
