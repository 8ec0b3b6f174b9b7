//! The configuration of a traversal, the filter that admits or rejects a
//! path, and the ordering of what one directory holds.

use crate::entry::DirEntry;
use crate::entry::DirEntryView;
use crate::entry::EntryKind;
use crate::order::insert_sorted;
use crate::order::sort_by_path;
use crate::order::sorted_by_path;
use crate::path::has_dotted_component;
use crate::path::is_dotted;
use crate::path::same_path;
use vstd::prelude::*;

verus! {

/// Mathematical value of a [`Walker`]: what a traversal is configured with.
pub struct Config {
    /// The path to start from, as it was given.
    pub root: Seq<u8>,
    /// Reject every path with a component that begins with a dot.
    pub skip_dotted: bool,
    /// The host takes the backward slash for a separator of path components,
    /// beside the forward slash.
    pub backslash_separates: bool,
    /// The absolute paths to reject.
    pub skip_directories: Seq<Seq<u8>>,
    /// The greatest depth at which a node is kept.
    pub max_depth: nat,
    /// The greatest number of records in the tree.
    pub max_entries: nat,
}

impl Config {
    /// The configuration that a new [`Walker`] has.
    pub open spec fn new(root: Seq<u8>) -> Config {
        Config {
            root,
            skip_dotted: false,
            backslash_separates: false,
            skip_directories: Seq::empty(),
            max_depth: 100,
            max_entries: 10_000,
        }
    }

    /// The cap on the records is a positive number.
    pub open spec fn wf(self) -> bool {
        self.max_entries >= 1
    }

    /// The filter: `path` is rejected where it is one of the excluded paths, or
    /// where dotted names are skipped and one of its components begins with a
    /// dot; any other path is admitted. Where a component begins is told by
    /// the separators of the host.
    pub open spec fn admits(self, path: Seq<u8>) -> bool {
        &&& !self.skip_directories.contains(path)
        &&& !(self.skip_dotted && has_dotted_component(path, self.backslash_separates))
    }

    /// The records of the given kind that the filter admits.
    pub open spec fn selects(self, kind: EntryKind) -> spec_fn(DirEntryView) -> bool {
        |entry: DirEntryView| entry.kind == kind && self.admits(entry.path)
    }

    /// The admitted records of `listing` of the given kind, sorted by path.
    pub open spec fn entries_of(self, listing: Seq<DirEntryView>, kind: EntryKind) -> Seq<
        DirEntryView,
    > {
        sort_by_path(listing.filter(self.selects(kind)))
    }

    /// What the traversal takes from the listing of one directory: the
    /// admitted directories sorted by path, then the admitted files sorted by
    /// path. Symbolic links and entries of any other kind are left out.
    pub open spec fn read(self, listing: Seq<DirEntryView>) -> Seq<DirEntryView> {
        self.entries_of(listing, EntryKind::Directory) + self.entries_of(listing, EntryKind::File)
    }
}

/// Configures a traversal. Start with [`Walker::new`], set the options, then
/// begin the traversal with [`Walker::walk_dir`].
pub struct Walker {
    root: Vec<u8>,
    skip_dotted: bool,
    backslash_separates: bool,
    skip_directories: Vec<Vec<u8>>,
    max_depth: usize,
    max_entries: usize,
}

impl View for Walker {
    type V = Config;

    closed spec fn view(&self) -> Config {
        Config {
            root: self.root@,
            skip_dotted: self.skip_dotted,
            backslash_separates: self.backslash_separates,
            skip_directories: self.skip_directories.deep_view(),
            max_depth: self.max_depth as nat,
            max_entries: self.max_entries as nat,
        }
    }
}

impl Walker {
    /// Every walker is configured soundly.
    #[verifier::type_invariant]
    pub open spec fn inv(self) -> bool {
        self@.wf()
    }

    /// A traversal that starts from `root`, with the defaults: dotted names
    /// are kept, no path is excluded, the depth is capped at 100 and the
    /// number of records at 10000. The forward slash alone separates the
    /// components of a path, until `backslash_separates` says otherwise.
    pub fn new(root: Vec<u8>) -> (walker: Walker)
        ensures
            walker@ == Config::new(root@),
    {
        let walker = Walker {
            root,
            skip_dotted: false,
            backslash_separates: false,
            skip_directories: Vec::new(),
            max_depth: 100,
            max_entries: 10_000,
        };
        assert(walker.skip_directories.deep_view() =~= Seq::<Seq<u8>>::empty());
        walker
    }

    /// Skips every path that has a component beginning with a dot.
    pub fn skip_dotted(self) -> (walker: Walker)
        ensures
            walker@ == (Config { skip_dotted: true, ..self@ }),
    {
        proof {
            use_type_invariant(&self);
        }
        let mut walker = self;
        walker.skip_dotted = true;
        walker
    }

    /// Tells the separators of the host: with `separates` the backward slash
    /// separates the components of a path as the forward slash does, without
    /// it the backward slash is a byte of a name. The filter of dotted names
    /// goes by this.
    pub fn backslash_separates(self, separates: bool) -> (walker: Walker)
        ensures
            walker@ == (Config { backslash_separates: separates, ..self@ }),
    {
        proof {
            use_type_invariant(&self);
        }
        let mut walker = self;
        walker.backslash_separates = separates;
        walker
    }

    /// Skips the given directories, and with them what they hold. The paths
    /// are compared byte by byte with the absolute paths of the entries, so
    /// each is to be given in its canonical absolute form. An earlier list is
    /// replaced.
    pub fn skip_directories(self, directories: Vec<Vec<u8>>) -> (walker: Walker)
        ensures
            walker@ == (Config { skip_directories: directories.deep_view(), ..self@ }),
    {
        proof {
            use_type_invariant(&self);
        }
        let mut walker = self;
        walker.skip_directories = directories;
        walker
    }

    /// Keeps no node that lies deeper than `depth`; the immediate children of
    /// the root lie at depth 0.
    pub fn max_depth(self, depth: usize) -> (walker: Walker)
        ensures
            walker@ == (Config { max_depth: depth as nat, ..self@ }),
    {
        proof {
            use_type_invariant(&self);
        }
        let mut walker = self;
        walker.max_depth = depth;
        walker
    }

    /// Caps the number of records in the tree, the root's among them, at
    /// `max`, which is a positive number.
    pub fn max_entries(self, max: usize) -> (walker: Walker)
        requires
            max >= 1,
        ensures
            walker@ == (Config { max_entries: max as nat, ..self@ }),
    {
        let mut walker = self;
        walker.max_entries = max;
        walker
    }

    /// The path that the traversal starts from, as it was given to `new`.
    pub fn root(&self) -> (root: &Vec<u8>)
        ensures
            root@ == self@.root,
    {
        &self.root
    }

    /// The cap on the number of records.
    pub fn entry_cap(&self) -> (cap: usize)
        ensures
            cap == self@.max_entries,
    {
        self.max_entries
    }

    /// The cap on the depth of a node.
    pub fn depth_cap(&self) -> (cap: usize)
        ensures
            cap == self@.max_depth,
    {
        self.max_depth
    }

    /// The filter. Returns `true` where `path` is admitted, `false` where it
    /// is to be skipped: what passes this test stays.
    pub fn should_skip(&self, path: &Vec<u8>) -> (admitted: bool)
        ensures
            admitted == self@.admits(path@),
    {
        let mut i: usize = 0;
        while i < self.skip_directories.len()
            invariant
                i <= self.skip_directories.len(),
                forall|k: int|
                    0 <= k < i ==> (#[trigger] self.skip_directories.deep_view()[k]) != path@,
            decreases self.skip_directories.len() - i,
        {
            assert(self.skip_directories.deep_view()[i as int]
                =~= self.skip_directories[i as int]@);
            if same_path(&self.skip_directories[i], path) {
                return false;
            }
            i += 1;
        }
        !(self.skip_dotted && is_dotted(path, self.backslash_separates))
    }

    /// Takes from the listing of a directory the entries that the filter
    /// admits and that are no symbolic links: the directories among them,
    /// sorted by path, and the regular files among them, sorted by path.
    pub fn get_entries(&self, listing: Vec<DirEntry>) -> (found: (Vec<DirEntry>, Vec<DirEntry>))
        ensures
            found.0.deep_view() == self@.entries_of(listing.deep_view(), EntryKind::Directory),
            found.1.deep_view() == self@.entries_of(listing.deep_view(), EntryKind::File),
    {
        let ghost all = listing.deep_view();
        let mut dirs: Vec<DirEntry> = Vec::new();
        let mut files: Vec<DirEntry> = Vec::new();
        proof {
            reveal(Seq::filter);
        }
        for entry in it: listing
            invariant
                it.seq() == listing@,
                all == listing.deep_view(),
                dirs.deep_view() == self@.entries_of(
                    all.take(it.index() as int),
                    EntryKind::Directory,
                ),
                files.deep_view() == self@.entries_of(
                    all.take(it.index() as int),
                    EntryKind::File,
                ),
                sorted_by_path(dirs.deep_view()),
                sorted_by_path(files.deep_view()),
        {
            proof {
                // One more record has been seen: the selections grow by it or stay.
                let seen = all.take(it.index() as int);
                let kept_dirs = seen.filter(self@.selects(EntryKind::Directory));
                let kept_files = seen.filter(self@.selects(EntryKind::File));
                assert(all.take(it.index() + 1) =~= seen.push(entry@));
                seen.lemma_filter_push(entry@, self@.selects(EntryKind::Directory));
                seen.lemma_filter_push(entry@, self@.selects(EntryKind::File));
                assert(kept_dirs.push(entry@).drop_last() =~= kept_dirs);
                assert(kept_files.push(entry@).drop_last() =~= kept_files);
            }
            if self.should_skip(&entry.path) {
                match entry.kind {
                    EntryKind::Directory => {
                        insert_sorted(&mut dirs, entry);
                    },
                    EntryKind::File => {
                        insert_sorted(&mut files, entry);
                    },
                    _ => {},
                }
            }
        }
        assert(all.take(listing@.len() as int) =~= all);
        (dirs, files)
    }

    /// Orders the listing of a directory as the tree holds it: the admitted
    /// directories sorted by path, then the admitted files sorted by path.
    pub fn read_entries(&self, listing: Vec<DirEntry>) -> (entries: Vec<DirEntry>)
        ensures
            entries.deep_view() == self@.read(listing.deep_view()),
    {
        let (mut dirs, mut files) = self.get_entries(listing);
        dirs.append(&mut files);
        dirs
    }
}

} // verus!
