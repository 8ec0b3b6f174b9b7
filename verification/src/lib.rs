//! Bounded, deterministic traversal of a directory tree.
//!
//! A [`Walker`] holds the configuration: the root, the filter (dotted names,
//! excluded directories) and the two caps (depth, number of records). The
//! traversal itself never touches the file system. [`Walker::walk_dir`]
//! begins a [`Walk`]; while the walk is [`Walk::Reading`], the caller reads
//! the directory it names and hands the listing to [`Traversal::listed`].
//! The walk ends with the tree, an [`Entry`], whose children are ordered:
//! directories first, then files, each group sorted by path. The tree is
//! consumed by [`Entry::flatten`], by iteration, or by [`Entry::find`].
//!
//! ```
//! use dir_walker::{DirEntry, EntryKind, Walk, Walker};
//!
//! // What the directories hold. A real caller reads the file system.
//! fn list(directory: &[u8]) -> Option<Vec<DirEntry>> {
//!     let entry = |path: &[u8], name: &[u8], kind| {
//!         DirEntry::new(path.to_vec(), name.to_vec(), kind)
//!     };
//!     match directory {
//!         b"/" => Some(vec![entry(b"/data", b"data", EntryKind::Directory)]),
//!         b"/data" => Some(vec![entry(b"/data/a.txt", b"a.txt", EntryKind::File)]),
//!         _ => None,
//!     }
//! }
//!
//! let walker = Walker::new(b"/data".to_vec()).skip_dotted().max_depth(3);
//! let mut walk = walker.walk_dir(Some(b"/data".to_vec()), list(b"/"));
//! let tree = loop {
//!     walk = match walk {
//!         Walk::Reading(traversal) => {
//!             let listing = list(traversal.directory());
//!             traversal.listed(listing)
//!         }
//!         Walk::Finished(tree) => break tree,
//!         Walk::Failed(error) => panic!("{error:?}"),
//!     };
//! };
//! assert_eq!(tree.flatten().len(), 2);
//! ```
//!
//! The modules [`shape`] and [`laws`] state what holds of every tree that a
//! traversal ends with; [`model`] gives the traversal as a function of the
//! file system and proves that the steps compute it; [`caps`] says what the
//! two caps keep of that tree.

pub mod caps;
pub mod entry;
pub mod laws;
pub mod model;
pub mod order;
pub mod path;
pub mod shape;
pub mod walk;
pub mod walker;

pub use entry::DirEntry;
pub use entry::Entry;
pub use entry::EntryItem;
pub use entry::EntryKind;
pub use walk::Traversal;
pub use walk::Walk;
pub use walk::WalkError;
pub use walker::Walker;
