//! Reader and packer of `resources.db` archives, the pack files of the Vostok
//! engine's virtual file system.
//!
//! An archive file is a 24-byte header, a node buffer (the file allocation
//! table), and a blob of payloads:
//!
//! ```text
//! [ header ][ node buffer ][ data blob ]
//! ```
//!
//! The node buffer is a packed tree of nodes of variable length. Pointers in it
//! are byte offsets from its start, 0 standing for none. Payloads lie in the
//! blob, at absolute offsets in the file. All integers are little-endian.
//!
//! * Reading: `fat` opens an archive, lists it and reads its files, `walk` says
//!   when a table can be listed, and `listing` holds what a front end shows and
//!   where it extracts.
//! * Packing: `source` builds the tree of files, `assemble` the archive of a
//!   tree, by way of the tables of `layout` and `pack`.
//! * What holds of the two together: `roundtrip`, `placement`, `readback` and
//!   `order`.
//! * What they do in numbers: `format` of reading, `tree`, `copies` and `table` of
//!   packing.
//! * `ppmd` decodes compressed payloads.

pub mod assemble;
pub mod bytes;
pub mod copies;
pub mod fat;
pub mod flags;
pub mod format;
pub mod layout;
pub mod listing;
pub mod order;
pub mod pack;
pub mod placement;
pub mod ppmd;
pub mod readback;
pub mod roundtrip;
pub mod source;
pub mod table;
pub mod tree;
pub mod walk;

pub use fat::{Archive, FileEntry, NodeKind};
