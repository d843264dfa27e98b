//! A small block file system kept in one disk image.
//!
//! Block 0 is the superblock, then come the bitmap of free space, the table of inodes, and the data
//! blocks. `fs`, `file` and `tree` answer the requests of a file system: attributes, listings,
//! reading and writing, making and removing files and directories.
//!
//! The disk is an image in memory. Every change of it is also kept as a command, and whoever holds
//! the backing file takes the commands and carries them out; `flush` shows that the file is then up
//! to date.
//!
//! A request may come to a block that the disk does not have, or to a damaged structure. Each such
//! function says in its `requires` when that cannot happen, and has a companion `try_..` that can
//! always be called and answers nothing where it does. What the companion had written until then
//! stays written.
//!
//! Functions that read the clock have a companion `.._at` that takes the time as an argument.
//!
//! What holds of the file system as a whole is proved in `space`, `progress`, `flush`, `session`,
//! `round_trips` and the modules whose names end in `_laws`, as proof functions named `law_..`.
//! `layout_laws`, `contents_laws`, `answer_laws` and `request_laws` say in numbers how the disk is
//! laid out and what requests are answered.

pub mod answer_laws;
pub mod bitmap;
pub mod bytes;
pub mod consistent;
pub mod contents_laws;
pub mod directory;
pub mod directory_laws;
pub mod disk;
pub mod file;
pub mod file_laws;
pub mod flush;
pub mod fs;
pub mod fs_laws;
pub mod inode;
pub mod layout_laws;
pub mod links;
pub mod path;
pub mod path_laws;
pub mod progress;
pub mod removal_laws;
pub mod request_laws;
pub mod round_trips;
pub mod search;
pub mod session;
pub mod sound;
pub mod space;
pub mod superblock;
pub mod tree;
pub mod tree_laws;
