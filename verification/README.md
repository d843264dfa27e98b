# SimpleFS

A small block file system, kept in one disk image of 10 MB and mounted through FUSE. The file system
itself is a library in Verus: what each operation does is stated in its contract and proved.

## Layout of the disk

| Blocks     | Contents                                                     |
|------------|--------------------------------------------------------------|
| 0          | superblock, 44 bytes                                         |
| 1 to 5     | bitmap, one bit for each of the 20480 blocks                 |
| 6 to 30    | inode table, six inodes of 84 bytes in each block            |
| 31 to 20479| data blocks, 510 bytes of data in each                       |

A file has ten direct blocks and one indirect block that lists up to 255 more: 135150 bytes. A
directory is a file of entries of 34 bytes, fifteen in each block; the root directory is inode 1.

New files and directories get the lowest free number of the inode table, from 2 to 149. The blocks
of a file that counts several links are freed when the last of its names is removed.

Offsets into a file are words of 64 bits, and block numbers in a file words of 32. An offset that is
negative or far behind the largest size of a file is cut accordingly: a write 510 * 2^32 bytes
further on goes to the same byte.

## Layout of the project

- `src/` is the library. `disk`, `superblock`, `bitmap`, `inode`, `directory` and `path` are the
  structures on the disk; `fs`, `file` and `tree` are the operations; `space`, `sound`, `progress`,
  `flush`, `consistent`, `links`, `session`, `round_trips` and the modules whose names end in `_laws`
  state what holds of them together.
- `tests/` runs the library on concrete disks.
- `app/` keeps the disk file through system calls and answers FUSE.

## What is trusted

Two functions of the standard library: the clock, of which nothing is claimed, and
`std::str::from_utf8`. `app/` is ordinary Rust and is not verified.

## Running

```
mkdir -p /tmp/mnt
simplefs /tmp/mnt
```

The disk is `disk.img` in the current directory. It is made on the first run and kept after that.
