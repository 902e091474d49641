# ext2_fuse

An ext2 file system served through FUSE. The logic is a library verified with
Verus; the program around it opens the device, mounts the file system and
passes requests on.

## Layout

- `src/` is the verified library.
  - `device`, `bytes`: the device, and values with a fixed layout on it.
  - `superblock`, `group`, `inode`: the records of ext2.
  - `layout`, `fs`: where things stand, loading and storing them.
  - `allocation`, `indirect`, `file`, `append`: bitmaps, block numbers, contents.
  - `dirent`, `directory`: walking, listing and extending directories.
  - `filesystem`: the operations that FUSE asks for.
  - `wellformed`, `creation`, `growth`, `laws`: what holds of the operations
    together.
- `tests/` runs the library on an image in memory.
- `app/` is the program: `main`, the medium and the replies to FUSE.

## How the contracts are written

A `Device` records, as ghost state, every request to its medium and the reply to
it. Its contract ties each entry of the record to one call of the medium, and to
no other. From the requests since a checkpoint it follows which contents of the
medium agree with all replies, and what it holds now if it held them: for a
medium that stores what it is given, its true contents always agree. The contract
of an operation says, for all contents that agree, that its answer and the
contents that it leaves are what a specification function makes of the contents
at the call. Nothing is taken for granted of the medium: where a request fails,
the operation answers `EIO`. After that, or whenever the medium may have been
changed from outside, a new checkpoint is made.

The laws in `wellformed`, `creation` and `growth` speak of file systems whose
parts stand apart from one another. Each byte of the device belongs to a zone
(superblock, descriptors, bitmaps, inodes, data), and a range in one zone never
overlaps one in another.

## What is not proved

`String::from_utf8_lossy` is believed to decode bytes that are UTF-8, and to
give a text that depends on the bytes alone otherwise. The program in `app/`,
which implements the medium and talks to FUSE, is not verified.
