//! The logic of an ext2 file system that is served through FUSE.
//!
//! What is stored on the device is described by functions of its bytes, and
//! what each operation answers and leaves on the device is stated over them.

pub mod bytes;
pub mod device;
pub mod errno;

pub mod group;
pub mod inode;
pub mod superblock;

pub mod fs;
pub mod layout;

pub mod allocation;
pub mod append;
pub mod directory;
pub mod dirent;
pub mod file;
pub mod indirect;

pub mod filesystem;

pub mod adding;
pub mod answers;
pub mod contents;
pub mod creation;
pub mod entries;
pub mod growth;
pub mod laws;
pub mod newfiles;
pub mod plain;
pub mod taking;
pub mod wellformed;
