//! The errors that an operation can be answered with.

use vstd::prelude::*;

verus! {

#[derive(Clone, Copy, Debug, PartialEq, Eq, Structural)]
pub enum Errno {
    /// No such file or directory.
    ENOENT,
    /// The device failed, or what it holds is malformed.
    EIO,
    /// Not a directory.
    ENOTDIR,
    /// No space is left.
    ENOSPC,
    /// An argument that the file system cannot represent.
    EINVAL,
}

} // verus!
