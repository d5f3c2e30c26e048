use vstd::prelude::*;

verus! {

/// Error numbers returned by file and IPC operations (positive errno values).
pub type VfsError = i32;

pub const ENOENT: VfsError = 2;
pub const EIO: VfsError = 5;
pub const EBADF: VfsError = 9;
pub const EAGAIN: VfsError = 11;
pub const ENOMEM: VfsError = 12;
pub const EEXIST: VfsError = 17;
pub const ENODEV: VfsError = 19;
pub const ENOTDIR: VfsError = 20;
pub const EISDIR: VfsError = 21;
pub const EINVAL: VfsError = 22;
pub const EPIPE: VfsError = 32;
pub const ENOTEMPTY: VfsError = 39;

} // verus!
