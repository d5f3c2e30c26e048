//! File systems: the ext4 journal (JBD2) and the disk it writes to; ext4
//! on disk (superblock, inodes, extent and block maps, file data,
//! directories, mounting with journal replay); tmpfs files and
//! directories; FAT32 boot parameters, 8.3 names and cluster chains.
use vstd::prelude::*;

pub mod journal;
pub mod ext4;
pub mod tmpfs;
pub mod fat32;

verus! {
} // verus!
