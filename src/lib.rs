//! A small simulated filesystem: a fixed pool of blocks, inodes that own
//! lists of blocks, and directories that bind names to inodes.

pub mod disk;
pub mod inode;
pub mod directory;
pub mod fs;
pub mod session;
