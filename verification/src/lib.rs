//! Disk-space accounting and guarded removal: what a scan of a volume covers,
//! what may be deleted, and what is reported about it.
//!
//! Everything here works on plain values. Reading directories, mount tables
//! and the environment, and touching the disk, is the caller's part; the
//! functions below decide what those readings mean.

pub mod access;
pub mod appearance;
pub mod bundle;
pub mod deletion;
pub mod descent;
pub mod export;
pub mod fault;
pub mod guards;
pub mod judge;
pub mod laws;
pub mod lists;
pub mod marks;
pub mod menu;
pub mod mounts;
pub mod order;
pub mod path;
pub mod platform;
pub mod removal;
pub mod size;
pub mod space;
pub mod sweep;
pub mod system;
pub mod text;
pub mod trash;
pub mod tree;
pub mod wide;
pub mod windows;
pub mod worker;
pub mod xdg;
