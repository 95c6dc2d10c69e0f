//! Incremental backup core: selects every regular file under a root whose
//! modification instant is strictly newer than a cutoff, and stores the
//! selected files, under root-relative names, in an uncompressed zip archive.

pub mod archive;
pub mod fstree;
pub mod laws;
pub mod timestamp;
pub mod walker;
