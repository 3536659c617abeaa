//! An incremental snapshot engine for a directory tree.
//!
//! Each backup run produces a generation, named by a minute-resolution timestamp
//! label. A generation physically owns the files that changed since the previous
//! run and refers to earlier generations for the rest. The library decides what
//! to copy, how references are recorded, how a generation resolves back to
//! physical copies, and how an intermediate generation is compacted away. Disk
//! access, the clock and the reference index's storage are left to the caller.

pub mod keyed;
pub mod stamp;
pub mod store;
pub mod engine;
pub mod laws;
pub mod restore;
pub mod compact;
pub mod catalog;
