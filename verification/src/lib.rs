//! A local, single-user revision-tracking engine: a content-addressed object
//! store, a staging index, reference pointers, and the status comparison of
//! last commit, index and working directory.
//!
//! The repository is an explicit value: every operation takes the state it
//! reads and returns or updates the state it changes. Nothing here touches the
//! file system.

pub mod error;
pub mod hexcode;
pub mod objects;
pub mod path_map;
pub mod repository;
pub mod scan;
pub mod text;
