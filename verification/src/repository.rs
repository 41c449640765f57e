//! The repository: staging index, references, configuration, and the
//! operations that combine them with the object store.

pub mod add;
pub mod commit;
pub mod config;
pub mod index;
pub mod refs;
pub mod repo;
pub mod status;
pub mod utils;
