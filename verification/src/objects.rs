//! The immutable objects (blob, tree, commit), their byte encoding and the
//! store that holds them under the address of their content.

pub mod blob;
pub mod commit;
pub mod read;
pub mod store;
pub mod tree;
pub mod update;
