//! Tracks filesystem paths known to contain git repositories under
//! user-chosen aliases.
//!
//! The library models a directory subtree as plain data (`scan::DirTree`),
//! classifies each directory as a repository or not by the presence of a
//! direct child named `.git`, maintains a registry of alias -> repository
//! records with unique aliases, and encodes/decodes that registry to the
//! text format it is persisted in.

pub mod codec;
pub mod err;
pub mod registry;
pub mod repo;
pub mod scan;
pub mod validate;
