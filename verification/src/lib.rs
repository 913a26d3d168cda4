//! Branching overlay filesystem: the rules, verified.

pub mod branch;
pub mod changes;
pub mod commit;
pub mod commit_laws;
pub mod context;
pub mod control;
pub mod daemon;
pub mod errors;
pub mod fs;
pub mod inode;
pub mod journal;
pub mod laws;
pub mod listing_laws;
pub mod lookup;
pub mod manager;
pub mod merge;
pub mod mount_laws;
pub mod names;
pub mod operations;
pub mod order;
pub mod paths;
pub mod quota;
pub mod records;
pub mod rename;
pub mod resolve;
pub mod revert;
pub mod side_bytes;
pub mod size;
pub mod snapshot;
pub mod snapshot_laws;
pub mod staged;
pub mod staged_laws;
pub mod staging;
pub mod table;
pub mod text;
pub mod tree;
pub mod writes;

