//! The file-system side: what the walker sees, and the tree that the
//! aggregator builds from it.

pub mod du_tree;
pub mod entity;
pub mod path;
pub mod registration_order;
pub mod walk_dir_level_order;

pub use du_tree::{AggregateDelta, DiskUsageTree, OrphanNodeError, TreeNode};
pub use entity::{Error, FileKind, FsEntity, FsEntityView, FsMetadata};
pub use walk_dir_level_order::{
    dir_entry_to_fs_entity, sort_entries, walk_dir, DirEntryData, LevelOrderDirTraversal,
};
