//! The layout side: the partition of one parent's span, the layout of a whole
//! tree, and the hue bands.

pub mod layout;
pub mod tree_view;
pub mod tree_view_theme;

pub use layout::{layout_children, ChildShare, ChildSpan, ChildrenLayout, Frame};
pub use tree_view::{layout_tree, DiskUsageTreeOptions, LayoutNode, TreeLayout};
pub use tree_view_theme::{DescendentColorRange, Rgb, HUE_SCALE};
