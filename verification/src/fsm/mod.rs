//! Free space map: a per-page max-tree of space categories, and the
//! addressing of those trees over the pages of the free space map file.
pub mod binary_tree;
pub mod fsm;
pub mod map;
