//! Validation of typed command lines against a hierarchical command grammar.
//!
//! A grammar is a tree of named, depth-tagged nodes held in an arena. A line
//! of tokens is matched against it from a chosen node, and `cd`-style
//! commands move that node around the tree.

pub mod arena;
pub mod lineage;
pub mod matcher;
pub mod navigation;
pub mod node;
pub mod render;
pub mod session;
pub mod token;
pub mod tree;
pub mod yaml;

pub use crate::node::{Depth, Node};
pub use crate::session::{Cli, CliConfig, CliError};
pub use crate::tree::{subtree_count, NodeArena, Tree};
pub use indextree::NodeId;
