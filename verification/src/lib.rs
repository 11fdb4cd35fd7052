//! An arena-backed ordered tree whose nodes are named by stable handles.
//!
//! Nodes live in a slot table that recycles freed slots. Every node keeps
//! links to its parent, its first and last child and its two neighbouring
//! siblings, so appending a child and splicing a node out are constant-time
//! pointer updates. All public operations carry contracts stated over
//! [`TreeModel`], the mathematical tree that an [`OptTree`] stands for.
//!
//! The modules fall into three groups.
//!
//! * The data: [`node_id`], [`error`], [`behaviors`], [`node`], [`tree`] and
//!   [`builder`].
//! * The mathematics: [`model`] defines the tree as a value and what it
//!   means for it to be well formed; [`order`] and [`subtree`] define the
//!   three traversal orders and show that each visits a subtree once;
//!   [`removal`], [`moving`], [`swapping`] and [`sorting`] define what the
//!   mutating operations do to the model and show that they keep it well
//!   formed; [`laws`] states what holds of every tree.
//! * The operations on the stored tree: [`traverse`] and [`cursors`] read
//!   it, [`remove`], [`move_node`], [`swap`] and [`sort`] change it.

pub mod behaviors;
pub mod builder;
pub mod cursors;
pub mod error;
pub mod laws;
pub mod model;
pub mod move_node;
pub mod moving;
pub mod node;
pub mod node_id;
pub mod order;
pub mod removal;
pub mod remove;
pub mod sort;
pub mod sorting;
pub mod subtree;
pub mod swap;
pub mod swapping;
pub mod traverse;
pub mod tree;

mod arena;

pub use crate::behaviors::{InsertBehavior, MoveBehavior, RemoveBehavior, SwapBehavior};
pub use crate::builder::OptTreeBuilder;
pub use crate::cursors::{Ancestors, Children, LevelOrder, PostOrder, PreOrder};
pub use crate::error::NodeIdError;
pub use crate::model::{NodeModel, TreeModel};
pub use crate::node::{NodeView, OptNode};
pub use crate::node_id::NodeId;
pub use crate::tree::OptTree;
