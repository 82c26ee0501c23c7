//! A personal annotation tree over files: a flat index of nodes, each with a
//! parent, an ordered list of children, and symmetric links, maintained under
//! tree invariants.

use vstd::prelude::*;

mod chain;
mod clock;
mod config;
mod index;
mod node;
mod ops;
mod viewmap;

pub use chain::chain;
pub use chain::in_subtree;
pub use chain::lemma_chain_bound;
pub use chain::reaches;
pub use config::no_symbols;
pub use config::spec_symbol;
pub use config::Config;
pub use config::CGTD;
pub use index::Index;
pub use node::contains_key;
pub use node::position_of;
pub use node::root;
pub use node::root_path;
pub use node::Node;
pub use node::NodeView;
pub use node::Status;
pub use ops::{
    add_if_absent, dfs_list, dfs_node, fresh_node_view, inv, keeps, node_ok, not_in,
    resolve_target, scrubbed, spec_add_link, spec_add_result, spec_attach, spec_detach,
    spec_move_result, spec_remove_link, spec_remove_result, wf_snapshot, with_children, with_links,
    with_parent,
};
pub use ops::{
    lemma_add_inv, lemma_add_link_inv, lemma_cascading_removal, lemma_inv_same_structure,
    lemma_link_symmetry, lemma_move_inv,
    lemma_move_rejects_cycles, lemma_remove_clean, lemma_remove_inv, lemma_remove_link_inv,
    lemma_sibling_positioning, lemma_traversal_spans_subtree,
};
pub use viewmap::{keys_of, map_of, views_of};

verus! {

/// How an operation on the index can fail.
#[derive(Clone, Copy, Debug, PartialEq, Eq, Structural)]
pub enum Error {
    /// A referenced key is absent from the index.
    NotFound,
    /// A root already exists at the target location.
    AlreadyInitialized,
    /// A sibling-relative insertion was requested against the root.
    RootHasNoSiblings,
    /// The requested move would place a subtree under itself.
    CycleRejected,
    /// The root cannot be moved.
    CannotMoveRoot,
    /// The root cannot be removed.
    CannotRemoveRoot,
    /// Loading, saving or file allocation failed.
    IoError,
    /// A persisted snapshot does not describe a well-formed index.
    SerializationError,
}

/// The backing file of a new node: an explicit path, or an extension from
/// which a fresh file is to be allocated.
pub enum FilePath {
    Path(String),
    Extension(String),
}

/// An insertion target: as a child of `position` (front or back of its
/// child list) when `is_parent`, else as a sibling of `position` (before
/// or after it).
#[derive(Clone, Copy, Debug, PartialEq, Eq, Structural)]
pub struct Position {
    pub position: Key,
    pub is_front: bool,
    pub is_parent: bool,
}

/// The key of the root node of every index.
pub const ROOT_KEY: u64 = 0;

/// Identifier of a node in the index.
pub type Key = u64;

} // verus!
