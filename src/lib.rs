use vstd::prelude::*;

/// Addresses of nodes: non-empty paths of child offsets.
pub mod index;
/// Ordered trees, and the model of them that the contracts speak of: addresses, reachability
/// and the pre-order listing.
pub mod tree;
/// Lookups and navigation on a tree: children, descendants, siblings, parents, the nodes
/// before and after one in pre-order, repair of stale addresses and linear positions.
pub mod view;
/// Pre-order traversals that keep an explicit stack: plain, with depths, with addresses.
pub mod iter;
/// Which run of variable-height items a viewport shows, around a selection.
pub mod window;
/// The state a tree view keeps between renders, and the actions that change it.
pub mod state;
/// A queue of events with the one being handled.
pub mod events;
/// Laws that relate the operations to one another.
pub mod laws;

pub use index::TreeIndex;
pub use tree::TreeNode;
pub use iter::TreeIter;
pub use iter::TreeIterWithDepth;
pub use iter::TreeIterWithIndex;
pub use state::TreeState;
pub use events::Events;
pub use window::get_items_bounds;
pub use view::compare_indices;

verus! {

} // verus!
