//! A persistent tree-of-nodes state container.
//!
//! A [`State`] is an immutable snapshot of a tree whose nodes carry
//! stable identities.  Edits are expressed through short mutation
//! sessions: the edited node is copied, its ancestors are rebuilt on
//! the way to the root, and every untouched subtree is shared between
//! the old and the new snapshot.  Each snapshot carries a persistent
//! identity index that maps every reachable node id to the node.

pub mod context;
pub mod id;
pub mod index;
pub mod model;
pub mod node;
pub mod state;

pub use context::Context;
pub use id::IdAllocator;
pub use id::ID;
pub use node::Child;
pub use node::Header;
pub use node::MakeMutRef;
pub use node::Node;
pub use node::TreeNode;
pub use state::MutRef;
pub use state::State;
