//! A collapsible tree model for text-mode tree widgets.
//!
//! The crate stores a forest of rooted trees as one pre-order flattened
//! sequence of nodes, each annotated with its depth and the size of its
//! subtree.  That layout makes "skip a whole subtree" a constant-time index
//! computation, which in turn makes collapse/expand, row-to-index
//! translation and rendering all linear in the number of *visible* rows.
//!
//! [`TreeModel`] is the verified core; [`TreeView`] adds the selection and
//! key-handling state that an interactive widget keeps around it.

pub mod model;
mod proofs;
pub mod laws;
pub mod tree_view;

pub use model::Node;
pub use model::Placement;
pub use model::TreeModel;
pub use tree_view::KeyEvent;
pub use tree_view::TreeAction;
pub use tree_view::TreeView;
