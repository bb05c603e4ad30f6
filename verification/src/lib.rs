//! Node-level engine of an indexable, ordered linked structure: a multi-level
//! linked list with rank tracking ("spans") that supports access, insertion and
//! removal by positional index, plus two-ended consuming iteration.
//!
//! Nodes live in an arena owned by the anchor; links between nodes are arena
//! handles rather than pointers, so the single-owner discipline of the chain is
//! enforced by construction while the span bookkeeping stays exactly as in a
//! pointer-linked structure.

pub mod levels;
pub mod skipnode;

pub use levels::levels_required;
pub use skipnode::IntoIter;
pub use skipnode::Node;
pub use skipnode::SkipNode;
pub use levels::spec_levels_required;
