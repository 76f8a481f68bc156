//! An incremental inspector engine: it reconciles a dynamically shaped value
//! graph (structs, tuples, lists, maps, enum variants, primitive leaves)
//! against a persistent tree of expandable nodes and editable leaf widgets.
//!
//! Each tick the host hands the engine its current root values; the engine
//! decides which widgets to create, keep and destroy, recurses only into
//! expanded nodes, and carries user edits of leaf widgets back into the
//! source values without clobbering edits in progress.

pub mod edit_box;
pub mod keys;
pub mod laws;
pub mod model;
pub mod protocol;
pub mod reconcile;
pub mod table;
pub mod text;
pub mod values;
pub mod widgets;

pub use keys::Key;
pub use keys::Step;
pub use values::LeafValue;
pub use values::Value;
