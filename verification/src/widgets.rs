//! Verified models of the plain widget states: the toggle (check box),
//! the radio-button group, and the expandable tree-node row. The host
//! keeps one of these per spawned widget and drives it from input events;
//! rendering stays with the host.

pub mod check_box;
pub mod radio_button;
pub mod tree_node;
