//! The expandable tree-node widget's state: an optional children
//! container, present exactly while the node is expanded.

use vstd::prelude::*;

verus! {

/// An expandable node row.
#[derive(Debug)]
pub struct Widget {
    children_container: Option<u64>,
}

impl View for Widget {
    type V = Option<u64>;

    closed spec fn view(&self) -> Option<u64> {
        self.children_container
    }
}

impl Widget {
    /// A collapsed node.
    pub fn new() -> (r: Widget)
        ensures
            r@ is None,
    {
        Widget { children_container: None }
    }

    /// Expands or collapses the node. Collapsing hands back the container
    /// that must be destroyed; expanding stores the given fresh container
    /// handle and returns nothing to destroy.
    pub fn toggle_expand(&mut self, new_container: u64) -> (r: Option<u64>)
        ensures
            match old(self)@ {
                Some(c) => final(self)@ is None && r == Some(c),
                None => final(self)@ == Some(new_container) && r is None,
            },
    {
        match self.children_container {
            Some(c) => {
                self.children_container = None;
                Some(c)
            },
            None => {
                self.children_container = Some(new_container);
                None
            },
        }
    }

    pub fn is_expanded(&self) -> (r: bool)
        ensures
            r == (self@ is Some),
    {
        self.children_container.is_some()
    }

    pub fn get_children_container(&self) -> (r: Option<u64>)
        ensures
            r == self@,
    {
        self.children_container
    }
}

} // verus!
