//! The toggle widget's state: a single boolean flag.

use vstd::prelude::*;

verus! {

/// A toggle widget: checked or not.
#[derive(Debug)]
pub struct Widget {
    checked: bool,
}

impl View for Widget {
    type V = bool;

    closed spec fn view(&self) -> bool {
        self.checked
    }
}

impl Widget {
    /// A toggle in the given state.
    pub fn new(checked: bool) -> (r: Widget)
        ensures
            r@ == checked,
    {
        Widget { checked }
    }

    /// Sets the flag outright (a field change synced into the widget).
    pub fn set(&mut self, checked: bool)
        ensures
            final(self)@ == checked,
    {
        self.checked = checked;
    }

    pub fn is_checked(&self) -> (r: bool)
        ensures
            r == self@,
    {
        self.checked
    }

    /// Flips the flag (a click) and returns the new state.
    pub fn toggle(&mut self) -> (r: bool)
        ensures
            final(self)@ == !old(self)@,
            r == final(self)@,
    {
        self.checked = !self.checked;
        self.checked
    }
}

} // verus!
