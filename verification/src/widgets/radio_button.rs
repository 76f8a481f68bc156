//! The radio-button group's state: the buttons' widget handles and which
//! one, if any, is selected.

use vstd::prelude::*;

verus! {

/// The position of the first occurrence of a handle among the buttons.
pub open spec fn position_of(buttons: Seq<u64>, button: u64) -> Option<int>
    decreases buttons.len(),
{
    if buttons.len() == 0 {
        None
    } else if buttons[0] == button {
        Some(0)
    } else {
        match position_of(buttons.drop_first(), button) {
            Some(i) => Some(i + 1),
            None => None,
        }
    }
}

/// A group of radio buttons with at most one selected.
#[derive(Debug)]
pub struct Widget {
    buttons: Vec<u64>,
    selection: Option<usize>,
}

impl Widget {
    pub closed spec fn buttons_view(&self) -> Seq<u64> {
        self.buttons@
    }

    pub closed spec fn selection_view(&self) -> Option<int> {
        match self.selection {
            Some(i) => Some(i as int),
            None => None,
        }
    }

    /// The selected index is always a valid button position.
    pub closed spec fn wf(&self) -> bool {
        match self.selection {
            Some(i) => i < self.buttons@.len(),
            None => true,
        }
    }

    /// A group over the given button handles with an optional initial
    /// selection.
    pub fn new(buttons: Vec<u64>, selection: Option<usize>) -> (r: Widget)
        requires
            match selection {
                Some(i) => i < buttons@.len(),
                None => true,
            },
        ensures
            r.wf(),
            r.buttons_view() == buttons@,
            r.selection_view() == match selection {
                Some(i) => Some(i as int),
                None => None::<int>,
            },
    {
        Widget { buttons, selection }
    }

    fn position(&self, button: u64) -> (r: Option<usize>)
        ensures
            match r {
                Some(i) => position_of(self.buttons@, button) == Some(i as int) && i
                    < self.buttons@.len(),
                None => position_of(self.buttons@, button) == None::<int>,
            },
    {
        let mut i: usize = 0;
        proof {
            assert(self.buttons@.skip(0) =~= self.buttons@);
        }
        while i < self.buttons.len()
            invariant
                i <= self.buttons@.len(),
                forall|j: int| 0 <= j < i ==> self.buttons@[j] != button,
                position_of(self.buttons@, button) == match position_of(
                    self.buttons@.skip(i as int),
                    button,
                ) {
                    Some(p) => Some(p + i),
                    None => None::<int>,
                },
            decreases self.buttons@.len() - i,
        {
            if self.buttons[i] == button {
                proof {
                    assert(self.buttons@.skip(i as int)[0] == button);
                }
                return Some(i);
            }
            proof {
                assert(self.buttons@.skip(i as int)[0] != button);
                assert(self.buttons@.skip(i as int).drop_first() =~= self.buttons@.skip(
                    i as int + 1,
                ));
            }
            i = i + 1;
        }
        proof {
            assert(self.buttons@.skip(i as int).len() == 0);
        }
        None
    }

    /// Applies a click on the given button: clicking the selected button
    /// deselects it, any other click moves the selection there (or
    /// nowhere, if the handle is not in this group). Returns the
    /// previously selected index and its button handle.
    pub fn select(&mut self, button: u64) -> (r: Option<(usize, u64)>)
        requires
            old(self).wf(),
        ensures
            final(self).wf(),
            final(self).buttons_view() == old(self).buttons_view(),
            ({
                let pos = position_of(old(self).buttons_view(), button);
                &&& final(self).selection_view() == (if pos == old(self).selection_view() {
                    None::<int>
                } else {
                    pos
                })
                &&& r == match old(self).selection_view() {
                    Some(i) => Some((i as usize, old(self).buttons_view()[i])),
                    None => None::<(usize, u64)>,
                }
            }),
    {
        let previous = self.selection;
        let new = self.position(button);
        let same = match (new, previous) {
            (Some(a), Some(b)) => a == b,
            (None, None) => true,
            _ => false,
        };
        if same {
            self.selection = None;
        } else {
            self.selection = new;
        }
        match previous {
            Some(i) => Some((i, self.buttons[i])),
            None => None,
        }
    }

    /// Whether the given button is the selected one.
    pub fn is_selected(&self, button: u64) -> (r: bool)
        ensures
            r == (position_of(self.buttons_view(), button) == self.selection_view()),
    {
        let position = self.position(button);
        match (position, self.selection) {
            (Some(a), Some(b)) => a == b,
            (None, None) => true,
            _ => false,
        }
    }
}

} // verus!
