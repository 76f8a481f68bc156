//! The text editing cursor: while a box is focused, a visible cursor
//! character sits inside the text at the cursor position, and editing
//! operations move it or change the text around it. The text is modeled
//! as a vector of characters; the host renders it.

use vstd::prelude::*;

verus! {

/// The edit state of one text box: where the cursor character sits in the
/// text, if the box is focused at all.
#[derive(Debug)]
pub struct EditBox {
    cursor_pos: Option<usize>,
    cursor_char: char,
}

impl EditBox {
    /// The cursor position, if focused.
    pub closed spec fn pos(&self) -> Option<int> {
        match self.cursor_pos {
            Some(i) => Some(i as int),
            None => None,
        }
    }

    /// The character shown as the cursor.
    pub closed spec fn cursor(&self) -> char {
        self.cursor_char
    }

    /// The coupling between the box and its text: when focused, the
    /// cursor position points at the cursor character inside the text.
    pub open spec fn coupled(&self, text: Seq<char>) -> bool {
        match self.pos() {
            Some(i) => 0 <= i < text.len() && text[i] == self.cursor(),
            None => true,
        }
    }

    /// An unfocused box whose cursor renders as the given character.
    pub fn new(cursor_char: char) -> (r: EditBox)
        ensures
            r.pos() is None,
            r.cursor() == cursor_char,
    {
        EditBox { cursor_pos: None, cursor_char }
    }

    pub fn is_editing(&self) -> (r: bool)
        ensures
            r == (self.pos() is Some),
    {
        self.cursor_pos.is_some()
    }

    pub fn is_focused(&self) -> (r: bool)
        ensures
            r == (self.pos() is Some),
    {
        self.cursor_pos.is_some()
    }

    /// Focuses the box with the cursor at the end of the text; already
    /// focused boxes are left alone.
    pub fn focus(&mut self, text: &mut Vec<char>)
        ensures
            old(self).pos() is Some ==> *final(self) == *old(self) && final(text)@ == old(text)@,
            old(self).pos() is None ==> final(text)@ == old(text)@.push(old(self).cursor())
                && final(self).pos() == Some(old(text)@.len() as int) && final(self).cursor()
                == old(self).cursor(),
            old(self).coupled(old(text)@) ==> final(self).coupled(final(text)@),
    {
        if self.cursor_pos.is_some() {
            return ;
        }
        let cursor = text.len();
        text.push(self.cursor_char);
        self.cursor_pos = Some(cursor);
    }

    /// Focuses the box with the cursor at the given position (a click);
    /// already focused boxes are left alone.
    pub fn focus_at(&mut self, text: &mut Vec<char>, cursor: usize)
        requires
            old(self).pos() is None ==> cursor <= old(text)@.len(),
        ensures
            old(self).pos() is Some ==> *final(self) == *old(self) && final(text)@ == old(text)@,
            old(self).pos() is None ==> final(text)@ == old(text)@.insert(
                cursor as int,
                old(self).cursor(),
            ) && final(self).pos() == Some(cursor as int) && final(self).cursor() == old(
                self,
            ).cursor(),
            old(self).coupled(old(text)@) ==> final(self).coupled(final(text)@),
    {
        if self.cursor_pos.is_some() {
            return ;
        }
        text.insert(cursor, self.cursor_char);
        self.cursor_pos = Some(cursor);
    }

    /// Unfocuses the box, taking the cursor character back out of the
    /// text; already unfocused boxes are left alone.
    pub fn unfocus(&mut self, text: &mut Vec<char>)
        requires
            old(self).coupled(old(text)@),
        ensures
            old(self).pos() is None ==> *final(self) == *old(self) && final(text)@ == old(text)@,
            old(self).pos() matches Some(i) ==> final(text)@ == old(text)@.remove(i)
                && final(self).pos() is None && final(self).cursor() == old(self).cursor(),
    {
        match self.cursor_pos {
            Some(cursor) => {
                text.remove(cursor);
                self.cursor_pos = None;
            },
            None => {},
        }
    }

    /// Moves the cursor one character to the left, swapping it with its
    /// left neighbour; at the start of the text nothing happens.
    pub fn move_cursor_left(&mut self, text: &mut Vec<char>)
        requires
            old(self).coupled(old(text)@),
        ensures
            final(self).cursor() == old(self).cursor(),
            match old(self).pos() {
                None => *final(self) == *old(self) && final(text)@ == old(text)@,
                Some(i) => if i == 0 {
                    *final(self) == *old(self) && final(text)@ == old(text)@
                } else {
                    final(text)@ == old(text)@.update(i - 1, old(text)@[i]).update(
                        i,
                        old(text)@[i - 1],
                    ) && final(self).pos() == Some(i - 1)
                },
            },
            final(self).coupled(final(text)@),
    {
        match self.cursor_pos {
            Some(cursor) => {
                if cursor == 0 {
                    return ;
                }
                let prev = text[cursor - 1];
                let cur = text[cursor];
                text[cursor - 1] = cur;
                text[cursor] = prev;
                self.cursor_pos = Some(cursor - 1);
            },
            None => {},
        }
    }

    /// Moves the cursor one character to the right, swapping it with its
    /// right neighbour; at the end of the text nothing happens.
    pub fn move_cursor_right(&mut self, text: &mut Vec<char>)
        requires
            old(self).coupled(old(text)@),
        ensures
            final(self).cursor() == old(self).cursor(),
            match old(self).pos() {
                None => *final(self) == *old(self) && final(text)@ == old(text)@,
                Some(i) => if i + 1 >= old(text)@.len() {
                    *final(self) == *old(self) && final(text)@ == old(text)@
                } else {
                    final(text)@ == old(text)@.update(i, old(text)@[i + 1]).update(
                        i + 1,
                        old(text)@[i],
                    ) && final(self).pos() == Some(i + 1)
                },
            },
            final(self).coupled(final(text)@),
    {
        match self.cursor_pos {
            Some(cursor) => {
                proof {
                    assert(old(self).pos() == Some(cursor as int));
                    assert(cursor < old(text)@.len());
                }
                let n = text.len();
                if cursor >= n - 1 {
                    return ;
                }
                let cur = text[cursor];
                let next = text[cursor + 1];
                text[cursor] = next;
                text[cursor + 1] = cur;
                self.cursor_pos = Some(cursor + 1);
            },
            None => {},
        }
    }

    /// Inserts a typed character at the cursor, which moves right past it;
    /// unfocused boxes are left alone.
    pub fn insert_character(&mut self, text: &mut Vec<char>, character: char)
        requires
            old(self).coupled(old(text)@),
        ensures
            final(self).cursor() == old(self).cursor(),
            match old(self).pos() {
                None => *final(self) == *old(self) && final(text)@ == old(text)@,
                Some(i) => final(text)@ == old(text)@.insert(i, character) && final(self).pos()
                    == Some(i + 1),
            },
            final(self).coupled(final(text)@),
    {
        match self.cursor_pos {
            Some(cursor) => {
                proof {
                    assert(old(self).pos() == Some(cursor as int));
                    assert(cursor < old(text)@.len());
                }
                let _bound = text.len();
                text.insert(cursor, character);
                self.cursor_pos = Some(cursor + 1);
            },
            None => {},
        }
    }

    /// Removes the character before the cursor (backspace); at the start
    /// of the text, or unfocused, nothing happens.
    pub fn remove_character_before(&mut self, text: &mut Vec<char>)
        requires
            old(self).coupled(old(text)@),
        ensures
            final(self).cursor() == old(self).cursor(),
            match old(self).pos() {
                None => *final(self) == *old(self) && final(text)@ == old(text)@,
                Some(i) => if i == 0 {
                    *final(self) == *old(self) && final(text)@ == old(text)@
                } else {
                    final(text)@ == old(text)@.remove(i - 1) && final(self).pos() == Some(i - 1)
                },
            },
            final(self).coupled(final(text)@),
    {
        match self.cursor_pos {
            Some(cursor) => {
                if cursor == 0 {
                    return ;
                }
                text.remove(cursor - 1);
                self.cursor_pos = Some(cursor - 1);
            },
            None => {},
        }
    }

    /// Removes the character after the cursor (delete); at the end of the
    /// text, or unfocused, nothing happens.
    pub fn remove_character_after(&mut self, text: &mut Vec<char>)
        requires
            old(self).coupled(old(text)@),
        ensures
            *final(self) == *old(self),
            match old(self).pos() {
                None => final(text)@ == old(text)@,
                Some(i) => if i + 1 >= old(text)@.len() {
                    final(text)@ == old(text)@
                } else {
                    final(text)@ == old(text)@.remove(i + 1)
                },
            },
            final(self).coupled(final(text)@),
    {
        match self.cursor_pos {
            Some(cursor) => {
                proof {
                    assert(old(self).pos() == Some(cursor as int));
                    assert(cursor < old(text)@.len());
                }
                let n = text.len();
                if cursor >= n - 1 {
                    return ;
                }
                text.remove(cursor + 1);
            },
            None => {},
        }
    }

    /// Moves the cursor under a clicked position: the cursor character is
    /// taken out, the click position adjusted if it lay beyond the
    /// cursor, and the cursor reinserted there. Unfocused boxes are left
    /// alone.
    pub fn set_pos(&mut self, text: &mut Vec<char>, new_cursor: usize)
        requires
            old(self).coupled(old(text)@),
            old(self).pos() is Some ==> new_cursor <= old(text)@.len(),
        ensures
            final(self).cursor() == old(self).cursor(),
            match old(self).pos() {
                None => *final(self) == *old(self) && final(text)@ == old(text)@,
                Some(i) => ({
                    let adjusted = if new_cursor > i {
                        new_cursor - 1
                    } else {
                        new_cursor as int
                    };
                    final(text)@ == old(text)@.remove(i).insert(adjusted, old(self).cursor())
                        && final(self).pos() == Some(adjusted)
                }),
            },
            final(self).coupled(final(text)@),
    {
        match self.cursor_pos {
            Some(cursor) => {
                let adjusted = if new_cursor > cursor {
                    new_cursor - 1
                } else {
                    new_cursor
                };
                text.remove(cursor);
                text.insert(adjusted, self.cursor_char);
                self.cursor_pos = Some(adjusted);
            },
            None => {},
        }
    }
}

} // verus!
