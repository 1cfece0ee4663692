//! A forward-only reader over the input characters.

use vstd::prelude::*;

verus! {

/// The decoder's one window onto the input: the full character sequence and
/// the position of the next unread character. Exactly one in-progress call
/// holds it mutably at any instant; it only ever moves forward.
pub struct Cursor {
    chars: Vec<char>,
    pos: usize,
}

impl Cursor {
    /// The whole input, as the model sees it.
    pub closed spec fn text(&self) -> Seq<char> {
        self.chars@
    }

    /// The position of the next unread character.
    pub closed spec fn at(&self) -> int {
        self.pos as int
    }

    /// The cursor never stands past the end of its input.
    pub open spec fn wf(&self) -> bool {
        0 <= self.at() <= self.text().len()
    }

    /// A cursor at the start of the given characters.
    pub fn new(chars: Vec<char>) -> (c: Cursor)
        ensures
            c.wf(),
            c.text() == chars@,
            c.at() == 0,
    {
        Cursor { chars, pos: 0 }
    }

    /// The single operation: consume and return the next character, or
    /// report the end of the input.
    pub fn advance(&mut self) -> (r: Option<char>)
        requires
            old(self).wf(),
        ensures
            final(self).wf(),
            final(self).text() == old(self).text(),
            if old(self).at() < old(self).text().len() {
                r == Some(old(self).text()[old(self).at()]) && final(self).at() == old(self).at()
                    + 1
            } else {
                r is None && final(self).at() == old(self).at()
            },
    {
        if self.pos < self.chars.len() {
            let c = self.chars[self.pos];
            self.pos = self.pos + 1;
            Some(c)
        } else {
            None
        }
    }
}

} // verus!
