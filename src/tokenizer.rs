//! A plain character cursor without position tracking.
use vstd::prelude::*;
use crate::lexer::skip_white;

verus! {

/// A forward-only cursor over the characters of a text.
pub struct InputReader {
    pub input: String,
    pub index: usize,
}

impl InputReader {
    pub open spec fn wf(&self) -> bool {
        self.index <= self.input@.len()
    }

    pub fn new(input: String) -> (r: Self)
        ensures
            r.wf(),
            r.input@ == input@,
            r.index == 0,
    {
        Self { input, index: 0 }
    }

    /// The character at the cursor, if any.
    pub fn peek(&self) -> (r: Option<char>)
        ensures
            r == (if self.index < self.input@.len() {
                Some(self.input@[self.index as int])
            } else {
                None
            }),
    {
        if self.index < self.input.as_str().unicode_len() {
            Some(self.input.as_str().get_char(self.index))
        } else {
            None
        }
    }

    /// Moves the cursor past the white space at it.
    pub fn consume_space(&mut self)
        requires
            old(self).wf(),
        ensures
            final(self).wf(),
            final(self).input == old(self).input,
            final(self).index == skip_white(old(self).input@, old(self).index as nat),
    {
        loop
            invariant
                self.wf(),
                self.input == old(self).input,
                skip_white(self.input@, self.index as nat) == skip_white(
                    old(self).input@,
                    old(self).index as nat,
                ),
            decreases self.input@.len() - self.index,
        {
            match self.next_char() {
                Some(c) => {
                    if !c.is_whitespace() {
                        self.index -= 1;
                        return;
                    }
                },
                None => {
                    return;
                },
            }
        }
    }

    /// Consumes and returns the character at the cursor; at the end of the
    /// text nothing moves.
    pub fn next_char(&mut self) -> (r: Option<char>)
        requires
            old(self).wf(),
        ensures
            final(self).wf(),
            final(self).input == old(self).input,
            old(self).index < old(self).input@.len() ==> r == Some(
                old(self).input@[old(self).index as int],
            ) && final(self).index == old(self).index + 1,
            old(self).index >= old(self).input@.len() ==> r is None && final(self).index
                == old(self).index,
    {
        if self.index < self.input.as_str().unicode_len() {
            let c = self.input.as_str().get_char(self.index);
            self.index += 1;
            Some(c)
        } else {
            None
        }
    }
}

} // verus!
