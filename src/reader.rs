use vstd::prelude::*;
use vstd::std_specs::iter::IteratorSpec;

verus! {

/// A cursor over the characters of an input text that tracks a 0-based
/// row and column for error messages.
///
/// `back` rewinds the cursor and the column but not the row: backing up
/// over a newline leaves the row as it was (and the column at 0), so that
/// newline is counted again when it is read again.
pub struct SerialReader {
    pub chars: Vec<char>,
    pub i: usize,
    pub len: usize,
    pub row: usize,
    pub col: usize,
}

/// The row after a newline: one more, held at `usize::MAX`.
pub open spec fn row_after_newline(row: usize) -> usize {
    if row < usize::MAX {
        (row + 1) as usize
    } else {
        row
    }
}

/// Where a reader stands in its text: the model that the grammar reads.
pub struct Cursor {
    pub text: Seq<char>,
    pub i: int,
    pub row: usize,
    pub col: usize,
}

/// Reads one character, as `next` does.
pub open spec fn step(c: Cursor) -> (char, Cursor) {
    if 0 <= c.i < c.text.len() {
        let ch = c.text[c.i];
        (
            ch,
            Cursor {
                text: c.text,
                i: c.i + 1,
                row: if ch == '\n' {
                    row_after_newline(c.row)
                } else {
                    c.row
                },
                col: if ch == '\n' {
                    0
                } else {
                    (c.col + 1) as usize
                },
            },
        )
    } else {
        (' ', c)
    }
}

/// Steps back, as `back` does.
pub open spec fn unstep(c: Cursor) -> Cursor {
    Cursor {
        text: c.text,
        i: c.i - 1,
        row: c.row,
        col: if c.col > 0 {
            (c.col - 1) as usize
        } else {
            0
        },
    }
}

impl SerialReader {
    pub open spec fn cur(&self) -> Cursor {
        Cursor { text: self.chars@, i: self.i as int, row: self.row, col: self.col }
    }

    /// The reader's invariant.
    pub open spec fn wf(&self) -> bool {
        &&& self.len == self.chars@.len()
        &&& self.i <= self.len
        &&& self.col <= self.i
    }

    /// The characters that `next` has still to hand out.
    pub open spec fn rest(&self) -> Seq<char> {
        self.chars@.skip(self.i as int)
    }

    pub fn new(in_str: &str) -> (r: Self)
        ensures
            r.wf(),
            r.chars@ == in_str@,
            r.i == 0,
            r.row == 0,
            r.col == 0,
    {
        let mut vec: Vec<char> = Vec::new();
        let mut it = in_str.chars();
        proof {
            broadcast use vstd::string::axiom_spec_iter;
        }
        loop
            invariant
                it.obeys_prophetic_iter_laws(),
                vec@ + it.remaining() == in_str@,
                it.decrease() is Some,
            ensures
                vec@ == in_str@,
            decreases it.decrease()->0,
        {
            let c = it.next();
            proof {
                broadcast use vstd::string::next_postcondition;
            }
            match c {
                Some(c) => {
                    vec.push(c);
                    assert(vec@ + it.remaining() == in_str@) by {
                        assert(vec@ + it.remaining() =~= in_str@);
                    }
                },
                None => {
                    assert(vec@ =~= in_str@);
                    break;
                },
            }
        }
        let l = vec.len();
        SerialReader { chars: vec, i: 0, len: l, row: 0, col: 0 }
    }

    /// Hands out the next character, or a space once the text is used up.
    pub fn next(&mut self) -> (c: char)
        requires
            old(self).wf(),
        ensures
            final(self).wf(),
            final(self).chars == old(self).chars,
            final(self).len == old(self).len,
            old(self).i < old(self).len ==> {
                &&& c == old(self).chars@[old(self).i as int]
                &&& final(self).i == old(self).i + 1
                &&& c == '\n' ==> final(self).row == row_after_newline(old(self).row)
                    && final(self).col == 0
                &&& c != '\n' ==> final(self).row == old(self).row && final(self).col
                    == old(self).col + 1
            },
            old(self).i >= old(self).len ==> c == ' ' && *final(self) == *old(self),
            (c, final(self).cur()) == step(old(self).cur()),
    {
        if self.i < self.len {
            let c = self.chars[self.i];
            self.i += 1;
            self.col += 1;
            if c == '\n' {
                self.col = 0;
                if self.row < usize::MAX {
                    self.row += 1;
                }
            }
            c
        } else {
            ' '
        }
    }

    /// Steps back over the last character handed out. The row is kept, and
    /// a column of 0 stays 0.
    pub fn back(&mut self)
        requires
            old(self).wf(),
            old(self).i > 0,
        ensures
            final(self).wf(),
            final(self).chars == old(self).chars,
            final(self).len == old(self).len,
            final(self).i == old(self).i - 1,
            final(self).col == (if old(self).col > 0 {
                old(self).col - 1
            } else {
                0
            }),
            final(self).row == old(self).row,
            final(self).cur() == unstep(old(self).cur()),
    {
        self.i -= 1;
        if self.col > 0 {
            self.col -= 1;
        }
    }

    pub fn has_more(&self) -> (r: bool)
        requires
            self.wf(),
        ensures
            r == (self.i < self.chars@.len()),
    {
        self.i < self.len
    }
}

/// Hands out the characters of a text one by one, then `'\0'` for ever.
pub struct StringReader<'a> {
    pub chars: std::str::Chars<'a>,
}

impl<'a> StringReader<'a> {
    pub fn new(s: &'a str) -> (r: Self)
        ensures
            r.chars.obeys_prophetic_iter_laws(),
            r.chars.remaining() == s@,
    {
        proof {
            broadcast use vstd::string::axiom_spec_iter;
        }
        StringReader { chars: s.chars() }
    }

    pub fn next(&mut self) -> (c: char)
        requires
            old(self).chars.obeys_prophetic_iter_laws(),
        ensures
            final(self).chars.obeys_prophetic_iter_laws(),
            old(self).chars.remaining().len() > 0 ==> c == old(self).chars.remaining()[0]
                && final(self).chars.remaining() == old(self).chars.remaining().drop_first(),
            old(self).chars.remaining().len() == 0 ==> c == '\0'
                && final(self).chars.remaining() == old(self).chars.remaining(),
    {
        let res = self.chars.next();
        proof {
            broadcast use vstd::string::next_postcondition;
        }
        match res {
            Option::Some(c) => c,
            Option::None => '\0',
        }
    }
}

} // verus!
