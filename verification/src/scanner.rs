//! Splitting a buffered line of input into tokens at single spaces.

use vstd::prelude::*;

verus! {

/// The byte that ends a token: a space.
pub const SEPARATOR: u8 = 32;

/// `end` is where the token that starts at `from` ends: the position of the
/// first space at or after `from`, or the length of `buf` where no space
/// follows.
pub open spec fn is_token_end(buf: Seq<u8>, from: int, end: int) -> bool {
    &&& from <= end <= buf.len()
    &&& forall|i: int| from <= i < end ==> buf[i] != SEPARATOR
    &&& end < buf.len() ==> buf[end] == SEPARATOR
}

/// A line of input and the position up to which it has been handed out.
pub struct TokenCursor {
    buf_str: Vec<u8>,
    offset: usize,
}

impl TokenCursor {
    /// The line.
    pub closed spec fn buffer(&self) -> Seq<u8> {
        self.buf_str@
    }

    /// Where the next token starts.
    pub closed spec fn position(&self) -> int {
        self.offset as int
    }

    /// A cursor over an empty line.
    pub fn new() -> (res: Self)
        ensures
            res.buffer() == Seq::<u8>::empty(),
            res.position() == 0,
    {
        Self { buf_str: Vec::new(), offset: 0 }
    }

    /// The line.
    pub fn bytes(&self) -> (res: &Vec<u8>)
        ensures
            res@ == self.buffer(),
    {
        &self.buf_str
    }

    /// Replaces the line and starts at its beginning.
    pub fn refill(&mut self, line: Vec<u8>)
        ensures
            final(self).buffer() == line@,
            final(self).position() == 0,
    {
        self.buf_str = line;
        self.offset = 0;
    }

    /// Hands out the next token as the range `start .. end` of the line, and
    /// moves past the space that ends it.
    ///
    /// Where the line is used up there is no token: the cursor stays as it
    /// is and wants a new line. A token may be empty: two spaces in a row
    /// hold one between them.
    pub fn next_token(&mut self) -> (res: Option<(usize, usize)>)
        ensures
            final(self).buffer() == old(self).buffer(),
            match res {
                Some((start, end)) => {
                    &&& start == old(self).position()
                    &&& start < old(self).buffer().len()
                    &&& is_token_end(old(self).buffer(), start as int, end as int)
                    &&& final(self).position() == if end < old(self).buffer().len() {
                        end + 1
                    } else {
                        end as int
                    }
                },
                None => {
                    &&& old(self).position() >= old(self).buffer().len()
                    &&& final(self).position() == old(self).position()
                },
            },
    {
        if self.offset >= self.buf_str.len() {
            return None;
        }
        let start = self.offset;
        let mut end = start;
        while end < self.buf_str.len() && self.buf_str[end] != SEPARATOR
            invariant
                start <= end <= self.buf_str@.len(),
                forall|i: int| start <= i < end ==> self.buf_str@[i] != SEPARATOR,
            decreases self.buf_str@.len() - end,
        {
            end += 1;
        }
        self.offset = if end < self.buf_str.len() {
            end + 1
        } else {
            end
        };
        Some((start, end))
    }
}

} // verus!
