//! A positional decorator over a byte sequence: the same pull-one-byte
//! interface plus the current line and column and one-step lookahead.

use vstd::prelude::*;

verus! {

/// An owned stream of bytes, each either a byte or a carried-through
/// error of the producer.
pub struct ByteStream<E> {
    /// The items still to hand out, kept last-first, exposed so that the
    /// stream's model is open.
    pub rest: Vec<Result<u8, E>>,
}

impl<E> View for ByteStream<E> {
    type V = Seq<Result<u8, E>>;

    open spec fn view(&self) -> Seq<Result<u8, E>> {
        Seq::new(self.rest@.len(), |i: int| self.rest@[self.rest@.len() - 1 - i])
    }
}

impl<E> ByteStream<E> {
    /// A stream handing the given items out front to back.
    pub fn from_items(items: Vec<Result<u8, E>>) -> (s: ByteStream<E>)
        ensures
            s@ == items@,
    {
        let ghost orig = items@;
        let mut src = items;
        let mut rest: Vec<Result<u8, E>> = Vec::new();
        while src.len() > 0
            invariant
                src@.len() + rest@.len() == orig.len(),
                src@ == orig.take(src@.len() as int),
                forall|i: int| 0 <= i < rest@.len() ==> rest@[i] == orig[orig.len() - 1 - i],
            decreases src.len(),
        {
            match src.pop() {
                Some(b) => {
                    rest.push(b);
                },
                None => {},
            }
        }
        let s = ByteStream { rest };
        proof {
            assert(s@ =~= orig);
        }
        s
    }

    /// Hands out the next item.
    pub fn next(&mut self) -> (r: Option<Result<u8, E>>)
        ensures
            old(self)@.len() == 0 ==> r is None && final(self)@ == old(self)@,
            old(self)@.len() > 0 ==> r == Some(old(self)@[0]) && final(self)@ == old(
                self,
            )@.drop_first(),
    {
        let r = self.rest.pop();
        proof {
            if old(self)@.len() > 0 {
                assert(final(self)@ =~= old(self)@.drop_first());
            } else {
                assert(final(self)@ =~= old(self)@);
            }
        }
        r
    }

    /// Looks at the next item without consuming it.
    pub fn peek(&self) -> (r: Option<&Result<u8, E>>)
        ensures
            self@.len() == 0 ==> r is None,
            self@.len() > 0 ==> (r matches Some(x) && *x == self@[0]),
    {
        let n = self.rest.len();
        if n == 0 {
            None
        } else {
            Some(&self.rest[n - 1])
        }
    }

    /// How many items remain.
    pub fn len(&self) -> (n: usize)
        ensures
            n == self@.len(),
    {
        self.rest.len()
    }
}

/// Wraps a byte stream and tracks the position of what was consumed:
/// `line` is 1-based; `col` is 0-based, reset on each newline and stepped
/// on every other byte. Errors pass through without moving the position.
pub struct LineColIterator<E> {
    /// The underlying stream, exposed so that the decorator's model is open.
    pub iter: ByteStream<E>,
    /// The current 1-based line.
    pub line: usize,
    /// The current 0-based column.
    pub col: usize,
}

impl<E> LineColIterator<E> {
    /// The position counters never overflow while bytes remain.
    pub open spec fn wf(&self) -> bool {
        1 <= self.line && self.line + self.iter@.len() <= usize::MAX && self.col + self.iter@.len()
            <= usize::MAX
    }

    /// Starts tracking at line 1, column 0.
    pub fn new(iter: ByteStream<E>) -> (it: LineColIterator<E>)
        requires
            iter@.len() < usize::MAX,
        ensures
            it.iter == iter,
            it.line == 1,
            it.col == 0,
            it.wf(),
    {
        LineColIterator { iter, line: 1, col: 0 }
    }

    /// Report the current line inside the iterator.
    pub fn line(&self) -> (n: usize)
        ensures
            n == self.line,
    {
        self.line
    }

    /// Report the current column inside the iterator.
    pub fn col(&self) -> (n: usize)
        ensures
            n == self.col,
    {
        self.col
    }

    /// Gets a reference to the underlying stream.
    pub fn get_ref(&self) -> (r: &ByteStream<E>)
        ensures
            *r == self.iter,
    {
        &self.iter
    }

    /// Gets a mutable reference to the underlying stream.
    pub fn get_mut(&mut self) -> (r: &mut ByteStream<E>)
        ensures
            *r == old(self).iter,
            final(self).iter == *final(r),
            final(self).line == old(self).line,
            final(self).col == old(self).col,
    {
        &mut self.iter
    }

    /// Unwraps this `LineColIterator`, returning the underlying stream.
    pub fn into_inner(self) -> (r: ByteStream<E>)
        ensures
            r == self.iter,
    {
        self.iter
    }

    /// Peeks at the next item without consuming it or moving the position.
    pub fn peek(&self) -> (r: Option<&Result<u8, E>>)
        ensures
            self.iter@.len() == 0 ==> r is None,
            self.iter@.len() > 0 ==> (r matches Some(x) && *x == self.iter@[0]),
    {
        self.iter.peek()
    }

    /// Consumes one item: a newline steps the line and resets the column,
    /// any other byte steps the column, and an error moves nothing.
    pub fn next(&mut self) -> (r: Option<Result<u8, E>>)
        requires
            old(self).wf(),
        ensures
            final(self).wf(),
            final(self).iter@ == old(self).iter@.skip(if old(self).iter@.len() == 0 {
                0int
            } else {
                1int
            }),
            old(self).iter@.len() == 0 ==> r is None && final(self).line == old(self).line
                && final(self).col == old(self).col,
            old(self).iter@.len() > 0 ==> r == Some(old(self).iter@[0]) && (match old(
                self,
            ).iter@[0] {
                Ok(b) => if b == 10 {
                    final(self).line == old(self).line + 1 && final(self).col == 0
                } else {
                    final(self).line == old(self).line && final(self).col == old(self).col + 1
                },
                Err(_) => final(self).line == old(self).line && final(self).col == old(self).col,
            }),
    {
        match self.iter.next() {
            None => {
                proof {
                    assert(final(self).iter@ =~= old(self).iter@.skip(0));
                }
                None
            },
            Some(Ok(b)) => {
                if b == 10 {
                    self.line = self.line + 1;
                    self.col = 0;
                } else {
                    self.col = self.col + 1;
                }
                Some(Ok(b))
            },
            Some(Err(e)) => Some(Err(e)),
        }
    }
}

} // verus!
