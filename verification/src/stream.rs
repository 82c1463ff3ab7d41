//! A cursor over a byte string.
use vstd::prelude::*;
use vstd::slice::slice_subrange;

verus! {

/// A position in a byte string; the position may run one past the end.
pub struct Stream<'a> {
    pub idx: usize,
    pub data: &'a [u8],
}

impl<'a> Stream<'a> {
    /// A cursor at the start of `data`.
    pub fn new(data: &'a [u8]) -> (s: Self)
        ensures
            s.idx == 0,
            s.data@ == data@,
    {
        Stream { idx: 0, data }
    }

    /// The whole byte string.
    pub fn data(&self) -> (d: &'a [u8])
        ensures
            d@ == self.data@,
    {
        self.data
    }

    /// The length of the byte string.
    pub fn len(&self) -> (n: usize)
        ensures
            n == self.data@.len(),
    {
        self.data.len()
    }

    /// Whether the cursor is at or past the end.
    pub fn is_eof(&self) -> (b: bool)
        ensures
            b == (self.idx >= self.data@.len()),
    {
        self.idx >= self.data.len()
    }

    /// Moves one byte on.
    pub fn advance(&mut self)
        requires
            old(self).idx < usize::MAX,
        ensures
            final(self).idx == old(self).idx + 1,
            final(self).data == old(self).data,
    {
        self.idx = self.idx + 1;
    }

    /// Moves `n` bytes on.
    pub fn advance_by(&mut self, n: usize)
        requires
            old(self).idx + n <= usize::MAX,
        ensures
            final(self).idx == old(self).idx + n,
            final(self).data == old(self).data,
    {
        self.idx = self.idx + n;
    }

    /// The byte at the cursor.
    pub fn current_cpy(&self) -> (c: Option<u8>)
        ensures
            self.idx < self.data@.len() ==> c == Some(self.data@[self.idx as int]),
            self.idx >= self.data@.len() ==> c is None,
    {
        if self.idx < self.data.len() {
            Some(self.data[self.idx])
        } else {
            None
        }
    }

    /// The bytes from `from` to `to`.
    pub fn slice(&self, from: usize, to: usize) -> (s: &'a [u8])
        requires
            from <= to <= self.data@.len(),
        ensures
            s@ == self.data@.subrange(from as int, to as int),
    {
        slice_subrange(self.data, from, to)
    }

    /// Up to `len` bytes from `from`, fewer where the byte string ends first.
    pub fn slice_len(&self, from: usize, len: usize) -> (s: &'a [u8])
        requires
            from <= self.data@.len(),
        ensures
            s@ == self.data@.subrange(
                from as int,
                if from + len <= self.data@.len() {
                    from + len
                } else {
                    self.data@.len() as int
                },
            ),
    {
        let end = if len <= self.data.len() - from {
            from + len
        } else {
            self.data.len()
        };
        slice_subrange(self.data, from, end)
    }

    /// Moves one byte on if the byte at the cursor is `expect`, and returns it.
    pub fn expect_and_skip(&mut self, expect: u8) -> (c: Option<u8>)
        ensures
            final(self).data == old(self).data,
            (old(self).idx < old(self).data@.len() && old(self).data@[old(self).idx as int]
                == expect) ==> c == Some(expect) && final(self).idx == old(self).idx + 1,
            !(old(self).idx < old(self).data@.len() && old(self).data@[old(self).idx as int]
                == expect) ==> c is None && final(self).idx == old(self).idx,
    {
        let len = self.len();
        if self.idx < len && self.data[self.idx] == expect {
            self.advance();
            Some(expect)
        } else {
            None
        }
    }
}

} // verus!
