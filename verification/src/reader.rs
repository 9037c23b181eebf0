//! An in-memory source of bytes that is read front to back.

use vstd::prelude::*;
use vstd::slice::slice_subrange;

verus! {

/// A borrowed run of bytes of which a front part has been consumed.
///
/// Its view is what is left to read.
pub struct Reader<'a> {
    rest: &'a [u8],
}

impl<'a> View for Reader<'a> {
    type V = Seq<u8>;

    closed spec fn view(&self) -> Seq<u8> {
        self.rest@
    }
}

impl<'a> Reader<'a> {
    /// A reader that has all of `bytes` before it.
    pub fn new(bytes: &'a [u8]) -> (reader: Self)
        ensures
            reader@ == bytes@,
    {
        Reader { rest: bytes }
    }

    /// The number of bytes left to read.
    pub fn remaining(&self) -> (n: usize)
        ensures
            n == self@.len(),
    {
        self.rest.len()
    }

    /// Consumes exactly `n` bytes and hands them out. Where fewer than `n`
    /// are left, the source is drained and nothing is handed out.
    pub fn take(&mut self, n: usize) -> (taken: Option<&'a [u8]>)
        ensures
            n <= old(self)@.len() ==> {
                &&& taken matches Some(bytes)
                &&& bytes@ == old(self)@.take(n as int)
                &&& final(self)@ == old(self)@.skip(n as int)
            },
            n > old(self)@.len() ==> taken.is_none() && final(self)@ == Seq::<u8>::empty(),
    {
        let len = self.rest.len();
        if n <= len {
            let head = slice_subrange(self.rest, 0, n);
            self.rest = slice_subrange(self.rest, n, len);
            assert(head@ =~= old(self)@.take(n as int));
            assert(self.rest@ =~= old(self)@.skip(n as int));
            Some(head)
        } else {
            self.rest = slice_subrange(self.rest, len, len);
            assert(self.rest@ =~= Seq::<u8>::empty());
            None
        }
    }
}

} // verus!
