//! The byte-counting source: a cursor over input bytes that hands out
//! lookahead windows of bounded size and counts every byte that is consumed.

use vstd::prelude::*;
use vstd::slice::slice_subrange;

verus! {

/// The capacity of the lookahead window of a source made with `new`: 256 KiB.
pub const DEFAULT_CAPACITY: usize = 262144;

/// A source of bytes with a bounded lookahead window and a count of the bytes
/// consumed so far.
///
/// Looking ahead changes nothing. A byte is counted once, when it is consumed:
/// by `consume`, out of the window, or by `read`.
pub struct BufReaderWithCount<'a> {
    data: &'a [u8],
    pos: usize,
    capacity: usize,
    count: u64,
}

impl<'a> BufReaderWithCount<'a> {
    /// What holds of every source: the count is the number of bytes in front
    /// of the cursor, the cursor is within the input, and a window holds at
    /// least one byte.
    #[verifier::type_invariant]
    pub closed spec fn well_formed(self) -> bool {
        &&& self.pos <= self.data@.len()
        &&& self.count == self.pos
        &&& self.capacity >= 1
    }

    /// The count of a source never passes the length of its input.
    pub proof fn lemma_count_within_input(self)
        requires
            self.well_formed(),
        ensures
            self.consumed() <= self.input().len() <= usize::MAX,
            self.capacity() >= 1,
    {
        assert(self.data.len() == self.data@.len());
    }

    /// All bytes of the input, consumed or not.
    pub closed spec fn input(self) -> Seq<u8> {
        self.data@
    }

    /// The number of bytes consumed so far.
    pub closed spec fn consumed(self) -> nat {
        self.count as nat
    }

    /// The largest number of bytes that a lookahead window holds.
    pub closed spec fn capacity(self) -> nat {
        self.capacity as nat
    }

    /// The bytes that are not consumed yet.
    pub open spec fn unread(self) -> Seq<u8> {
        self.input().skip(self.consumed() as int)
    }

    /// The lookahead window: the next unread bytes, as many as the capacity
    /// allows. It is empty only at the end of the input.
    pub open spec fn window(self) -> Seq<u8> {
        if self.unread().len() <= self.capacity() {
            self.unread()
        } else {
            self.unread().take(self.capacity() as int)
        }
    }

    /// A source over `data` with a window of `DEFAULT_CAPACITY` bytes and
    /// nothing consumed.
    pub fn new(data: &'a [u8]) -> (r: Self)
        ensures
            r.input() == data@,
            r.consumed() == 0,
            r.capacity() == DEFAULT_CAPACITY,
    {
        BufReaderWithCount { data, pos: 0, capacity: DEFAULT_CAPACITY, count: 0 }
    }

    /// A source over `data` with a window of `capacity` bytes and nothing
    /// consumed. A window holds at least one byte: a capacity of 0 counts as 1.
    pub fn with_capacity(capacity: usize, data: &'a [u8]) -> (r: Self)
        ensures
            r.input() == data@,
            r.consumed() == 0,
            r.capacity() == if capacity == 0 { 1 } else { capacity as nat },
    {
        let capacity: usize = if capacity == 0 { 1 } else { capacity };
        BufReaderWithCount { data, pos: 0, capacity, count: 0 }
    }

    /// The number of bytes consumed so far.
    pub fn count(&self) -> (c: u64)
        ensures
            c == self.consumed(),
            self.consumed() <= self.input().len() <= usize::MAX,
    {
        proof {
            use_type_invariant(self);
            self.lemma_count_within_input();
        }
        self.count
    }

    /// The lookahead window. Nothing is consumed and nothing is counted.
    pub fn fill_buf(&self) -> (w: &'a [u8])
        ensures
            w@ == self.window(),
            self.consumed() + w@.len() <= self.input().len(),
            w@.len() == 0 <==> self.consumed() == self.input().len(),
    {
        proof {
            use_type_invariant(self);
        }
        let left: usize = self.data.len() - self.pos;
        let n: usize = if left <= self.capacity { left } else { self.capacity };
        let w = slice_subrange(self.data, self.pos, self.pos + n);
        assert(w@ =~= self.window());
        w
    }

    /// All unread bytes, for a reader that is not bound to the window.
    /// Nothing is consumed and nothing is counted.
    pub fn unread_bytes(&self) -> (w: &'a [u8])
        ensures
            w@ == self.unread(),
            self.consumed() + w@.len() == self.input().len(),
    {
        proof {
            use_type_invariant(self);
        }
        let w = slice_subrange(self.data, self.pos, self.data.len());
        assert(w@ =~= self.unread());
        w
    }

    /// Consumes the first `n` bytes of the window, or the whole window if it
    /// is shorter, and counts them.
    pub fn consume(&mut self, n: usize)
        ensures
            final(self).input() == old(self).input(),
            final(self).capacity() == old(self).capacity(),
            final(self).consumed() == old(self).consumed() + if n <= old(self).window().len() {
                n as nat
            } else {
                old(self).window().len()
            },
            final(self).consumed() <= final(self).input().len(),
    {
        proof {
            use_type_invariant(&*self);
        }
        let left: usize = self.data.len() - self.pos;
        let avail: usize = if left <= self.capacity { left } else { self.capacity };
        let k: usize = if n <= avail { n } else { avail };
        *self = BufReaderWithCount {
            data: self.data,
            pos: self.pos + k,
            capacity: self.capacity,
            count: self.count + k as u64,
        };
    }

    /// Reads past the window: copies the next unread bytes to the front of
    /// `buf`, as many as `buf` holds or as are left, consumes and counts them,
    /// and returns their number. The rest of `buf` stays as it is.
    pub fn read(&mut self, buf: &mut [u8]) -> (n: usize)
        ensures
            final(self).input() == old(self).input(),
            final(self).capacity() == old(self).capacity(),
            n == if old(buf)@.len() <= old(self).unread().len() {
                old(buf)@.len()
            } else {
                old(self).unread().len()
            },
            final(self).consumed() == old(self).consumed() + n,
            final(self).consumed() <= final(self).input().len(),
            final(buf)@ == old(self).unread().take(n as int) + old(buf)@.skip(n as int),
    {
        proof {
            use_type_invariant(&*self);
        }
        let left: usize = self.data.len() - self.pos;
        let n: usize = if buf.len() <= left { buf.len() } else { left };
        let mut i: usize = 0;
        while i < n
            invariant
                i <= n,
                n <= buf@.len(),
                buf@.len() == old(buf)@.len(),
                self.pos + n <= self.data@.len() <= usize::MAX,
                self.pos == old(self).pos,
                self.data == old(self).data,
                forall|j: int| 0 <= j < i ==> buf@[j] == self.data@[self.pos + j],
                forall|j: int| i <= j < buf@.len() ==> buf@[j] == old(buf)@[j],
            decreases n - i,
        {
            buf[i] = self.data[self.pos + i];
            i += 1;
        }
        assert(buf@ =~= old(self).unread().take(n as int) + old(buf)@.skip(n as int));
        *self = BufReaderWithCount {
            data: self.data,
            pos: self.pos + n,
            capacity: self.capacity,
            count: self.count + n as u64,
        };
        n
    }
}

} // verus!
