//! Where the bytes come from.
use vstd::prelude::*;

verus! {

/// A pull-based byte source: each `read` hands out the next bytes of a finite stream.
pub trait ByteSource {
    /// The bytes that the source has yet to hand out.
    spec fn rest(&self) -> Seq<u8>;

    /// Hands out at most `max` next bytes; none only when the source is exhausted.
    fn read(&mut self, max: usize) -> (r: Vec<u8>)
        ensures
            r@.len() <= max,
            r@.len() <= old(self).rest().len(),
            r@ == old(self).rest().take(r@.len() as int),
            final(self).rest() == old(self).rest().skip(r@.len() as int),
            max > 0 && old(self).rest().len() > 0 ==> r@.len() > 0,
    ;
}

/// A source over bytes held in memory, handing out at most `chunk` bytes per read.
pub struct SliceSource {
    data: Vec<u8>,
    pos: usize,
    chunk: usize,
}

impl SliceSource {
    /// A source that hands out as much as is asked for.
    pub fn new(data: Vec<u8>) -> (r: SliceSource)
        ensures
            r.rest() == data@,
    {
        SliceSource { data, pos: 0, chunk: usize::MAX }
    }

    /// A source that hands out at most `chunk` bytes per read, as a pipe may.
    pub fn chunked(data: Vec<u8>, chunk: usize) -> (r: SliceSource)
        requires
            chunk > 0,
        ensures
            r.rest() == data@,
    {
        SliceSource { data, pos: 0, chunk }
    }
}

impl ByteSource for SliceSource {
    closed spec fn rest(&self) -> Seq<u8> {
        if self.pos <= self.data@.len() {
            self.data@.skip(self.pos as int)
        } else {
            Seq::empty()
        }
    }

    fn read(&mut self, max: usize) -> (r: Vec<u8>) {
        let mut n: usize = max;
        if self.chunk > 0 && n > self.chunk {
            n = self.chunk;
        }
        if self.pos > self.data.len() {
            return Vec::new();
        }
        if n > self.data.len() - self.pos {
            n = self.data.len() - self.pos;
        }
        let mut out: Vec<u8> = Vec::new();
        let start = self.pos;
        let len = self.data.len();
        let mut i: usize = 0;
        while i < n
            invariant
                i <= n,
                n <= max,
                start == self.pos,
                start + n <= len,
                len == self.data@.len(),
                out@ =~= self.data@.subrange(start as int, start + i),
            decreases n - i,
        {
            out.push(self.data[start + i]);
            i += 1;
        }
        self.pos = start + n;
        out
    }
}

} // verus!
