use vstd::prelude::*;
use vstd::slice::slice_subrange;

verus! {

/// The value of a big-endian run of bytes.
pub open spec fn be_bytes(s: Seq<u8>) -> nat
    decreases s.len(),
{
    if s.len() == 0 {
        0
    } else {
        be_bytes(s.drop_last()) * 256 + s.last() as nat
    }
}

/// A forward-only reader over a byte slice; every multi-byte read is
/// big-endian, as the container and both codecs require.
pub struct ByteCursor<'a> {
    pub data: &'a [u8],
    pub pos: usize,
}

impl<'a> ByteCursor<'a> {
    pub open spec fn wf(&self) -> bool {
        self.pos <= self.data@.len()
    }

    pub fn new(data: &'a [u8]) -> (c: Self)
        ensures
            c.data@ == data@,
            c.pos == 0,
            c.wf(),
    {
        ByteCursor { data, pos: 0 }
    }

    pub fn position(&self) -> (r: usize)
        ensures
            r == self.pos,
    {
        self.pos
    }

    pub fn is_at_end(&self) -> (r: bool)
        requires
            self.wf(),
        ensures
            r == (self.pos == self.data@.len()),
    {
        self.pos >= self.data.len()
    }

    pub fn read_u8(&mut self) -> (r: Option<u8>)
        requires
            old(self).wf(),
        ensures
            final(self).data@ == old(self).data@,
            final(self).wf(),
            match r {
                Some(b) => old(self).pos < old(self).data@.len() && b == old(self).data@[old(
                    self,
                ).pos as int] && final(self).pos == old(self).pos + 1,
                None => old(self).pos == old(self).data@.len() && final(self).pos == old(self).pos,
            },
    {
        if self.pos < self.data.len() {
            let b = self.data[self.pos];
            self.pos = self.pos + 1;
            Some(b)
        } else {
            None
        }
    }

    pub fn read_u16_be(&mut self) -> (r: Option<u16>)
        requires
            old(self).wf(),
        ensures
            final(self).data@ == old(self).data@,
            final(self).wf(),
            match r {
                Some(v) => old(self).pos + 2 <= old(self).data@.len() && final(self).pos == old(self).pos
                    + 2 && v == old(self).data@[old(self).pos as int] * 256 + old(self).data@[old(
                    self,
                ).pos + 1],
                None => old(self).data@.len() < old(self).pos + 2 && final(self).pos == old(self).pos,
            },
    {
        if self.data.len() - self.pos >= 2 {
            let hi = self.data[self.pos];
            let lo = self.data[self.pos + 1];
            self.pos = self.pos + 2;
            Some((hi as u16) * 256 + (lo as u16))
        } else {
            None
        }
    }

    /// Reads `n` bytes as a slice of the underlying data.
    pub fn take(&mut self, n: usize) -> (r: Option<&'a [u8]>)
        requires
            old(self).wf(),
        ensures
            final(self).data@ == old(self).data@,
            final(self).wf(),
            match r {
                Some(s) => old(self).pos + n <= old(self).data@.len() && final(self).pos == old(self).pos
                    + n && s@ == old(self).data@.subrange(
                    old(self).pos as int,
                    old(self).pos + n,
                ),
                None => old(self).data@.len() < old(self).pos + n && final(self).pos == old(self).pos,
            },
    {
        if n <= self.data.len() && self.pos <= self.data.len() - n {
            let s = slice_subrange(self.data, self.pos, self.pos + n);
            self.pos = self.pos + n;
            Some(s)
        } else {
            None
        }
    }

    /// Skips `n` bytes.
    pub fn skip(&mut self, n: usize) -> (r: bool)
        requires
            old(self).wf(),
        ensures
            final(self).data@ == old(self).data@,
            final(self).wf(),
            r ==> old(self).pos + n <= old(self).data@.len() && final(self).pos == old(self).pos + n,
            !r ==> old(self).data@.len() < old(self).pos + n && final(self).pos == old(self).pos,
    {
        if n <= self.data.len() && self.pos <= self.data.len() - n {
            self.pos = self.pos + n;
            true
        } else {
            false
        }
    }
}

/// Powers of 256 for byte-count bounds.
pub open spec fn pow256b(n: int) -> int
    decreases n,
{
    if n <= 0 {
        1
    } else {
        pow256b(n - 1) * 256
    }
}

/// A big-endian value stays under one more byte's weight.
pub proof fn lemma_be_bytes_bound(s: Seq<u8>)
    ensures
        0 <= be_bytes(s) < pow256b(s.len() as int),
    decreases s.len(),
{
    if s.len() > 0 {
        lemma_be_bytes_bound(s.drop_last());
        assert(be_bytes(s.drop_last()) * 256 <= (pow256b(s.len() - 1) - 1) * 256) by (
        nonlinear_arith)
            requires
                be_bytes(s.drop_last()) <= pow256b(s.len() - 1) - 1,
        ;
    }
}

} // verus!
