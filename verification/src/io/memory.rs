//! In-memory [`Driver`](super::Driver).
use vstd::prelude::*;
use super::{resized, written_at, Driver};
use crate::error::FitsError;
use crate::status::WRITE_ERROR;

verus! {

/// Growable byte buffer acting as a FITS file.
#[derive(Debug)]
pub struct MemoryDriver {
    data: Vec<u8>,
}

impl View for MemoryDriver {
    type V = Seq<u8>;

    /// The bytes held.
    closed spec fn view(&self) -> Seq<u8> {
        self.data@
    }
}

impl MemoryDriver {
    /// Empty buffer.
    pub fn new() -> (r: MemoryDriver)
        ensures
            r@ == Seq::<u8>::empty(),
    {
        MemoryDriver { data: Vec::new() }
    }

    /// Take ownership of the bytes.
    pub fn into_inner(self) -> (r: Vec<u8>)
        ensures
            r@ == self@,
    {
        self.data
    }

    /// Borrow the bytes.
    pub fn as_slice(&self) -> (r: &[u8])
        ensures
            r@ == self@,
    {
        self.data.as_slice()
    }

    /// Read up to `buf.len()` bytes at `pos`; 0 at or past the end.
    pub fn read_bytes_at(&self, pos: u64, buf: &mut [u8]) -> (r: usize)
        ensures
            pos >= self@.len() ==> r == 0 && final(buf)@ == old(buf)@,
            pos < self@.len() ==> {
                &&& r == (if old(buf)@.len() < self@.len() - pos {
                    old(buf)@.len() as int
                } else {
                    self@.len() - pos
                })
                &&& final(buf)@.len() == old(buf)@.len()
                &&& final(buf)@.subrange(0, r as int) == self@.subrange(pos as int, pos + r)
                &&& final(buf)@.subrange(r as int, old(buf)@.len() as int) == old(buf)@.subrange(
                    r as int,
                    old(buf)@.len() as int,
                )
            },
    {
        let len = self.data.len();
        if pos >= len as u64 {
            return 0;
        }
        let p = pos as usize;
        let n = if buf.len() < len - p { buf.len() } else { len - p };
        let mut k: usize = 0;
        while k < n
            invariant
                p + n <= len == self@.len(),
                n <= buf@.len() == old(buf)@.len(),
                k <= n,
                forall|j: int| 0 <= j < k ==> buf@[j] == self@[p + j],
                forall|j: int| k <= j < buf@.len() ==> buf@[j] == old(buf)@[j],
            decreases n - k,
        {
            buf[k] = self.data[p + k];
            k += 1;
        }
        assert(buf@.subrange(0, n as int) =~= self@.subrange(pos as int, pos + n));
        assert(buf@.subrange(n as int, buf@.len() as int) =~= old(buf)@.subrange(
            n as int,
            old(buf)@.len() as int,
        ));
        n
    }

    /// Write `buf` at `pos`, zero-filling any gap past the end.
    pub fn write_bytes_at(&mut self, pos: u64, buf: &[u8]) -> (r: Result<(), FitsError>)
        ensures
            pos + buf@.len() <= usize::MAX ==> r is Ok && final(self)@ == written_at(
                old(self)@,
                pos as int,
                buf@,
            ),
            pos + buf@.len() > usize::MAX ==> (r matches Err(e) && e.status == WRITE_ERROR
                && final(self)@ == old(self)@),
    {
        if pos > usize::MAX as u64 {
            return Err(FitsError::new(WRITE_ERROR));
        }
        let p = pos as usize;
        let end = match p.checked_add(buf.len()) {
            Some(e) => e,
            None => {
                return Err(FitsError::new(WRITE_ERROR));
            },
        };
        let ghost old_data = self.data@;
        while self.data.len() < end
            invariant
                self.data@.len() <= end || self.data@.len() == old_data.len(),
                old_data.len() <= self.data@.len(),
                forall|j: int| 0 <= j < old_data.len() ==> self.data@[j] == old_data[j],
                forall|j: int| old_data.len() <= j < self.data@.len() ==> self.data@[j] == 0u8,
            decreases end - self.data@.len(),
        {
            self.data.push(0);
        }
        let mut k: usize = 0;
        while k < buf.len()
            invariant
                p + buf@.len() == end <= self.data@.len(),
                self.data@.len() == (if end > old_data.len() { end as int } else { old_data.len() as int }),
                k <= buf@.len(),
                forall|j: int| p <= j < p + k ==> self.data@[j] == buf@[j - p],
                forall|j: int|
                    (0 <= j < p || p + k <= j < self.data@.len()) ==> self.data@[j] == (if j
                        < old_data.len() {
                        old_data[j]
                    } else {
                        0u8
                    }),
            decreases buf.len() - k,
        {
            self.data.set(p + k, buf[k]);
            k += 1;
        }
        assert(self@ =~= written_at(old_data, pos as int, buf@));
        Ok(())
    }

    /// Truncate or zero-extend to `len` bytes.
    pub fn set_len(&mut self, len: u64) -> (r: Result<(), FitsError>)
        ensures
            len <= usize::MAX ==> r is Ok && final(self)@ == resized(old(self)@, len as int),
            len > usize::MAX ==> (r matches Err(e) && e.status == WRITE_ERROR && final(self)@
                == old(self)@),
    {
        if len > usize::MAX as u64 {
            return Err(FitsError::new(WRITE_ERROR));
        }
        let n = len as usize;
        if n > self.data.len() {
            let ghost old_data = self.data@;
            while self.data.len() < n
                invariant
                    old_data.len() <= self.data@.len() <= n,
                    forall|j: int| 0 <= j < old_data.len() ==> self.data@[j] == old_data[j],
                    forall|j: int| old_data.len() <= j < self.data@.len() ==> self.data@[j] == 0u8,
                decreases n - self.data@.len(),
            {
                self.data.push(0);
            }
            assert(self@ =~= resized(old_data, len as int));
        } else {
            let ghost old_data = self.data@;
            self.data.truncate(n);
            assert(self@ =~= resized(old_data, len as int));
        }
        Ok(())
    }
}

impl Driver for MemoryDriver {
    open spec fn contents(&self) -> Seq<u8> {
        self@
    }

    /// Memory calls fail only past `usize::MAX`.
    open spec fn infallible(&self) -> bool {
        true
    }

    fn read_at(&mut self, pos: u64, buf: &mut [u8]) -> (r: Result<usize, FitsError>)
        ensures
            final(self)@ == old(self)@,
            r matches Ok(n) && n == (if pos >= old(self)@.len() {
                0
            } else if old(buf)@.len() < old(self)@.len() - pos {
                old(buf)@.len() as int
            } else {
                old(self)@.len() - pos
            }),
            pos >= old(self)@.len() ==> final(buf)@ == old(buf)@,
            pos < old(self)@.len() ==> (r matches Ok(n) && final(buf)@ == old(self)@.subrange(pos as int, pos + n)
                + old(buf)@.subrange(n as int, old(buf)@.len() as int)),
    {
        let n = self.read_bytes_at(pos, buf);
        proof {
            if pos < self@.len() {
                assert(buf@ =~= buf@.subrange(0, n as int) + buf@.subrange(n as int, buf@.len() as int));
            }
        }
        Ok(n)
    }

    fn write_at(&mut self, pos: u64, buf: &[u8]) -> (r: Result<(), FitsError>)
        ensures
            pos + buf@.len() <= usize::MAX ==> r is Ok && final(self)@ == written_at(old(self)@, pos as int, buf@),
            pos + buf@.len() > usize::MAX ==> (r matches Err(e) && e.status == WRITE_ERROR && final(self)@
                == old(self)@),
    {
        self.write_bytes_at(pos, buf)
    }

    fn len(&self) -> (r: Result<u64, FitsError>)
        ensures
            r == Ok::<u64, FitsError>(self@.len() as u64),
    {
        Ok(self.data.len() as u64)
    }

    fn truncate(&mut self, len: u64) -> (r: Result<(), FitsError>)
        ensures
            len <= usize::MAX ==> r is Ok && final(self)@ == resized(old(self)@, len as int),
            len > usize::MAX ==> (r matches Err(e) && e.status == WRITE_ERROR && final(self)@ == old(self)@),
    {
        self.set_len(len)
    }

    fn flush(&mut self) -> (r: Result<(), FitsError>)
        ensures
            r is Ok,
            final(self)@ == old(self)@,
    {
        Ok(())
    }
}

/// Law: bytes written at `pos` read back from `pos`, and the bytes outside
/// the written range keep their values (zero where the store grew).
pub proof fn lemma_read_after_write(data: Seq<u8>, pos: int, buf: Seq<u8>)
    requires
        pos >= 0,
    ensures
        written_at(data, pos, buf).subrange(pos, pos + buf.len()) == buf,
        forall|i: int|
            0 <= i < data.len() && !(pos <= i < pos + buf.len()) ==> written_at(data, pos, buf)[i]
                == data[i],
{
    assert(written_at(data, pos, buf).subrange(pos, pos + buf.len()) =~= buf);
}

} // verus!
