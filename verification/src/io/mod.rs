//! Byte stores a FITS file lives in. FITS is a sequence of 2880-byte
//! records.
use vstd::prelude::*;
use crate::error::FitsError;

pub mod gzip;
pub mod memory;

pub use memory::MemoryDriver;

verus! {

/// Byte-oriented storage used by a FITS file.
///
/// `contents` is the store's bytes; each method states what it does to
/// them. An implementation is held to these contracts where Verus checks
/// it (the memory store); others take them as their promise.
pub trait Driver: Send {
    /// The bytes in the store. A store that does not define them is taken
    /// to hold some bytes, unknown here, that its methods act on as stated.
    closed spec fn contents(&self) -> Seq<u8> {
        arbitrary()
    }

    /// True for a store whose calls fail only where a position or a length
    /// is past `usize::MAX` (the memory store). A store that does not say
    /// so may fail on any call.
    closed spec fn infallible(&self) -> bool {
        false
    }

    /// Read up to `buf.len()` bytes at `pos`. Returns bytes actually read
    /// (0 at EOF).
    fn read_at(&mut self, pos: u64, buf: &mut [u8]) -> (r: Result<usize, FitsError>)
        ensures
            final(self).contents() == old(self).contents(),
            final(self).infallible() == old(self).infallible(),
            old(self).infallible() ==> r is Ok,
            final(buf)@.len() == old(buf)@.len(),
            r matches Ok(n) ==> {
                &&& n <= old(buf)@.len()
                &&& n > 0 ==> pos + n <= old(self).contents().len() && final(buf)@.subrange(0, n as int)
                    == old(self).contents().subrange(pos as int, pos + n)
                &&& (n == 0 && old(buf)@.len() > 0) ==> pos >= old(self).contents().len()
            },
    ;

    /// Write `buf` at `pos`, extending the store if needed.
    fn write_at(&mut self, pos: u64, buf: &[u8]) -> (r: Result<(), FitsError>)
        ensures
            final(self).infallible() == old(self).infallible(),
            old(self).infallible() && pos + buf@.len() <= usize::MAX ==> r is Ok,
            r is Ok ==> final(self).contents() == written_at(old(self).contents(), pos as int, buf@),
    ;

    /// Current length in bytes.
    fn len(&self) -> (r: Result<u64, FitsError>)
        ensures
            self.infallible() ==> r is Ok,
            r matches Ok(n) ==> n == self.contents().len(),
    ;

    /// Truncate or extend to `len` bytes.
    fn truncate(&mut self, len: u64) -> (r: Result<(), FitsError>)
        ensures
            final(self).infallible() == old(self).infallible(),
            old(self).infallible() && len <= usize::MAX ==> r is Ok,
            r is Ok ==> final(self).contents() == resized(old(self).contents(), len as int),
    ;

    /// Flush buffered data to the underlying device.
    fn flush(&mut self) -> (r: Result<(), FitsError>)
        ensures
            final(self).contents() == old(self).contents(),
            final(self).infallible() == old(self).infallible(),
            old(self).infallible() ==> r is Ok,
    ;

    /// True when the store contains no bytes.
    fn is_empty(&self) -> (r: Result<bool, FitsError>)
        ensures
            self.infallible() ==> r is Ok,
            r matches Ok(b) ==> b == (self.contents().len() == 0),
    {
        match self.len() {
            Ok(n) => Ok(n == 0),
            Err(e) => Err(e),
        }
    }
}

/// The store after writing `buf` at `pos`: zero-extended when it ends past
/// the end.
pub open spec fn written_at(data: Seq<u8>, pos: int, buf: Seq<u8>) -> Seq<u8> {
    let end = pos + buf.len();
    let len = if end > data.len() {
        end
    } else {
        data.len() as int
    };
    Seq::new(
        len as nat,
        |i: int|
            if pos <= i < end {
                buf[i - pos]
            } else if i < data.len() {
                data[i]
            } else {
                0u8
            },
    )
}

/// The store cut or zero-extended to `len` bytes.
pub open spec fn resized(data: Seq<u8>, len: int) -> Seq<u8> {
    Seq::new(len as nat, |i: int| if i < data.len() { data[i] } else { 0u8 })
}

/// `n` zero bytes.
fn zeros(n: usize) -> (r: Vec<u8>)
    ensures
        r@.len() == n,
{
    let mut v: Vec<u8> = Vec::new();
    let mut k: usize = 0;
    while k < n
        invariant
            k <= n,
            v@.len() == k,
        decreases n - k,
    {
        v.push(0);
        k += 1;
    }
    v
}

/// Read the entire contents of `driver`: its length, then reads from the
/// start until that many bytes came back or a read returned none. The
/// result is cut short only when a read returned none; the first error of
/// the store stops it.
pub fn read_all<D: Driver>(driver: &mut D) -> (r: Result<Vec<u8>, FitsError>)
    ensures
        final(driver).contents() == old(driver).contents(),
        old(driver).infallible() && old(driver).contents().len() <= usize::MAX ==> r is Ok,
        old(driver).contents().len() <= usize::MAX ==> (r matches Ok(v) ==> v@ == old(driver).contents()),
{
    let ghost c0 = driver.contents();
    let len = match driver.len() {
        Ok(n) => n as usize,
        Err(e) => {
            return Err(e);
        },
    };
    let mut buf = zeros(len);
    let mut got: usize = 0;
    let mut done = false;
    while !done && got < len
        invariant
            driver.contents() == c0,
            old(driver).contents() == c0,
            driver.infallible() == old(driver).infallible(),
            buf@.len() == len,
            got <= len,
            c0.len() <= usize::MAX ==> len == c0.len(),
            c0.len() <= usize::MAX ==> buf@.subrange(0, got as int) == c0.subrange(0, got as int),
            done ==> (c0.len() <= usize::MAX ==> buf@ == c0),
        decreases 2 * (len - got) + (if done { 0int } else { 1int }),
    {
        let mut chunk = zeros(len - got);
        let n = match driver.read_at(got as u64, chunk.as_mut_slice()) {
            Ok(n) => n,
            Err(e) => {
                return Err(e);
            },
        };
        if n == 0 {
            let mut cut: Vec<u8> = Vec::new();
            let mut k: usize = 0;
            while k < got
                invariant
                    k <= got <= buf@.len(),
                    cut@ == buf@.subrange(0, k as int),
                decreases got - k,
            {
                cut.push(buf[k]);
                assert(cut@ =~= buf@.subrange(0, k + 1));
                k += 1;
            }
            return Ok(cut);
        }
        let room = len - got;
        let m0 = if n < chunk.len() { n } else { chunk.len() };
        let m = if m0 < room { m0 } else { room };
        let mut k: usize = 0;
        while k < m
            invariant
                buf@.len() == len,
                got < len,
                m <= chunk@.len(),
                got + m <= len,
                k <= m,
                m == n,
                chunk@.subrange(0, n as int) == c0.subrange(got as int, got + n),
                c0.len() <= usize::MAX ==> got + n <= c0.len(),
                c0.len() <= usize::MAX ==> buf@.subrange(0, got + k) == c0.subrange(0, got + k),
            decreases m - k,
        {
            buf.set(got + k, chunk[k]);
            proof {
                if c0.len() <= usize::MAX {
                    assert(chunk@[k as int] == chunk@.subrange(0, n as int)[k as int]);
                    assert(buf@.subrange(0, got + k + 1) =~= c0.subrange(0, got + k + 1));
                }
            }
            k += 1;
        }
        if n >= len - got {
            done = true;
            proof {
                if c0.len() <= usize::MAX {
                    assert(buf@ =~= buf@.subrange(0, got + n));
                    assert(c0 =~= c0.subrange(0, got + n));
                }
            }
        } else {
            got = got + n;
        }
    }
    proof {
        if c0.len() <= usize::MAX && !done {
            assert(buf@ =~= buf@.subrange(0, got as int));
            assert(c0 =~= c0.subrange(0, got as int));
        }
    }
    Ok(buf)
}

/// Replace the store with `bytes`: write at 0, truncate to their length,
/// flush; the first error stops it.
pub fn write_all<D: Driver>(driver: &mut D, bytes: &[u8]) -> (r: Result<(), FitsError>)
    ensures
        old(driver).infallible() ==> r is Ok,
        r is Ok ==> final(driver).contents() == bytes@,
{
    let n: usize = bytes.len();
    if let Err(e) = driver.write_at(0, bytes) {
        return Err(e);
    }
    if let Err(e) = driver.truncate(n as u64) {
        return Err(e);
    }
    let r = driver.flush();
    proof {
        lemma_replace_contents(old(driver).contents(), bytes@);
    }
    r
}

/// Law: writing bytes at the start of a store and cutting it to their
/// length leaves exactly those bytes, whatever the store held; so what
/// `write_all` writes, `read_all` reads back.
pub proof fn lemma_replace_contents(before: Seq<u8>, bytes: Seq<u8>)
    ensures
        resized(written_at(before, 0, bytes), bytes.len() as int) == bytes,
{
    assert(resized(written_at(before, 0, bytes), bytes.len() as int) =~= bytes);
}

} // verus!
