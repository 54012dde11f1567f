//! A readable, seekable byte source over an archive entry held in memory, so
//! the decoder can stream a zipped track without touching the disk.
use vstd::prelude::*;
use std::sync::Arc;

verus! {

/// Where a seek is measured from.
#[derive(Clone, Copy, PartialEq, Eq, Structural, Debug)]
pub enum SeekPos {
    Start(u64),
    End(i64),
    Current(i64),
}

/// A seek that would land before the first byte.
#[derive(Clone, Copy, PartialEq, Eq, Structural, Debug)]
pub enum SeekError {
    BeforeStart,
}

/// `v` reinterpreted as a signed 64-bit value (as `as i64` does).
pub open spec fn as_signed(v: u64) -> int {
    if v <= i64::MAX {
        v as int
    } else {
        v - 0x1_0000_0000_0000_0000int
    }
}

/// In-memory bytes with a read position; the position may lie past the end,
/// where reads yield nothing.
pub struct MemSource {
    data: Arc<Vec<u8>>,
    pos: u64,
}

impl MemSource {
    pub closed spec fn bytes(&self) -> Seq<u8> {
        self.data@
    }

    pub closed spec fn position(&self) -> u64 {
        self.pos
    }

    /// A source at the first byte of `data`.
    pub fn new(data: Arc<Vec<u8>>) -> (r: Self)
        ensures
            r.bytes() == data@,
            r.position() == 0,
    {
        MemSource { data, pos: 0 }
    }

    /// Copies the bytes after the position (the position clamped to the end)
    /// into `buf`, as many as fit, and advances past them.
    pub fn read(&mut self, buf: &mut [u8]) -> (n: usize)
        requires
            old(self).bytes().len() <= u64::MAX,
        ensures
            ({
                let len = old(self).bytes().len();
                let p: int = if old(self).position() < len { old(self).position() as int } else { len as int };
                &&& n == if len - p < old(buf)@.len() { len - p } else { old(buf)@.len() as int }
                &&& final(buf)@.len() == old(buf)@.len()
                &&& final(buf)@.take(n as int) == old(self).bytes().subrange(p, p + n)
                &&& final(buf)@.skip(n as int) == old(buf)@.skip(n as int)
                &&& final(self).position() == p + n
                &&& final(self).bytes() == old(self).bytes()
            }),
    {
        let len = self.data.len();
        let p: usize = if (self.pos as u128) < (len as u128) { self.pos as usize } else { len };
        let rem = len - p;
        let n = if rem < buf.len() { rem } else { buf.len() };
        let ghost b0 = buf@;
        let mut i: usize = 0;
        while i < n
            invariant
                i <= n,
                p + n <= len == self.data@.len(),
                n <= buf@.len(),
                buf@.len() == b0.len(),
                buf@.take(i as int) == self.data@.subrange(p as int, p + i),
                buf@.skip(i as int) == b0.skip(i as int),
            decreases n - i,
        {
            let ghost before = buf@;
            buf[i] = self.data[p + i];
            proof {
                assert(buf@ == before.update(i as int, self.data@[p + i]));
                assert(buf@.take(i + 1) =~= self.data@.subrange(p as int, p + i + 1));
                assert forall|j: int| i + 1 <= j < b0.len() implies buf@[j] == b0[j] by {
                    assert(before.skip(i as int)[j - i] == b0.skip(i as int)[j - i]);
                }
                assert(buf@.skip(i + 1) =~= b0.skip(i + 1));
            }
            i += 1;
        }
        self.pos = (p + n) as u64;
        n
    }

    /// Moves the position: to `Start(p)` as given; to `End(d)` and
    /// `Current(d)` by the signed offset, refusing a target before the start.
    pub fn seek(&mut self, from: SeekPos) -> (r: Result<u64, SeekError>)
        requires
            old(self).bytes().len() <= i64::MAX,
            from matches SeekPos::End(d) ==> i64::MIN <= old(self).bytes().len() + d <= i64::MAX,
            from matches SeekPos::Current(d) ==> i64::MIN <= as_signed(old(self).position()) + d <= i64::MAX,
        ensures
            final(self).bytes() == old(self).bytes(),
            ({
                let target: int = match from {
                    SeekPos::Start(p) => p as int,
                    SeekPos::End(d) => old(self).bytes().len() + d,
                    SeekPos::Current(d) => as_signed(old(self).position()) + d,
                };
                if target < 0 {
                    r == Err::<u64, SeekError>(SeekError::BeforeStart) && final(self).position() == old(self).position()
                } else {
                    r == Ok::<u64, SeekError>(target as u64) && final(self).position() == target
                }
            }),
    {
        let len = self.data.len() as i64;
        let base: i64 = match from {
            SeekPos::Start(p) => {
                self.pos = p;
                return Ok(p);
            },
            SeekPos::End(d) => len + d,
            SeekPos::Current(d) => {
                let cur: i64 = if self.pos <= i64::MAX as u64 {
                    self.pos as i64
                } else {
                    (self.pos - 0x8000_0000_0000_0000u64) as i64 + i64::MIN
                };
                cur + d
            },
        };
        if base < 0 {
            return Err(SeekError::BeforeStart);
        }
        self.pos = base as u64;
        Ok(self.pos)
    }

    /// The source's total length in bytes.
    pub fn byte_len(&self) -> (r: u64)
        requires
            self.bytes().len() <= u64::MAX,
        ensures
            r == self.bytes().len(),
    {
        self.data.len() as u64
    }
}

} // verus!
