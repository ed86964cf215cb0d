//! Bandwidth-agnostic IO.
//!
//! Executors never know where bytes came from: they see a
//! [`BufferTarget`].

use vstd::prelude::*;
use vstd::slice::slice_subrange;
use crate::error::{Error, ErrorKind, Result};

verus! {

/// Destination for a byte-range fetch: host slice or raw device pointer.
pub enum BufferTarget<'a> {
    Host(&'a mut [u8]),
    /// Device pointer and capacity in bytes.
    Device { ptr: u64, capacity: u64 },
}

impl<'a> BufferTarget<'a> {
    pub fn capacity(&self) -> (r: u64)
        ensures
            r == (match self {
                BufferTarget::Host(s) => s@.len() as int,
                BufferTarget::Device { capacity, .. } => *capacity as int,
            }),
    {
        match self {
            BufferTarget::Host(s) => s.len() as u64,
            BufferTarget::Device { capacity, .. } => *capacity,
        }
    }
}

/// How many bytes a target can take.
pub open spec fn target_capacity(dst: &BufferTarget<'_>) -> int {
    match dst {
        BufferTarget::Host(s) => s@.len() as int,
        BufferTarget::Device { capacity, .. } => *capacity as int,
    }
}

/// A range of a file of `file_len` bytes that fits into a target.
pub open spec fn readable(file_len: nat, offset: u64, len: u64, capacity: int) -> bool {
    offset + len <= file_len && len <= capacity
}

/// One openable file within a segment directory.
pub trait ByteRange {
    /// The bytes of the file.
    spec fn data(&self) -> Seq<u8>;

    /// Total length of the file in bytes.
    fn len(&self) -> (r: u64)
        ensures
            r == self.data().len(),
    ;

    fn is_empty(&self) -> (r: bool)
        ensures
            r == (self.data().len() == 0),
    {
        self.len() == 0
    }

    /// Fetch `[offset, offset + len)` into `dst`. Fails if the range is out
    /// of bounds or `dst` is too small.
    fn read_into(&self, offset: u64, len: u64, dst: BufferTarget<'_>) -> (r: Result<()>)
        ensures
            r is Ok ==> readable(self.data().len(), offset, len, target_capacity(&dst)),
            r is Ok ==> match dst {
                BufferTarget::Host(out) => final(out)@ == self.data().subrange(offset as int, offset + len)
                    + out@.subrange(len as int, out@.len() as int),
                BufferTarget::Device { .. } => true,
            },
    ;

    /// View of `[offset, offset + len)` in host memory, when the source can
    /// offer one.
    fn slice(&self, offset: u64, len: u64) -> (r: Option<&[u8]>)
        ensures
            r matches Some(s) ==> offset + len <= self.data().len() && s@ == self.data().subrange(
                offset as int,
                offset + len,
            ),
    ;
}

/// A file whose bytes are in memory.
pub struct BytesRange<'a> {
    pub bytes: &'a [u8],
}

impl<'a> ByteRange for BytesRange<'a> {
    open spec fn data(&self) -> Seq<u8> {
        self.bytes@
    }

    fn len(&self) -> (r: u64) {
        self.bytes.len() as u64
    }

    fn read_into(&self, offset: u64, len: u64, dst: BufferTarget<'_>) -> (r: Result<()>)
        ensures
            offset + len > u64::MAX ==> (r matches Err(e) && e.kind() == ErrorKind::InvalidArgument),
            self.data().len() < offset + len <= u64::MAX ==> (r matches Err(e) && e.kind() == ErrorKind::Corrupt),
            offset + len <= self.data().len() && len > target_capacity(&dst) ==> (r matches Err(e) && e.kind()
                == ErrorKind::InvalidArgument),
            readable(self.data().len(), offset, len, target_capacity(&dst)) ==> match dst {
                BufferTarget::Host(out) => r is Ok && final(out)@ == self.data().subrange(
                    offset as int,
                    offset + len,
                ) + out@.subrange(len as int, out@.len() as int),
                BufferTarget::Device { .. } => r matches Err(e) && e.kind() == ErrorKind::Unsupported,
            },
    {
        let total: usize = self.bytes.len();
        let end: u64 = match offset.checked_add(len) {
            Some(end) => end,
            None => {
                return Err(Error::invalid("offset + len overflows u64"));
            },
        };
        if end > total as u64 {
            return Err(Error::corrupt("read beyond file"));
        }
        if dst.capacity() < len {
            return Err(Error::invalid("destination capacity below requested length"));
        }
        match dst {
            BufferTarget::Host(out) => {
                let n: usize = len as usize;
                let from: usize = offset as usize;
                let mut i: usize = 0;
                let ghost before = out@;
                while i < n
                    invariant
                        i <= n,
                        n == len,
                        from == offset,
                        from + n <= self.bytes@.len(),
                        self.bytes@.len() <= usize::MAX,
                        n <= before.len(),
                        out@.len() == before.len(),
                        forall|k: int| 0 <= k < i ==> out@[k] == self.bytes@[from + k],
                        forall|k: int| i <= k < before.len() ==> out@[k] == before[k],
                    decreases n - i,
                {
                    out[i] = self.bytes[from + i];
                    i = i + 1;
                }
                assert(out@ =~= self.bytes@.subrange(offset as int, offset + len) + before.subrange(
                    len as int,
                    before.len() as int,
                ));
                Ok(())
            },
            BufferTarget::Device { .. } => Err(Error::unsupported("cannot fill device memory")),
        }
    }

    fn slice(&self, offset: u64, len: u64) -> (r: Option<&[u8]>)
        ensures
            r is Some <==> offset + len <= self.data().len(),
    {
        let total: usize = self.bytes.len();
        let end: u64 = match offset.checked_add(len) {
            Some(end) => end,
            None => {
                return None;
            },
        };
        if end > total as u64 {
            return None;
        }
        Some(slice_subrange(self.bytes, offset as usize, end as usize))
    }
}

} // verus!
