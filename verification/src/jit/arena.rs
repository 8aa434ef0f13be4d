//! The code arena: one buffer from which compiled functions get their
//! space, handed out 16-byte aligned and never given back except all at
//! once.
use vstd::prelude::*;

verus! {

/// Total size of the code arena in bytes.
pub const JIT_BUF_SIZE: usize = 2097152;

/// `n` rounded up to a multiple of 16.
pub open spec fn align16(n: int) -> int {
    (n + 15) / 16 * 16
}

/// The backing store for generated machine code and its fill mark.
pub struct JitBuf {
    mem: Vec<u8>,
    fill: usize,
}

impl JitBuf {
    /// The fill mark never passes the end.
    pub closed spec fn wf(&self) -> bool {
        self.fill <= JIT_BUF_SIZE && self.mem@.len() == JIT_BUF_SIZE
    }

    /// Bytes handed out so far (including alignment padding).
    pub closed spec fn used(&self) -> nat {
        self.fill as nat
    }

    /// An empty arena of `JIT_BUF_SIZE` zero bytes.
    pub fn new() -> (j: Self)
        ensures
            j.wf(),
            j.used() == 0,
    {
        JitBuf { mem: vec![0u8; JIT_BUF_SIZE], fill: 0 }
    }

    /// Reserve `len` bytes at the next 16-byte boundary; returns their
    /// offset in the arena, or `None` (and nothing changes) when they do not
    /// fit.
    pub fn jit_alloc(&mut self, len: usize) -> (r: Option<usize>)
        requires
            old(self).wf(),
            len + JIT_BUF_SIZE + 16 <= usize::MAX,
        ensures
            final(self).wf(),
            align16(old(self).used() as int) + len > JIT_BUF_SIZE ==> r is None && final(self).used()
                == old(self).used(),
            align16(old(self).used() as int) + len <= JIT_BUF_SIZE ==> r == Some(align16(
                old(self).used() as int) as usize) && final(self).used() == align16(old(self).used() as int)
                + len,
    {
        let aligned = (self.fill + 15) / 16 * 16;
        if aligned + len > JIT_BUF_SIZE {
            return None;
        }
        self.fill = aligned + len;
        Some(aligned)
    }

    /// How many bytes have been handed out so far.
    pub fn jit_used(&self) -> (n: usize)
        ensures
            n == self.used(),
    {
        self.fill
    }

    /// Forget every allocation.
    pub fn jit_reset(&mut self)
        requires
            old(self).wf(),
        ensures
            final(self).wf(),
            final(self).used() == 0,
    {
        self.fill = 0;
    }
}

} // verus!
