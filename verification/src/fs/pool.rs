//! Storage for file contents that must outlive their loading: a bump arena
//! for files read from disk at boot, and a pool of fixed slots for files
//! created by the `write` command. This module decides where data goes;
//! the owner of the backing memory copies it there.
use vstd::prelude::*;

verus! {

/// Bytes of the disk-file arena (4 MiB).
pub const FILE_BUF_SIZE: usize = 4194304;

/// `n` rounded up to a multiple of 8.
pub open spec fn align8(n: int) -> int {
    (n + 7) / 8 * 8
}

/// A bump arena: offsets are handed out upward, 8-byte aligned, and never
/// reclaimed.
pub struct DiskArena {
    next: usize,
}

impl DiskArena {
    /// The first offset not yet handed out.
    pub closed spec fn used(&self) -> nat {
        self.next as nat
    }

    /// An empty arena.
    pub fn new() -> (a: Self)
        ensures
            a.used() == 0,
    {
        DiskArena { next: 0 }
    }

    /// Carve `len` bytes: the offset of a fresh 8-aligned region, or `None`
    /// (the arena unchanged) when `len` is 0 or the region would pass the
    /// end of the arena.
    pub fn alloc_disk_slot(&mut self, len: usize) -> (r: Option<usize>)
        requires
            old(self).used() <= FILE_BUF_SIZE,
        ensures
            final(self).used() <= FILE_BUF_SIZE,
            len == 0 || align8(old(self).used() as int) + len > FILE_BUF_SIZE ==> r is None && final(self).used()
                == old(self).used(),
            len > 0 && align8(old(self).used() as int) + len <= FILE_BUF_SIZE ==> r == Some(
                align8(old(self).used() as int) as usize,
            ) && final(self).used() == align8(old(self).used() as int) + len,
    {
        if len == 0 {
            return None;
        }
        let base = (self.next + 7) / 8 * 8;
        if len > FILE_BUF_SIZE || base > FILE_BUF_SIZE - len {
            return None;
        }
        self.next = base + len;
        Some(base)
    }
}

/// Slots of the write pool, and the bytes each holds.
pub const WRITE_SLOTS: usize = 16;
pub const WRITE_SLOT_CAP: usize = 4096;

/// The fixed slots for files made by `write`: claimed in order, never
/// reclaimed.
pub struct WritePool {
    next: usize,
}

impl WritePool {
    /// Slots claimed so far.
    pub closed spec fn claimed(&self) -> nat {
        self.next as nat
    }

    /// No slot claimed.
    pub fn new() -> (p: Self)
        ensures
            p.claimed() == 0,
    {
        WritePool { next: 0 }
    }

    /// Claim the next slot for `len` bytes: its index, or `None` (nothing
    /// claimed) when `len` exceeds a slot or every slot is taken.
    pub fn alloc_write_buf(&mut self, len: usize) -> (r: Option<usize>)
        requires
            old(self).claimed() <= WRITE_SLOTS,
        ensures
            final(self).claimed() <= WRITE_SLOTS,
            len > WRITE_SLOT_CAP || old(self).claimed() >= WRITE_SLOTS ==> r is None && final(self).claimed() == old(
                self,
            ).claimed(),
            len <= WRITE_SLOT_CAP && old(self).claimed() < WRITE_SLOTS ==> r == Some(old(self).claimed() as usize)
                && final(self).claimed() == old(self).claimed() + 1,
    {
        if len > WRITE_SLOT_CAP {
            return None;
        }
        if self.next >= WRITE_SLOTS {
            return None;
        }
        let slot = self.next;
        self.next = self.next + 1;
        Some(slot)
    }
}

/// The first multiple of `align` at or above `n`.
pub open spec fn round_up(n: int, align: int) -> int {
    if n % align == 0 { n } else { n + (align - n % align) }
}

/// The kernel heap's bump step: from the first free offset `next`, the
/// region of `size` bytes at the next multiple of `align` in a heap of
/// `heap_size` bytes, and the new first free offset; `None` when it does
/// not fit.
pub fn bump_alloc(next: usize, size: usize, align: usize, heap_size: usize) -> (r: Option<(usize, usize)>)
    requires
        align > 0,
    ensures
        round_up(next as int, align as int) + size > heap_size ==> r is None,
        round_up(next as int, align as int) + size <= heap_size ==> r == Some(
            (round_up(next as int, align as int) as usize, (round_up(next as int, align as int) + size) as usize),
        ),
{
    if next > heap_size {
        return None;
    }
    let rem = next % align;
    let pad = if rem == 0 { 0 } else { align - rem };
    if pad > heap_size - next {
        return None;
    }
    let aligned = next + pad;
    if size > heap_size - aligned {
        return None;
    }
    Some((aligned, aligned + size))
}

/// Bytes in the kernel heap.
pub const HEAP_SIZE: usize = 524288;

/// The kernel heap's allocator: regions are handed out upward from the
/// start of the heap and never freed.
pub struct BumpAllocator {
    next: usize,
}

impl BumpAllocator {
    /// The first offset not yet handed out.
    pub closed spec fn used(&self) -> nat {
        self.next as nat
    }

    /// An empty heap.
    pub fn new() -> (a: Self)
        ensures
            a.used() == 0,
    {
        BumpAllocator { next: 0 }
    }

    /// Allocate `size` bytes aligned to `align`: the offset of the region,
    /// at the first multiple of `align` not yet used, or `None` (nothing
    /// used) when it would pass the end of the heap.
    pub fn alloc_region(&mut self, size: usize, align: usize) -> (r: Option<usize>)
        requires
            align > 0,
        ensures
            round_up(old(self).used() as int, align as int) + size > HEAP_SIZE ==> r is None && final(self).used()
                == old(self).used(),
            round_up(old(self).used() as int, align as int) + size <= HEAP_SIZE ==> r == Some(
                round_up(old(self).used() as int, align as int) as usize,
            ) && final(self).used() == round_up(old(self).used() as int, align as int) + size,
    {
        match bump_alloc(self.next, size, align, HEAP_SIZE) {
            Some((start, end)) => {
                self.next = end;
                Some(start)
            },
            None => None,
        }
    }
}

} // verus!
