//! Layout of a legacy virtqueue in memory (queue alignment 4096): the
//! descriptor table, the available ring and, on the next page boundary,
//! the used ring; and the search for a run of physically contiguous pages
//! to hold one.
use vstd::prelude::*;

verus! {

/// Bytes in a page, the queue alignment.
pub const QUEUE_ALIGN: usize = 4096;

/// Pages of backing storage the search looks through.
pub const VQ_BUF_PAGES: usize = 6;

/// The largest queue depth whose layout the functions here compute (beyond
/// it the offsets leave the address range).
pub const VQ_MAX_DEPTH: usize = 0x0100_0000;

/// `x` rounded up to a multiple of 4096.
pub open spec fn align_up(x: int) -> int {
    ((x + 4095) / 4096) * 4096
}

/// Where the used ring starts for a queue of depth `q`: after the
/// descriptors (16 bytes each) and the available ring (flags, index, `q`
/// entries of two bytes, used-event), rounded up to the queue alignment.
pub open spec fn used_base(q: int) -> int {
    align_up(q * 16 + 4 + q * 2 + 2)
}

/// Bytes a queue of depth `q` takes: up to the end of the used ring (flags,
/// index, `q` entries of eight bytes, avail-event).
pub open spec fn total_bytes(q: int) -> int {
    used_base(q) + 4 + q * 8 + 2
}

/// Offset of the available ring's index.
pub fn vq_avail_idx_off(q: usize) -> (r: usize)
    requires
        q <= VQ_MAX_DEPTH,
    ensures
        r == q * 16 + 2,
{
    q * 16 + 2
}

/// Offset of the available ring's first entry.
pub fn vq_avail_ring_off(q: usize) -> (r: usize)
    requires
        q <= VQ_MAX_DEPTH,
    ensures
        r == q * 16 + 4,
{
    q * 16 + 4
}

/// Offset of the used ring (see `used_base`).
pub fn vq_used_base(q: usize) -> (r: usize)
    requires
        q <= VQ_MAX_DEPTH,
    ensures
        r == used_base(q as int),
{
    let avail_end = q * 16 + 4 + q * 2 + 2;
    let x = avail_end + 4095;
    let r = x & !4095usize;
    assert(x & !4095usize == x - x % 4096) by (bit_vector);
    assert(x - x % 4096 == (x / 4096) * 4096) by (nonlinear_arith);
    r
}

/// Offset of the used ring's index.
pub fn vq_used_idx_off(q: usize) -> (r: usize)
    requires
        q <= VQ_MAX_DEPTH,
    ensures
        r == used_base(q as int) + 2,
{
    vq_used_base(q) + 2
}

/// Bytes a queue of depth `q` takes (see `total_bytes`).
pub fn vq_total_bytes(q: usize) -> (r: usize)
    requires
        q <= VQ_MAX_DEPTH,
    ensures
        r == total_bytes(q as int),
{
    vq_used_base(q) + 4 + q * 8 + 2
}

/// Pages a queue of depth `q` takes.
pub fn vq_pages_needed(q: usize) -> (r: usize)
    requires
        q <= VQ_MAX_DEPTH,
    ensures
        r == (total_bytes(q as int) + 4095) / 4096,
        r as int * 4096 >= total_bytes(q as int),
{
    let t = vq_total_bytes(q);
    let r = (t + 4095) / 4096;
    assert(r as int * 4096 >= t) by (nonlinear_arith)
        requires
            r == (t + 4095) / 4096,
    ;
    r
}

/// Whether the `needed` pages from page `i` on are physically contiguous:
/// each page's physical address is its predecessor's plus 4096.
pub open spec fn contiguous_at(phys: Seq<usize>, i: int, needed: int) -> bool {
    forall|j: int| i <= j < i + needed - 1 ==> #[trigger] phys[j + 1] == phys[j] + 4096
}

/// The first page index at or after `i` (and at most `6 - needed`) that
/// starts a contiguous run of `needed` pages.
pub open spec fn first_run_from(phys: Seq<usize>, needed: int, i: int) -> Option<int>
    decreases 7 - i,
{
    if i < 0 || i > 6 - needed {
        None
    } else if contiguous_at(phys, i, needed) {
        Some(i)
    } else {
        first_run_from(phys, needed, i + 1)
    }
}

/// The first page of the storage (whose six pages have physical addresses
/// `phys`) that starts a run of `needed` physically contiguous pages;
/// `None` when `needed` is 0 or more than six, or there is no such run.
pub fn find_contiguous_pages(needed: usize, phys: &[usize; 6]) -> (r: Option<usize>)
    ensures
        needed == 0 || needed > 6 ==> r is None,
        1 <= needed <= 6 ==> r == match first_run_from(phys@, needed as int, 0) {
            Some(i) => Some(i as usize),
            None => None::<usize>,
        },
{
    if needed == 0 || needed > VQ_BUF_PAGES {
        return None;
    }
    let mut i: usize = 0;
    while i <= VQ_BUF_PAGES - needed
        invariant
            1 <= needed <= 6,
            i <= 7 - needed,
            first_run_from(phys@, needed as int, 0) == first_run_from(phys@, needed as int, i as int),
        decreases 7 - needed - i,
    {
        let mut ok = true;
        let mut j: usize = 0;
        while j < needed - 1
            invariant
                1 <= needed <= 6,
                i <= 6 - needed,
                j <= needed - 1,
                ok == contiguous_at(phys@, i as int, j as int + 1),
            decreases needed - 1 - j,
        {
            let p0 = phys[i + j];
            let p1 = phys[i + j + 1];
            if p0 > usize::MAX - 4096 || p1 != p0 + 4096 {
                ok = false;
            }
            j = j + 1;
        }
        if ok {
            return Some(i);
        }
        i = i + 1;
    }
    None
}

} // verus!
