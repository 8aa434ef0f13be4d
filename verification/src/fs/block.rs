//! Block devices: numbered 512-byte sectors, and a ramdisk that keeps
//! them in memory.
use vstd::prelude::*;

verus! {

/// Sector size in bytes.
pub const BLOCK_SIZE: usize = 512;

/// Number of blocks of a `Ramdisk` (128 KiB).
pub const RAMDISK_BLOCKS: usize = 256;

/// Storage addressed in 512-byte blocks.
pub trait BlockDevice {
    /// The contents of the device, block by block.
    spec fn blocks(&self) -> Seq<Seq<u8>>;

    /// A device has no more blocks than a `u32` can number.
    proof fn lemma_blocks_fit(&self)
        ensures
            self.blocks().len() <= u32::MAX,
    ;

    /// Read block `lba` into `buf`: `Err` when `lba` is out of range, and
    /// then `buf` is left alone.
    fn read_block(&mut self, lba: u32, buf: &mut [u8; BLOCK_SIZE]) -> (r: Result<(), ()>)
        ensures
            final(self).blocks() == old(self).blocks(),
            r is Ok <==> (lba as int) < old(self).blocks().len(),
            r is Ok ==> final(buf)@ == old(self).blocks()[lba as int],
            r is Err ==> final(buf)@ == old(buf)@,
    ;

    /// Write `buf` to block `lba`: `Err` when `lba` is out of range, and then
    /// the device is left alone.
    fn write_block(&mut self, lba: u32, buf: &[u8; BLOCK_SIZE]) -> (r: Result<(), ()>)
        ensures
            r is Ok <==> (lba as int) < old(self).blocks().len(),
            r is Ok ==> final(self).blocks() == old(self).blocks().update(lba as int, buf@),
            r is Err ==> final(self).blocks() == old(self).blocks(),
    ;

    /// Total number of blocks.
    fn block_count(&self) -> (n: u32)
        ensures
            n == self.blocks().len(),
    ;
}

/// The number of whole blocks in `len` bytes, at most `RAMDISK_BLOCKS`.
pub open spec fn ram_block_count(len: int) -> int {
    if len / 512 <= 256 { len / 512 } else { 256 }
}

/// A 128 KiB device kept in memory, initially all zeros.
pub struct Ramdisk {
    data: Vec<u8>,
}

impl Ramdisk {
    /// A zeroed ramdisk.
    pub fn get() -> (d: Self)
        ensures
            d.blocks() == Seq::new(RAMDISK_BLOCKS as nat, |i: int| Seq::new(BLOCK_SIZE as nat, |j: int| 0u8)),
    {
        let data = vec![0u8; BLOCK_SIZE * RAMDISK_BLOCKS];
        let d = Ramdisk { data };
        assert forall|i: int| 0 <= i < RAMDISK_BLOCKS implies #[trigger] d.blocks()[i] =~= Seq::new(
            BLOCK_SIZE as nat,
            |j: int| 0u8,
        ) by {}
        assert(d.blocks() =~= Seq::new(RAMDISK_BLOCKS as nat, |i: int| Seq::new(BLOCK_SIZE as nat, |j: int| 0u8)));
        d
    }
}

impl BlockDevice for Ramdisk {
    closed spec fn blocks(&self) -> Seq<Seq<u8>> {
        Seq::new(
            ram_block_count(self.data@.len() as int) as nat,
            |i: int| self.data@.subrange(i * BLOCK_SIZE as int, i * BLOCK_SIZE as int + BLOCK_SIZE as int),
        )
    }

    proof fn lemma_blocks_fit(&self) {
    }

    fn read_block(&mut self, lba: u32, buf: &mut [u8; BLOCK_SIZE]) -> (r: Result<(), ()>) {
        if lba as usize >= RAMDISK_BLOCKS || (lba as usize + 1) * BLOCK_SIZE > self.data.len() {
            return Err(());
        }
        let offset = lba as usize * BLOCK_SIZE;
        let mut i: usize = 0;
        while i < BLOCK_SIZE
            invariant
                i <= BLOCK_SIZE,
                offset == lba * BLOCK_SIZE,
                lba < RAMDISK_BLOCKS,
                offset + BLOCK_SIZE <= self.data@.len(),
                *self == *old(self),
                forall|k: int| 0 <= k < i ==> buf@[k] == self.data@[offset + k],
            decreases BLOCK_SIZE - i,
        {
            buf[i] = self.data[offset + i];
            i = i + 1;
        }
        assert(buf@ =~= self.blocks()[lba as int]);
        Ok(())
    }

    fn write_block(&mut self, lba: u32, buf: &[u8; BLOCK_SIZE]) -> (r: Result<(), ()>) {
        if lba as usize >= RAMDISK_BLOCKS || (lba as usize + 1) * BLOCK_SIZE > self.data.len() {
            return Err(());
        }
        let offset = lba as usize * BLOCK_SIZE;
        let ghost d0 = self.data@;
        let mut i: usize = 0;
        while i < BLOCK_SIZE
            invariant
                i <= BLOCK_SIZE,
                offset == lba * BLOCK_SIZE,
                lba < RAMDISK_BLOCKS,
                d0 == old(self).data@,
                offset + BLOCK_SIZE <= d0.len(),
                self.data@.len() == d0.len(),
                forall|k: int| 0 <= k < offset ==> self.data@[k] == d0[k],
                forall|k: int| offset + BLOCK_SIZE <= k < d0.len() ==> self.data@[k] == d0[k],
                forall|k: int| 0 <= k < i ==> self.data@[offset + k] == buf@[k],
                forall|k: int| offset + i <= k < offset + BLOCK_SIZE ==> self.data@[k] == d0[k],
            decreases BLOCK_SIZE - i,
        {
            self.data.set(offset + i, buf[i]);
            i = i + 1;
        }
        proof {
            let nb = old(self).blocks().update(lba as int, buf@);
            assert forall|b: int| 0 <= b < nb.len() implies #[trigger] self.blocks()[b] == nb[b] by {
                if b == lba {
                    assert(self.blocks()[b] =~= buf@);
                } else {
                    assert(self.blocks()[b] =~= old(self).blocks()[b]);
                }
            }
            assert(self.blocks() =~= nb);
        }
        Ok(())
    }

    fn block_count(&self) -> (n: u32) {
        if self.data.len() / BLOCK_SIZE <= RAMDISK_BLOCKS {
            (self.data.len() / BLOCK_SIZE) as u32
        } else {
            RAMDISK_BLOCKS as u32
        }
    }
}

} // verus!
