//! Byte-level access to a block device for the FAT driver: a cursor with a
//! one-block write-back cache, an in-memory disk for an embedded volume
//! image, and path splitting.
use vstd::prelude::*;
use crate::fs::block::{BLOCK_SIZE, BlockDevice};

verus! {

/// Size of the in-memory FAT disk (2 MiB).
pub const RAM_FAT_SIZE: usize = 2097152;

/// Blocks of the in-memory FAT disk.
pub const RAM_BLOCKS: usize = 4096;

/// Byte positions a `u32` block number reaches: 512 × 2^32.
pub const MAX_BYTE_POS: u64 = 0x200_0000_0000;

/// Where a seek is measured from.
#[derive(Clone, Copy, PartialEq, Eq, Debug, Structural)]
pub enum SeekFrom {
    Start(u64),
    End(i64),
    Current(i64),
}

/// A byte cursor over a block device with a one-block write-back cache:
/// the current block is held in memory, and written back (when changed)
/// before another block is loaded and on `flush`.
pub struct BlockIo<D: BlockDevice> {
    dev: D,
    pos: u64,
    buf: [u8; BLOCK_SIZE],
    buf_lba: Option<u32>,
    buf_dirty: bool,
}

impl<D: BlockDevice> BlockIo<D> {
    /// The cache is consistent: a changed block is a cached one, and an
    /// unchanged cached block is a copy of a block of the device.
    pub closed spec fn wf(&self) -> bool {
        &&& (self.buf_dirty ==> self.buf_lba is Some)
        &&& (!self.buf_dirty ==> match self.buf_lba {
            Some(l) => (l as int) < self.dev.blocks().len() && self.buf@ == self.dev.blocks()[l as int],
            None => true,
        })
    }

    /// Block `l` as this cursor sees it: the cached copy, else the
    /// device's (empty past the end of the device).
    pub closed spec fn block(&self, l: int) -> Seq<u8> {
        if 0 <= l <= u32::MAX && self.buf_lba == Some(l as u32) {
            self.buf@
        } else if 0 <= l < self.dev.blocks().len() {
            self.dev.blocks()[l]
        } else {
            Seq::empty()
        }
    }

    /// The byte position.
    pub closed spec fn position(&self) -> u64 {
        self.pos
    }

    /// The blocks of the device.
    pub closed spec fn device(&self) -> Seq<Seq<u8>> {
        self.dev.blocks()
    }

    /// A changed cached block lies past the end of the device: it can
    /// never be written back.
    pub closed spec fn stuck(&self) -> bool {
        self.buf_dirty && match self.buf_lba {
            Some(l) => (l as int) >= self.dev.blocks().len(),
            None => false,
        }
    }

    /// A cursor at byte 0 of `dev`, nothing cached.
    pub fn new(dev: D) -> (io: Self)
        ensures
            io.wf(),
            io.position() == 0,
            !io.stuck(),
            io.device() == dev.blocks(),
            forall|l: int| 0 <= l < dev.blocks().len() ==> #[trigger] io.block(l) == dev.blocks()[l],
    {
        BlockIo { dev, pos: 0, buf: [0u8; 512], buf_lba: None, buf_dirty: false }
    }

    /// Write the cached block back if it changed. `Err` when it lies past
    /// the end of the device (then nothing changes).
    fn flush_dirty(&mut self) -> (r: Result<(), ()>)
        requires
            old(self).wf(),
        ensures
            final(self).wf(),
            final(self).pos == old(self).pos,
            final(self).buf_lba == old(self).buf_lba,
            forall|l: int| 0 <= l <= u32::MAX ==> #[trigger] final(self).block(l) == old(self).block(l),
            final(self).device().len() == old(self).device().len(),
            r is Err <==> old(self).stuck(),
            r is Ok ==> !final(self).buf_dirty,
            r is Err ==> final(self).buf_dirty == old(self).buf_dirty && final(self).device() == old(self).device(),
    {
        if self.buf_dirty {
            match self.buf_lba {
                Some(lba) => {
                    let ghost before = self.dev.blocks();
                    if self.dev.write_block(lba, &self.buf).is_err() {
                        return Err(());
                    }
                    self.buf_dirty = false;
                    assert forall|l: int| 0 <= l <= u32::MAX implies #[trigger] self.block(l) == old(self).block(l) by {
                        if self.buf_lba != Some(l as u32) && 0 <= l < before.len() {
                            assert(self.dev.blocks()[l] == before[l]);
                        }
                    }
                },
                None => {},
            }
        }
        Ok(())
    }

    /// Have block `lba` cached: write back the cached block if it changed,
    /// then load `lba`. `Err` when either step fails.
    fn ensure_block(&mut self, lba: u32) -> (r: Result<(), ()>)
        requires
            old(self).wf(),
        ensures
            final(self).wf(),
            final(self).pos == old(self).pos,
            forall|l: int| 0 <= l <= u32::MAX ==> #[trigger] final(self).block(l) == old(self).block(l),
            final(self).device().len() == old(self).device().len(),
            r is Ok ==> final(self).buf_lba == Some(lba) && final(self).block(lba as int).len() == BLOCK_SIZE,
            old(self).buf_lba == Some(lba) || (!old(self).stuck() && (lba as int) < old(self).device().len())
                ==> r is Ok,
            !old(self).stuck() ==> !final(self).stuck(),
    {
        if self.buf_lba == Some(lba) {
            return Ok(());
        }
        self.flush_dirty()?;
        let ghost mid = *self;
        let ghost before = self.dev.blocks();
        if self.dev.read_block(lba, &mut self.buf).is_err() {
            assert forall|l: int| 0 <= l <= u32::MAX implies #[trigger] self.block(l) == old(self).block(l) by {
                assert(self.block(l) == mid.block(l));
            }
            return Err(());
        }
        self.buf_lba = Some(lba);
        assert forall|l: int| 0 <= l <= u32::MAX implies #[trigger] self.block(l) == old(self).block(l) by {
            assert(mid.block(l) == old(self).block(l));
        }
        Ok(())
    }
}

/// The blocks of an in-memory FAT disk holding `img`: the image (its first
/// 2 MiB) followed by zeros, cut in 512-byte blocks.
pub open spec fn image_blocks(img: Seq<u8>) -> Seq<Seq<u8>> {
    Seq::new(
        RAM_BLOCKS as nat,
        |i: int| Seq::new(512, |j: int| if i * 512 + j < img.len() { img[i * 512 + j] } else { 0u8 }),
    )
}

/// A 2 MiB disk in memory, for a FAT volume embedded as an image.
pub struct RamDisk {
    data: Vec<u8>,
}

impl RamDisk {
    /// A disk holding `img` (its first 2 MiB), the rest zeros.
    pub fn from_image(img: &[u8]) -> (d: Self)
        ensures
            d.blocks() == image_blocks(img@),
    {
        let mut data = vec![0u8; RAM_FAT_SIZE];
        let copy_len = if img.len() < RAM_FAT_SIZE { img.len() } else { RAM_FAT_SIZE };
        let mut i: usize = 0;
        while i < copy_len
            invariant
                i <= copy_len,
                copy_len <= img@.len(),
                copy_len <= RAM_FAT_SIZE,
                copy_len == if img@.len() < RAM_FAT_SIZE { img@.len() as int } else { RAM_FAT_SIZE as int },
                data@.len() == RAM_FAT_SIZE,
                forall|k: int| 0 <= k < i ==> data@[k] == img@[k],
                forall|k: int| i <= k < RAM_FAT_SIZE ==> data@[k] == 0,
            decreases copy_len - i,
        {
            data.set(i, img[i]);
            i = i + 1;
        }
        let d = RamDisk { data };
        assert forall|b: int| 0 <= b < RAM_BLOCKS implies #[trigger] d.blocks()[b] =~= image_blocks(img@)[b] by {}
        assert(d.blocks() =~= image_blocks(img@));
        d
    }
}

/// The number of whole blocks in `len` bytes, at most `RAM_BLOCKS`.
pub open spec fn ram_fat_blocks(len: int) -> int {
    if len / 512 <= 4096 { len / 512 } else { 4096 }
}

impl BlockDevice for RamDisk {
    closed spec fn blocks(&self) -> Seq<Seq<u8>> {
        Seq::new(
            ram_fat_blocks(self.data@.len() as int) as nat,
            |i: int| self.data@.subrange(i * 512, i * 512 + 512),
        )
    }

    proof fn lemma_blocks_fit(&self) {
    }

    fn read_block(&mut self, lba: u32, buf: &mut [u8; BLOCK_SIZE]) -> (r: Result<(), ()>) {
        if lba as usize >= RAM_BLOCKS || (lba as usize + 1) * BLOCK_SIZE > self.data.len() {
            return Err(());
        }
        let off = lba as usize * BLOCK_SIZE;
        let mut i: usize = 0;
        while i < BLOCK_SIZE
            invariant
                i <= BLOCK_SIZE,
                off == lba * BLOCK_SIZE,
                lba < RAM_BLOCKS,
                off + BLOCK_SIZE <= self.data@.len(),
                *self == *old(self),
                forall|k: int| 0 <= k < i ==> buf@[k] == self.data@[off + k],
            decreases BLOCK_SIZE - i,
        {
            buf[i] = self.data[off + i];
            i = i + 1;
        }
        assert(buf@ =~= self.blocks()[lba as int]);
        Ok(())
    }

    fn write_block(&mut self, lba: u32, buf: &[u8; BLOCK_SIZE]) -> (r: Result<(), ()>) {
        if lba as usize >= RAM_BLOCKS || (lba as usize + 1) * BLOCK_SIZE > self.data.len() {
            return Err(());
        }
        let off = lba as usize * BLOCK_SIZE;
        let ghost d0 = self.data@;
        let mut i: usize = 0;
        while i < BLOCK_SIZE
            invariant
                i <= BLOCK_SIZE,
                off == lba * BLOCK_SIZE,
                lba < RAM_BLOCKS,
                d0 == old(self).data@,
                off + BLOCK_SIZE <= d0.len(),
                self.data@.len() == d0.len(),
                forall|k: int| 0 <= k < off ==> self.data@[k] == d0[k],
                forall|k: int| off + BLOCK_SIZE <= k < d0.len() ==> self.data@[k] == d0[k],
                forall|k: int| 0 <= k < i ==> self.data@[off + k] == buf@[k],
                forall|k: int| off + i <= k < off + BLOCK_SIZE ==> self.data@[k] == d0[k],
            decreases BLOCK_SIZE - i,
        {
            self.data.set(off + i, buf[i]);
            i = i + 1;
        }
        proof {
            let nb = old(self).blocks().update(lba as int, buf@);
            assert forall|b: int| 0 <= b < nb.len() implies #[trigger] self.blocks()[b] == nb[b] by {
                if b == lba {
                    assert(self.blocks()[b] =~= buf@);
                } else {
                    assert(self.blocks()[b] =~= old(self).blocks()[b]);
                }
            }
            assert(self.blocks() =~= nb);
        }
        Ok(())
    }

    fn block_count(&self) -> (n: u32) {
        if self.data.len() / BLOCK_SIZE <= RAM_BLOCKS {
            (self.data.len() / BLOCK_SIZE) as u32
        } else {
            RAM_BLOCKS as u32
        }
    }
}

/// Block `l` (whose bytes were `b`) after `data` is written at byte
/// position `pos`.
pub open spec fn written(b: Seq<u8>, l: int, pos: int, data: Seq<u8>) -> Seq<u8> {
    if data.len() > 0 && pos < 512 * l + 512 && 512 * l < pos + data.len() {
        Seq::new(
            512,
            |j: int| if pos <= 512 * l + j < pos + data.len() { data[512 * l + j - pos] } else if j < b.len() { b[j] } else { 0u8 },
        )
    } else {
        b
    }
}

/// Writing `avail` more bytes, all in block `l` from offset `off`, over a
/// block that held the earlier bytes of the write.
proof fn lemma_written_step(
    b: Seq<u8>,
    l: int,
    p0: int,
    data: Seq<u8>,
    done: int,
    avail: int,
    off: int,
    cached: Seq<u8>,
    nb: Seq<u8>,
)
    requires
        0 <= done,
        p0 >= 0,
        p0 + done == 512 * l + off,
        0 <= off < 512,
        1 <= avail,
        off + avail <= 512,
        done + avail <= data.len(),
        nb.len() == 512,
        forall|j: int| off <= j < off + avail ==> #[trigger] nb[j] == data[done + j - off],
        forall|j: int| 0 <= j < 512 && (j < off || j >= off + avail) ==> #[trigger] nb[j] == cached[j],
        off > 0 || avail < 512 ==> cached == written(b, l, p0, data.take(done)) && cached.len() == 512,
    ensures
        nb == written(b, l, p0, data.take(done + avail)),
{
    let w = written(b, l, p0, data.take(done + avail));
    assert forall|j: int| 0 <= j < 512 implies #[trigger] nb[j] == w[j] by {
        if off <= j < off + avail {
        } else if off > 0 || avail < 512 {
            let c = written(b, l, p0, data.take(done));
            assert(cached[j] == c[j]);
        }
    }
    assert(nb =~= w);
}

/// Bytes written in block `l` leave every other block as it was.
proof fn lemma_written_other(b: Seq<u8>, l: int, k: int, p0: int, data: Seq<u8>, done: int, avail: int)
    requires
        0 <= done,
        0 <= avail,
        p0 >= 0,
        512 * l <= p0 + done,
        p0 + done + avail <= 512 * l + 512,
        done + avail <= data.len(),
        k != l,
    ensures
        written(b, k, p0, data.take(done)) == written(b, k, p0, data.take(done + avail)),
{
    let a = written(b, k, p0, data.take(done));
    let c = written(b, k, p0, data.take(done + avail));
    let da = data.take(done);
    let dc = data.take(done + avail);
    if done > 0 && p0 < 512 * k + 512 && 512 * k < p0 + done {
        assert(p0 < 512 * k + 512 && 512 * k < p0 + done + avail);
        assert forall|j: int| 0 <= j < 512 implies #[trigger] a[j] == c[j] by {
            if k < l {
                assert(512 * k + j < 512 * l);
            } else {
                assert(512 * k + j >= 512 * l + 512);
            }
            if p0 <= 512 * k + j < p0 + done {
                assert(da[512 * k + j - p0] == dc[512 * k + j - p0]);
            }
        }
        assert(a =~= c);
    } else if done + avail > 0 && p0 < 512 * k + 512 && 512 * k < p0 + done + avail {
        if k < l {
            assert(512 * k + 512 <= p0 + done);
        } else {
            assert(512 * k >= p0 + done + avail);
        }
    }
}

/// Byte `k` of a write, read back: in the block that position `pos + k`
/// falls in, at its offset there, the written block holds `data[k]`,
/// whatever the block held before.
pub proof fn lemma_written_reads_back(b: Seq<u8>, pos: int, data: Seq<u8>, k: int)
    requires
        pos >= 0,
        0 <= k < data.len(),
    ensures
        written(b, (pos + k) / 512, pos, data)[(pos + k) % 512] == data[k],
{
    let l = (pos + k) / 512;
    let j = (pos + k) % 512;
    assert(512 * l + j == pos + k);
}

/// Stepping within a block stays in that block.
proof fn lemma_in_block(p: int, j: int)
    requires
        p >= 0,
        0 <= j < 512 - p % 512,
    ensures
        (p + j) / 512 == p / 512,
        (p + j) % 512 == p % 512 + j,
        512 * (p / 512) + p % 512 == p,
{
}

impl<D: BlockDevice> BlockIo<D> {
    /// Read `buf.len()` bytes from the current position (see `block`) and
    /// move past them. `Err` when a block cannot be loaded (past the end of
    /// the device) or the cached block cannot be written back; reading
    /// never changes what the blocks hold.
    pub fn read(&mut self, buf: &mut [u8]) -> (r: Result<usize, ()>)
        requires
            old(self).wf(),
            old(self).position() + old(buf)@.len() <= MAX_BYTE_POS,
        ensures
            final(self).wf(),
            final(buf)@.len() == old(buf)@.len(),
            final(self).device().len() == old(self).device().len(),
            forall|l: int| 0 <= l <= u32::MAX ==> #[trigger] final(self).block(l) == old(self).block(l),
            r is Ok ==> r == Ok::<usize, ()>(old(buf)@.len() as usize) && final(self).position() == old(self).position()
                + old(buf)@.len() && forall|k: int| 0 <= k < old(buf)@.len() ==> #[trigger] final(buf)@[k] == old(
                self,
            ).block((old(self).position() + k) / 512)[(old(self).position() + k) % 512],
            !old(self).stuck() && (forall|p: int| old(self).position() <= p < old(self).position() + old(buf)@.len()
                ==> #[trigger] (p / 512) < old(self).device().len()) ==> r is Ok,
    {
        let ghost p0 = self.pos as int;
        let ghost nb = self.device().len();
        let ghost ok_owed = !self.stuck() && (forall|p: int| p0 <= p < p0 + buf@.len() ==> #[trigger] (p / 512) < nb);
        let blen = buf.len();
        let mut done: usize = 0;
        while done < blen
            invariant
                self.wf(),
                blen == buf@.len(),
                ok_owed == (!old(self).stuck() && (forall|p: int| old(self).pos <= p < old(self).pos + old(buf)@.len()
                    ==> #[trigger] (p / 512) < old(self).device().len())),
                done <= buf@.len(),
                buf@.len() == old(buf)@.len(),
                p0 == old(self).pos,
                p0 + buf@.len() <= MAX_BYTE_POS,
                self.pos == p0 + done,
                nb == old(self).device().len(),
                self.device().len() == nb,
                forall|l: int| 0 <= l <= u32::MAX ==> #[trigger] self.block(l) == old(self).block(l),
                forall|k: int| 0 <= k < done ==> #[trigger] buf@[k] == old(self).block((p0 + k) / 512)[(p0 + k) % 512],
                ok_owed ==> !self.stuck() && (forall|p: int| p0 <= p < p0 + buf@.len() ==> #[trigger] (p / 512) < nb),
            decreases buf@.len() - done,
        {
            let lba = (self.pos / 512) as u32;
            let off = (self.pos % 512) as usize;
            assert(lba as int == (p0 + done) / 512);
            proof {
                if ok_owed {
                    assert((p0 + done) / 512 < nb);
                }
            }
            self.ensure_block(lba)?;
            let ghost mid = *self;
            let mut avail = BLOCK_SIZE - off;
            if blen - done < avail {
                avail = blen - done;
            }
            let ghost before = buf@;
            let mut j: usize = 0;
            while j < avail
                invariant
                    j <= avail,
                    off + avail <= 512,
                    done + avail <= blen,
                    blen == buf@.len(),
                    *self == mid,
                    buf@.len() == before.len(),
                    self.buf@.len() == 512,
                    forall|k: int| 0 <= k < j ==> #[trigger] buf@[done + k] == self.buf@[off + k],
                    forall|k: int| 0 <= k < done ==> #[trigger] buf@[k] == before[k],
                    forall|k: int| done + j <= k < before.len() ==> #[trigger] buf@[k] == before[k],
                decreases avail - j,
            {
                buf[done + j] = self.buf[off + j];
                j = j + 1;
            }
            proof {
                assert(self.block(lba as int) == self.buf@);
                assert forall|k: int| done <= k < done + avail implies #[trigger] buf@[k] == old(self).block(
                    (p0 + k) / 512,
                )[(p0 + k) % 512] by {
                    lemma_in_block(p0 + done, k - done);
                    assert(buf@[done + (k - done)] == self.buf@[off + (k - done)]);
                }
            }
            done = done + avail;
            self.pos = self.pos + avail as u64;
            assert forall|l: int| 0 <= l <= u32::MAX implies #[trigger] self.block(l) == old(self).block(l) by {
                assert(self.block(l) == mid.block(l));
            }
        }
        Ok(done)
    }

    /// Write `data` at the current position and move past it (see
    /// `written`). A block partly covered is first loaded; one covered
    /// whole is not read. `Err` when a block cannot be loaded or the cached
    /// block cannot be written back.
    pub fn write(&mut self, data: &[u8]) -> (r: Result<usize, ()>)
        requires
            old(self).wf(),
            old(self).position() + data@.len() <= MAX_BYTE_POS,
        ensures
            final(self).wf(),
            final(self).device().len() == old(self).device().len(),
            r is Ok ==> r == Ok::<usize, ()>(data@.len() as usize) && final(self).position() == old(self).position()
                + data@.len() && forall|l: int| 0 <= l <= u32::MAX ==> #[trigger] final(self).block(l) == written(
                old(self).block(l),
                l,
                old(self).position() as int,
                data@,
            ),
            !old(self).stuck() && (forall|p: int| old(self).position() <= p < old(self).position() + data@.len()
                ==> #[trigger] (p / 512) < old(self).device().len()) ==> r is Ok,
    {
        let ghost p0 = self.pos as int;
        let ghost nb = self.device().len();
        let ghost ok_owed = !self.stuck() && (forall|p: int| p0 <= p < p0 + data@.len() ==> #[trigger] (p / 512) < nb);
        let mut done: usize = 0;
        assert forall|l: int| 0 <= l <= u32::MAX implies #[trigger] self.block(l) == written(
            old(self).block(l),
            l,
            p0,
            data@.take(0),
        ) by {}
        while done < data.len()
            invariant
                self.wf(),
                ok_owed == (!old(self).stuck() && (forall|p: int| old(self).pos <= p < old(self).pos + data@.len()
                    ==> #[trigger] (p / 512) < old(self).device().len())),
                done <= data@.len(),
                p0 == old(self).pos,
                p0 + data@.len() <= MAX_BYTE_POS,
                self.pos == p0 + done,
                nb == old(self).device().len(),
                self.device().len() == nb,
                forall|l: int| 0 <= l <= u32::MAX ==> #[trigger] self.block(l) == written(
                    old(self).block(l),
                    l,
                    p0,
                    data@.take(done as int),
                ),
                ok_owed ==> !self.stuck() && (forall|p: int| p0 <= p < p0 + data@.len() ==> #[trigger] (p / 512) < nb),
            decreases data@.len() - done,
        {
            let lba = (self.pos / 512) as u32;
            let off = (self.pos % 512) as usize;
            assert(lba as int == (p0 + done) / 512);
            proof {
                if ok_owed {
                    assert((p0 + done) / 512 < nb);
                }
            }
            let ghost prev = *self;
            if off != 0 || data.len() - done < BLOCK_SIZE {
                self.ensure_block(lba)?;
            } else {
                self.flush_dirty()?;
                let ghost fl = *self;
                self.buf_lba = Some(lba);
                self.buf = [0u8; 512];
                assert forall|l: int| 0 <= l <= u32::MAX && l != lba implies #[trigger] self.block(l) == prev.block(l) by {
                    assert(fl.block(l) == prev.block(l));
                }
            }
            let mut avail = BLOCK_SIZE - off;
            if data.len() - done < avail {
                avail = data.len() - done;
            }
            let ghost cached = self.buf@;
            let ghost mid = *self;
            let dlen = data.len();
            let mut j: usize = 0;
            while j < avail
                invariant
                    j <= avail,
                    off + avail <= 512,
                    done + avail <= dlen,
                    dlen == data@.len(),
                    self.buf@.len() == 512,
                    cached.len() == 512,
                    forall|k: int| 0 <= k < j ==> #[trigger] self.buf@[off + k] == data@[done + k],
                    forall|k: int| 0 <= k < off ==> #[trigger] self.buf@[k] == cached[k],
                    forall|k: int| off + j <= k < 512 ==> #[trigger] self.buf@[k] == cached[k],
                    self.dev == mid.dev,
                    self.buf_lba == mid.buf_lba,
                    self.buf_dirty == mid.buf_dirty,
                    self.pos == mid.pos,
                decreases avail - j,
            {
                self.buf[off + j] = data[done + j];
                j = j + 1;
            }
            self.buf_dirty = true;
            proof {
                let pn = data@.take(done + avail);
                let pd = data@.take(done as int);
                assert forall|j: int| off <= j < off + avail implies #[trigger] self.buf@[j] == data@[done + j - off] by {
                    assert(self.buf@[off + (j - off)] == data@[done + (j - off)]);
                }
                lemma_written_step(
                    old(self).block(lba as int),
                    lba as int,
                    p0,
                    data@,
                    done as int,
                    avail as int,
                    off as int,
                    cached,
                    self.buf@,
                );
                assert forall|l: int| 0 <= l <= u32::MAX implies #[trigger] self.block(l) == written(
                    old(self).block(l),
                    l,
                    p0,
                    pn,
                ) by {
                    if l == lba {
                        assert(self.block(l) == self.buf@);
                    } else {
                        assert(self.block(l) == mid.block(l));
                        assert(mid.block(l) == prev.block(l));
                        lemma_written_other(old(self).block(l), lba as int, l, p0, data@, done as int, avail as int);
                    }
                }
            }
            let ghost before_move = *self;
            done = done + avail;
            self.pos = self.pos + avail as u64;
            assert forall|l: int| 0 <= l <= u32::MAX implies #[trigger] self.block(l) == written(
                old(self).block(l),
                l,
                p0,
                data@.take(done as int),
            ) by {
                assert(self.block(l) == before_move.block(l));
            }
        }
        assert(data@.take(done as int) =~= data@);
        Ok(done)
    }

    /// Write back the cached block if it changed. `Err` when it lies past
    /// the end of the device.
    pub fn flush(&mut self) -> (r: Result<(), ()>)
        requires
            old(self).wf(),
        ensures
            final(self).wf(),
            final(self).position() == old(self).position(),
            forall|l: int| 0 <= l <= u32::MAX ==> #[trigger] final(self).block(l) == old(self).block(l),
            r is Err <==> old(self).stuck(),
            r is Ok ==> !final(self).stuck(),
    {
        self.flush_dirty()
    }

    /// Move the position: to `n` from the start, or by `n` from the
    /// current position; a position before 0 is `Err`, and so is a seek
    /// from the end (the size is not known).
    pub fn seek(&mut self, from: SeekFrom) -> (r: Result<u64, ()>)
        requires
            old(self).wf(),
            from matches SeekFrom::Current(n) ==> i64::MIN <= (old(self).position() as i64) + n <= i64::MAX,
        ensures
            final(self).wf(),
            forall|l: int| 0 <= l <= u32::MAX ==> #[trigger] final(self).block(l) == old(self).block(l),
            ({
                let target: int = match from {
                    SeekFrom::Start(n) => (n as i64) as int,
                    SeekFrom::Current(n) => (old(self).position() as i64) + n,
                    SeekFrom::End(_) => -1,
                };
                &&& target < 0 ==> r is Err && final(self).position() == old(self).position()
                &&& target >= 0 ==> r == Ok::<u64, ()>(target as u64) && final(self).position() == target as u64
            }),
    {
        let new_pos: i64 = match from {
            SeekFrom::Start(n) => n as i64,
            SeekFrom::Current(n) => self.pos as i64 + n,
            SeekFrom::End(_) => {
                return Err(());
            },
        };
        if new_pos < 0 {
            return Err(());
        }
        self.pos = new_pos as u64;
        Ok(self.pos)
    }
}

/// `path` without its leading `/` characters.
pub open spec fn trim_slashes(s: Seq<u8>) -> Seq<u8>
    decreases s.len(),
{
    if s.len() > 0 && s[0] == 0x2F { trim_slashes(s.drop_first()) } else { s }
}

/// Position of the last `/` in `s` before `i`.
pub open spec fn last_slash(s: Seq<u8>, i: int) -> Option<int>
    decreases i,
{
    if i <= 0 {
        None
    } else if s[i - 1] == 0x2F {
        Some(i - 1)
    } else {
        last_slash(s, i - 1)
    }
}

/// `path` without its leading `/` characters: the name a directory
/// operation looks up (empty for the root directory).
pub fn trim_leading_slashes(path: &[u8]) -> (r: &[u8])
    ensures
        r@ == trim_slashes(path@),
{
    let mut s: usize = 0;
    assert(path@.skip(0) =~= path@);
    while s < path.len() && path[s] == 0x2F
        invariant
            s <= path@.len(),
            trim_slashes(path@) == trim_slashes(path@.skip(s as int)),
        decreases path@.len() - s,
    {
        assert(path@.skip(s as int).drop_first() =~= path@.skip(s + 1));
        s = s + 1;
    }
    let p = vstd::slice::slice_subrange(path, s, path.len());
    assert(p@ =~= path@.skip(s as int));
    p
}

/// Split `dir/file` (or `/dir/file`) into `(dir, file)` at the last `/`
/// after the leading ones are dropped; a bare `file` gives `("", file)`.
pub fn split_path(path: &[u8]) -> (r: (&[u8], &[u8]))
    ensures
        ({
            let p = trim_slashes(path@);
            match last_slash(p, p.len() as int) {
                Some(k) => r.0@ == p.take(k) && r.1@ == p.skip(k + 1),
                None => r.0@ == Seq::<u8>::empty() && r.1@ == p,
            }
        }),
{
    let p = trim_leading_slashes(path);
    let mut i: usize = p.len();
    while i > 0 && p[i - 1] != 0x2F
        invariant
            i <= p@.len(),
            last_slash(p@, p@.len() as int) == last_slash(p@, i as int),
        decreases i,
    {
        i = i - 1;
    }
    if i == 0 {
        let e = vstd::slice::slice_subrange(p, 0, 0);
        assert(e@ =~= Seq::<u8>::empty());
        (e, p)
    } else {
        let a = vstd::slice::slice_subrange(p, 0, i - 1);
        let b = vstd::slice::slice_subrange(p, i, p.len());
        assert(a@ =~= p@.take(i - 1));
        assert(b@ =~= p@.skip(i as int));
        (a, b)
    }
}

} // verus!
