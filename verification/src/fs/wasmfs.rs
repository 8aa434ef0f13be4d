//! WasmFS: a flat filesystem on a block device.
//!
//! Block 0 is the directory: eight 64-byte entries, each a 32-byte
//! NUL-padded name, the first data block (u32 LE), the size in bytes
//! (u32 LE) and a flags byte (bit 0: valid). File data lies in contiguous
//! blocks after the directory; a write always appends after the last used
//! block, so overwriting a file leaves its old blocks unused.
use vstd::prelude::*;
use vstd::string::StringSliceAdditionalSpecFns;
use crate::bytes::{bytes_eq, le32, le32_at, u32_from_le};
use crate::fs::block::{BLOCK_SIZE, BlockDevice};
use crate::text::{str_or_empty, text_or_empty};
use crate::fs::table::{FileTable, FileView, MAX_FILES, kept_name};

verus! {

/// Size of a directory entry.
pub const DIR_ENTRY_SIZE: usize = 64;

/// Directory entries in the directory block.
pub const DIR_ENTRIES_PER_BLOCK: usize = 8;

/// The directory block.
pub const DIR_BLOCK: u32 = 0;

/// The first block that can hold file data.
pub const DATA_START_BLOCK: u32 = 1;

/// Number of file descriptors.
pub const MAX_OPEN_FILES: usize = 4;

/// Flag bit of a directory entry in use.
pub const FLAG_VALID: u8 = 0x01;

/// A directory entry as values: the 32 name bytes, first block, size and
/// flags.
pub struct EntryView {
    pub name: Seq<u8>,
    pub start_block: u32,
    pub size: u32,
    pub flags: u8,
}

/// A directory entry.
#[derive(Clone, Copy)]
pub struct DirEntry {
    pub name: [u8; 32],
    pub start_block: u32,
    pub size: u32,
    pub flags: u8,
}

impl View for DirEntry {
    type V = EntryView;

    open spec fn view(&self) -> EntryView {
        EntryView { name: self.name@, start_block: self.start_block, size: self.size, flags: self.flags }
    }
}

/// The entry that 64 bytes hold.
pub open spec fn entry_from(b: Seq<u8>) -> EntryView {
    EntryView { name: b.subrange(0, 32), start_block: le32_at(b, 32), size: le32_at(b, 36), flags: b[40] }
}

/// The 64 bytes of an entry: name, first block, size, flags, then zeros.
pub open spec fn entry_bytes(e: EntryView) -> Seq<u8> {
    e.name + le32(e.start_block) + le32(e.size) + seq![e.flags] + Seq::new(23, |i: int| 0u8)
}

/// Whether an entry is in use.
pub open spec fn entry_valid(e: EntryView) -> bool {
    e.flags & FLAG_VALID != 0
}

/// Position of the first NUL in `n` (its length if none).
pub open spec fn nul_pos(n: Seq<u8>) -> int
    decreases n.len(),
{
    if n.len() == 0 {
        0
    } else if n[0] == 0 {
        0
    } else {
        1 + nul_pos(n.drop_first())
    }
}

/// The bytes of an entry's name as text: up to the first NUL, and empty
/// when those are not valid UTF-8.
pub open spec fn name_text(n: Seq<u8>) -> Seq<u8> {
    text_or_empty(n.take(nul_pos(n)))
}

/// Reading back the bytes of an entry gives the entry.
pub proof fn lemma_entry_roundtrip(e: EntryView)
    requires
        e.name.len() == 32,
    ensures
        entry_from(entry_bytes(e)) == e,
        entry_bytes(e).len() == DIR_ENTRY_SIZE,
{
    let b = entry_bytes(e);
    assert(b.subrange(0, 32) =~= e.name);
    assert(le32_at(b, 32) == le32_at(le32(e.start_block), 0));
    assert(le32_at(b, 36) == le32_at(le32(e.size), 0));
    crate::bytes::lemma_le32_roundtrip(e.start_block);
    crate::bytes::lemma_le32_roundtrip(e.size);
}

impl DirEntry {
    /// The entry that 64 bytes hold.
    pub fn from_bytes(b: &[u8; DIR_ENTRY_SIZE]) -> (e: Self)
        ensures
            e@ == entry_from(b@),
    {
        let mut name = [0u8; 32];
        let mut i: usize = 0;
        while i < 32
            invariant
                i <= 32,
                b@.len() == DIR_ENTRY_SIZE,
                forall|k: int| 0 <= k < i ==> name@[k] == b@[k],
            decreases 32 - i,
        {
            name[i] = b[i];
            i = i + 1;
        }
        assert(name@ =~= b@.subrange(0, 32));
        let s = b.as_slice();
        DirEntry { name, start_block: u32_from_le(s, 32), size: u32_from_le(s, 36), flags: b[40] }
    }

    /// The 64 bytes of this entry (see `entry_bytes`).
    pub fn to_bytes(&self) -> (b: [u8; DIR_ENTRY_SIZE])
        ensures
            b@ == entry_bytes(self@),
    {
        let mut b = [0u8; 64];
        let mut i: usize = 0;
        while i < 32
            invariant
                i <= 32,
                b@.len() == 64,
                forall|k: int| 0 <= k < i ==> b@[k] == self.name@[k],
                forall|k: int| 32 <= k < 64 ==> b@[k] == 0,
            decreases 32 - i,
        {
            b[i] = self.name[i];
            i = i + 1;
        }
        let s = self.start_block;
        let z = self.size;
        b[32] = (s % 256) as u8;
        b[33] = ((s / 256) % 256) as u8;
        b[34] = ((s / 65536) % 256) as u8;
        b[35] = (s / 16777216) as u8;
        b[36] = (z % 256) as u8;
        b[37] = ((z / 256) % 256) as u8;
        b[38] = ((z / 65536) % 256) as u8;
        b[39] = (z / 16777216) as u8;
        b[40] = self.flags;
        assert(b@ =~= entry_bytes(self@));
        b
    }

    /// Whether the entry is in use.
    pub fn is_valid(&self) -> (r: bool)
        ensures
            r == entry_valid(self@),
    {
        self.flags & FLAG_VALID != 0
    }

    /// The file name: the bytes up to the first NUL, or `""` when they are
    /// not valid UTF-8.
    pub fn name_str(&self) -> (s: &str)
        ensures
            s.spec_bytes() == name_text(self.name@),
    {
        let mut end: usize = 0;
        assert(self.name@.skip(0) =~= self.name@);
        while end < 32 && self.name[end] != 0
            invariant
                end <= 32,
                nul_pos(self.name@) == end + nul_pos(self.name@.skip(end as int)),
            decreases 32 - end,
        {
            assert(self.name@.skip(end as int).drop_first() =~= self.name@.skip(end + 1));
            end = end + 1;
        }
        proof {
            if end < 32 {
                assert(self.name@.skip(end as int)[0] == 0);
            } else {
                assert(self.name@.skip(end as int).len() == 0);
            }
        }
        let n = vstd::slice::slice_subrange(self.name.as_slice(), 0, end);
        assert(n@ =~= self.name@.take(end as int));
        str_or_empty(n)
    }
}

/// A file descriptor slot.
#[derive(Clone, Copy)]
pub struct OpenFile {
    pub start_block: u32,
    pub size: u32,
    pub pos: u32,
    pub in_use: bool,
}

/// A free descriptor slot.
pub open spec fn closed_file() -> OpenFile {
    OpenFile { start_block: 0, size: 0, pos: 0, in_use: false }
}

/// A file descriptor: an index into the descriptor table.
pub type Fd = usize;

/// The directory as the filesystem reads it: block 0, or zeros when the
/// device has no blocks.
pub open spec fn dir_of(blocks: Seq<Seq<u8>>) -> Seq<u8> {
    if blocks.len() > 0 { blocks[0] } else { Seq::new(512, |i: int| 0u8) }
}

/// Entry `i` of directory block `d`.
pub open spec fn dir_entry(d: Seq<u8>, i: int) -> EntryView {
    entry_from(d.subrange(i * 64, i * 64 + 64))
}

/// Whether entry `i` of `d` is a file named `want`.
pub open spec fn entry_named(d: Seq<u8>, i: int, want: Seq<u8>) -> bool {
    entry_valid(dir_entry(d, i)) && name_text(dir_entry(d, i).name) == want
}

/// The first entry from `i` on that is a file named `want`.
pub open spec fn find_from(d: Seq<u8>, want: Seq<u8>, i: int) -> Option<int>
    decreases 8 - i,
{
    if i < 0 || i >= 8 {
        None
    } else if entry_named(d, i, want) {
        Some(i)
    } else {
        find_from(d, want, i + 1)
    }
}

/// The first entry that is a file named `want`.
pub open spec fn find_entry(d: Seq<u8>, want: Seq<u8>) -> Option<int> {
    find_from(d, want, 0)
}

/// The first entry from `i` on that is not in use.
pub open spec fn free_from(d: Seq<u8>, i: int) -> Option<int>
    decreases 8 - i,
{
    if i < 0 || i >= 8 {
        None
    } else if !entry_valid(dir_entry(d, i)) {
        Some(i)
    } else {
        free_from(d, i + 1)
    }
}

/// The first descriptor slot from `i` on that is free.
pub open spec fn free_fd_from(open: Seq<OpenFile>, i: int) -> Option<int>
    decreases open.len() - i,
{
    if i < 0 || i >= open.len() {
        None
    } else if !open[i].in_use {
        Some(i)
    } else {
        free_fd_from(open, i + 1)
    }
}

/// Blocks a file of `size` bytes takes: at least one.
pub open spec fn span(size: u32) -> int {
    if size == 0 { 1 } else { (size + 511) / 512 }
}

/// The block after the data of entry `i`.
pub open spec fn entry_end(d: Seq<u8>, i: int) -> int {
    dir_entry(d, i).start_block + span(dir_entry(d, i).size)
}

/// The first block after the data of the files among the first `k`
/// entries (at least `DATA_START_BLOCK`).
pub open spec fn next_free_upto(d: Seq<u8>, k: int) -> int
    decreases k,
{
    if k <= 0 {
        DATA_START_BLOCK as int
    } else {
        let prev = next_free_upto(d, k - 1);
        if entry_valid(dir_entry(d, k - 1)) && entry_end(d, k - 1) > prev {
            entry_end(d, k - 1)
        } else {
            prev
        }
    }
}

/// The first block after all file data.
pub open spec fn next_free(d: Seq<u8>) -> int {
    next_free_upto(d, 8)
}

/// Every file's data ends at a block number that fits in a `u32`.
pub open spec fn ends_fit(d: Seq<u8>) -> bool {
    forall|i: int| 0 <= i < 8 && #[trigger] entry_valid(dir_entry(d, i)) ==> entry_end(d, i) <= u32::MAX
}

/// The file table of valid entries from `i` on, in directory order.
pub open spec fn listed_from(d: Seq<u8>, i: int) -> Seq<EntryView>
    decreases 8 - i,
{
    if i < 0 || i >= 8 {
        Seq::empty()
    } else if entry_valid(dir_entry(d, i)) {
        seq![dir_entry(d, i)] + listed_from(d, i + 1)
    } else {
        listed_from(d, i + 1)
    }
}

/// A directory block with entry `i` replaced by the bytes of `e`.
pub open spec fn dir_with(d: Seq<u8>, i: int, e: EntryView) -> Seq<u8> {
    d.take(i * 64) + entry_bytes(e) + d.skip(i * 64 + 64)
}

/// An unused entry: all zeros.
pub open spec fn blank_entry() -> EntryView {
    EntryView { name: Seq::new(32, |i: int| 0u8), start_block: 0, size: 0, flags: 0 }
}

/// A filesystem on block device `D` with a table of open files.
pub struct WasmFs<D: BlockDevice> {
    dev: D,
    open: [OpenFile; 4],
}

impl<D: BlockDevice> WasmFs<D> {
    /// The blocks of the device.
    pub closed spec fn disk(&self) -> Seq<Seq<u8>> {
        self.dev.blocks()
    }

    /// The descriptor table.
    pub closed spec fn files(&self) -> Seq<OpenFile> {
        self.open@
    }

    /// A filesystem on `dev` with no open files.
    pub fn new(dev: D) -> (fs: Self)
        ensures
            fs.disk() == dev.blocks(),
            fs.files() == Seq::new(4, |i: int| closed_file()),
    {
        let e = OpenFile { start_block: 0, size: 0, pos: 0, in_use: false };
        let fs = WasmFs { dev, open: [e, e, e, e] };
        assert(fs.files() =~= Seq::new(4, |i: int| closed_file()));
        fs
    }

    fn read_dir_block(&mut self) -> (buf: [u8; BLOCK_SIZE])
        ensures
            buf@ == dir_of(old(self).disk()),
            final(self).disk() == old(self).disk(),
            final(self).files() == old(self).files(),
    {
        let mut buf = [0u8; 512];
        let ghost zero = buf@;
        assert(zero =~= Seq::new(512, |i: int| 0u8));
        let _ = self.dev.read_block(DIR_BLOCK, &mut buf);
        buf
    }

    fn write_dir_block(&mut self, buf: &[u8; BLOCK_SIZE])
        ensures
            final(self).disk() == if old(self).disk().len() > 0 {
                old(self).disk().update(0, buf@)
            } else {
                old(self).disk()
            },
            final(self).files() == old(self).files(),
    {
        let _ = self.dev.write_block(DIR_BLOCK, buf);
    }

    fn read_entry(dir: &[u8; BLOCK_SIZE], idx: usize) -> (e: DirEntry)
        requires
            idx < DIR_ENTRIES_PER_BLOCK,
        ensures
            e@ == dir_entry(dir@, idx as int),
    {
        let off = idx * DIR_ENTRY_SIZE;
        let mut b = [0u8; 64];
        let mut i: usize = 0;
        while i < 64
            invariant
                i <= 64,
                off == idx * 64,
                idx < 8,
                dir@.len() == 512,
                forall|k: int| 0 <= k < i ==> b@[k] == dir@[off + k],
            decreases 64 - i,
        {
            b[i] = dir[off + i];
            i = i + 1;
        }
        assert(b@ =~= dir@.subrange(off as int, off + 64));
        DirEntry::from_bytes(&b)
    }

    fn write_entry(dir: &mut [u8; BLOCK_SIZE], idx: usize, entry: &DirEntry)
        requires
            idx < DIR_ENTRIES_PER_BLOCK,
        ensures
            final(dir)@ == dir_with(old(dir)@, idx as int, entry@),
    {
        let off = idx * DIR_ENTRY_SIZE;
        let b = entry.to_bytes();
        let ghost d0 = dir@;
        let mut i: usize = 0;
        while i < 64
            invariant
                i <= 64,
                off == idx * 64,
                idx < 8,
                d0 == old(dir)@,
                dir@.len() == 512,
                b@.len() == 64,
                forall|k: int| 0 <= k < off ==> dir@[k] == d0[k],
                forall|k: int| off + 64 <= k < 512 ==> dir@[k] == d0[k],
                forall|k: int| 0 <= k < i ==> dir@[off + k] == b@[k],
            decreases 64 - i,
        {
            dir[off + i] = b[i];
            i = i + 1;
        }
        assert(dir@ =~= dir_with(d0, idx as int, entry@));
    }
}

/// The descriptor an open of entry `e` makes: at its start, in use.
pub open spec fn opened(e: EntryView) -> OpenFile {
    OpenFile { start_block: e.start_block, size: e.size, pos: 0, in_use: true }
}

/// The views of a list of entries.
pub open spec fn entry_views(v: Seq<DirEntry>) -> Seq<EntryView> {
    v.map_values(|e: DirEntry| e@)
}

impl<D: BlockDevice> WasmFs<D> {
    /// The first block after all file data (see `next_free`).
    fn next_free_block(&mut self) -> (r: u32)
        requires
            ends_fit(dir_of(old(self).disk())),
        ensures
            r == next_free(dir_of(old(self).disk())),
            final(self).disk() == old(self).disk(),
            final(self).files() == old(self).files(),
    {
        let dir = self.read_dir_block();
        let mut next: u32 = DATA_START_BLOCK;
        let mut i: usize = 0;
        while i < DIR_ENTRIES_PER_BLOCK
            invariant
                i <= 8,
                dir@ == dir_of(old(self).disk()),
                ends_fit(dir@),
                next == next_free_upto(dir@, i as int),
                self.disk() == old(self).disk(),
                self.files() == old(self).files(),
            decreases 8 - i,
        {
            let e = Self::read_entry(&dir, i);
            if e.is_valid() {
                assert(entry_valid(dir_entry(dir@, i as int)));
                let blocks: u32 = if e.size == 0 {
                    1
                } else if e.size % 512 != 0 {
                    e.size / 512 + 1
                } else {
                    e.size / 512
                };
                assert(blocks == span(e.size));
                let end = e.start_block + blocks;
                if end > next {
                    next = end;
                }
            }
            i = i + 1;
        }
        next
    }

    /// Open the file `name`: the lowest free descriptor, at the file's start;
    /// `None` when no such file exists or no descriptor is free.
    pub fn fs_open(&mut self, name: &str) -> (r: Option<Fd>)
        ensures
            final(self).disk() == old(self).disk(),
            match find_entry(dir_of(old(self).disk()), name.spec_bytes()) {
                None => r is None && final(self).files() == old(self).files(),
                Some(i) => match free_fd_from(old(self).files(), 0) {
                    None => r is None && final(self).files() == old(self).files(),
                    Some(fd) => r == Some(fd as usize) && final(self).files() == old(self).files().update(
                        fd,
                        opened(dir_entry(dir_of(old(self).disk()), i)),
                    ),
                },
            },
    {
        let dir = self.read_dir_block();
        let want = name.as_bytes();
        let mut i: usize = 0;
        while i < DIR_ENTRIES_PER_BLOCK
            invariant
                i <= 8,
                dir@ == dir_of(old(self).disk()),
                want@ == name.spec_bytes(),
                find_entry(dir@, want@) == find_from(dir@, want@, i as int),
                self.disk() == old(self).disk(),
                self.files() == old(self).files(),
            decreases 8 - i,
        {
            let e = Self::read_entry(&dir, i);
            if e.is_valid() && bytes_eq(e.name_str().as_bytes(), want) {
                assert(entry_named(dir@, i as int, want@));
                let mut fd: usize = 0;
                while fd < MAX_OPEN_FILES
                    invariant
                        fd <= 4,
                        self.files() == old(self).files(),
                        self.disk() == old(self).disk(),
                        self.files().len() == 4,
                        free_fd_from(self.files(), 0) == free_fd_from(self.files(), fd as int),
                        e@ == dir_entry(dir@, i as int),
                        dir@ == dir_of(old(self).disk()),
                        want@ == name.spec_bytes(),
                        i < 8,
                        find_entry(dir@, want@) == find_from(dir@, want@, i as int),
                        entry_named(dir@, i as int, want@),
                    decreases 4 - fd,
                {
                    if !self.open[fd].in_use {
                        self.open[fd] = OpenFile {
                            start_block: e.start_block,
                            size: e.size,
                            pos: 0,
                            in_use: true,
                        };
                        assert(self.files() =~= old(self).files().update(fd as int, opened(e@)));
                        return Some(fd);
                    }
                    fd = fd + 1;
                }
                return None;
            }
            i = i + 1;
        }
        None
    }

    /// Release descriptor `fd`.
    pub fn fs_close(&mut self, fd: Fd)
        ensures
            final(self).disk() == old(self).disk(),
            final(self).files() == if fd < MAX_OPEN_FILES {
                old(self).files().update(
                    fd as int,
                    OpenFile { in_use: false, ..old(self).files()[fd as int] },
                )
            } else {
                old(self).files()
            },
    {
        if fd < MAX_OPEN_FILES {
            self.open[fd].in_use = false;
            assert(self.files() =~= old(self).files().update(
                fd as int,
                OpenFile { in_use: false, ..old(self).files()[fd as int] },
            ));
        }
    }

    /// Delete the file `name`: its entry is cleared. `Err` when there is no
    /// such file.
    pub fn fs_unlink(&mut self, name: &str) -> (r: Result<(), ()>)
        ensures
            final(self).files() == old(self).files(),
            match find_entry(dir_of(old(self).disk()), name.spec_bytes()) {
                None => r is Err && final(self).disk() == old(self).disk(),
                Some(i) => r is Ok && final(self).disk() == if old(self).disk().len() > 0 {
                    old(self).disk().update(0, dir_with(dir_of(old(self).disk()), i, blank_entry()))
                } else {
                    old(self).disk()
                },
            },
    {
        let mut dir = self.read_dir_block();
        let want = name.as_bytes();
        let mut i: usize = 0;
        while i < DIR_ENTRIES_PER_BLOCK
            invariant
                i <= 8,
                dir@ == dir_of(old(self).disk()),
                want@ == name.spec_bytes(),
                find_entry(dir@, want@) == find_from(dir@, want@, i as int),
                self.disk() == old(self).disk(),
                self.files() == old(self).files(),
            decreases 8 - i,
        {
            let e = Self::read_entry(&dir, i);
            if e.is_valid() && bytes_eq(e.name_str().as_bytes(), want) {
                let blank = DirEntry { name: [0u8; 32], start_block: 0, size: 0, flags: 0 };
                assert(blank@.name =~= blank_entry().name);
                Self::write_entry(&mut dir, i, &blank);
                self.write_dir_block(&dir);
                return Ok(());
            }
            i = i + 1;
        }
        Err(())
    }

    /// The entries in use, in directory order.
    pub fn fs_list(&mut self) -> (r: Vec<DirEntry>)
        ensures
            entry_views(r@) == listed_from(dir_of(old(self).disk()), 0),
            final(self).disk() == old(self).disk(),
            final(self).files() == old(self).files(),
    {
        let dir = self.read_dir_block();
        let mut out: Vec<DirEntry> = Vec::new();
        let mut i: usize = 0;
        while i < DIR_ENTRIES_PER_BLOCK
            invariant
                i <= 8,
                dir@ == dir_of(old(self).disk()),
                listed_from(dir@, 0) == entry_views(out@) + listed_from(dir@, i as int),
                self.disk() == old(self).disk(),
                self.files() == old(self).files(),
            decreases 8 - i,
        {
            let e = Self::read_entry(&dir, i);
            let ghost before = out@;
            if e.is_valid() {
                out.push(e);
                assert(entry_views(out@) =~= entry_views(before) + seq![e@]);
            }
            i = i + 1;
        }
        assert(entry_views(out@) =~= entry_views(out@) + Seq::<EntryView>::empty());
        out
    }
}

/// Byte `p` of a file whose data starts at block `start`.
pub open spec fn file_byte(blocks: Seq<Seq<u8>>, start: int, p: int) -> u8 {
    blocks[start + p / 512][p % 512]
}

/// Bytes from position `pos` of a file starting at block `start` that lie
/// in blocks the device has.
pub open spec fn readable(nb: int, start: int, pos: int) -> int {
    if (nb - start) * 512 - pos > 0 { (nb - start) * 512 - pos } else { 0 }
}

/// The smaller of two integers.
pub open spec fn min2(a: int, b: int) -> int {
    if a <= b { a } else { b }
}

/// How many bytes a read of `len` bytes into a buffer of `buflen` bytes
/// gives from open file `f`: no more than asked for, than fit, than are
/// left in the file, or than the device holds.
pub open spec fn read_count(f: OpenFile, nb: int, len: int, buflen: int) -> int {
    let rem = if f.size > f.pos { f.size - f.pos } else { 0 };
    min2(min2(min2(len, rem), buflen), readable(nb, f.start_block as int, f.pos as int))
}

/// Offsets within a block: stepping `j` bytes from `p` without crossing a
/// block boundary stays in the same block.
proof fn lemma_same_block(p: int, j: int)
    requires
        p >= 0,
        0 <= j < 512 - p % 512,
    ensures
        (p + j) / 512 == p / 512,
        (p + j) % 512 == p % 512 + j,
{
}

impl<D: BlockDevice> WasmFs<D> {
    /// Read up to `len` bytes from `fd` into `buf`, advancing the position;
    /// returns the number of bytes read (see `read_count`), 0 for a closed
    /// or out-of-range descriptor.
    pub fn fs_read(&mut self, fd: Fd, buf: &mut [u8], len: usize) -> (r: usize)
        requires
            fd < MAX_OPEN_FILES && old(self).files()[fd as int].in_use ==> old(self).files()[fd as int].start_block
                + old(self).files()[fd as int].size / 512 <= u32::MAX,
        ensures
            final(self).disk() == old(self).disk(),
            final(buf)@.len() == old(buf)@.len(),
            if fd < MAX_OPEN_FILES && old(self).files()[fd as int].in_use {
                let f = old(self).files()[fd as int];
                let n = read_count(f, old(self).disk().len() as int, len as int, old(buf)@.len() as int);
                &&& r == n
                &&& forall|k: int| 0 <= k < n ==> #[trigger] final(buf)@[k] == file_byte(
                    old(self).disk(),
                    f.start_block as int,
                    f.pos + k,
                )
                &&& forall|k: int| n <= k < old(buf)@.len() ==> #[trigger] final(buf)@[k] == old(buf)@[k]
                &&& final(self).files() == old(self).files().update(
                    fd as int,
                    OpenFile { pos: (f.pos + n) as u32, ..f },
                )
            } else {
                &&& r == 0
                &&& final(buf)@ == old(buf)@
                &&& final(self).files() == old(self).files()
            },
    {
        if fd >= MAX_OPEN_FILES || !self.open[fd].in_use {
            return 0;
        }
        let f = self.open[fd];
        let ghost nb = self.disk().len() as int;
        let ghost b0 = buf@;
        let remaining: usize = if f.size > f.pos { (f.size - f.pos) as usize } else { 0 };
        let mut to_read = len;
        if remaining < to_read {
            to_read = remaining;
        }
        if buf.len() < to_read {
            to_read = buf.len();
        }
        if to_read == 0 {
            return 0;
        }
        let mut done: usize = 0;
        while done < to_read
            invariant
                fd < 4,
                f == old(self).files()[fd as int],
                f.in_use,
                f.start_block + f.size / 512 <= u32::MAX,
                nb == old(self).disk().len(),
                b0 == old(buf)@,
                0 < to_read <= remaining,
                remaining == if f.size > f.pos { f.size - f.pos } else { 0 },
                to_read <= len,
                to_read <= buf@.len(),
                done <= to_read,
                self.disk() == old(self).disk(),
                self.files() == old(self).files().update(fd as int, OpenFile { pos: (f.pos + done) as u32, ..f }),
                self.open[fd as int].pos == f.pos + done,
                buf@.len() == b0.len(),
                forall|k: int| 0 <= k < done ==> #[trigger] buf@[k] == file_byte(
                    old(self).disk(),
                    f.start_block as int,
                    f.pos + k,
                ),
                forall|k: int| done <= k < b0.len() ==> #[trigger] buf@[k] == b0[k],
                done > 0 ==> f.pos + done <= (nb - f.start_block) * 512,
            ensures
                done <= to_read,
                self.disk() == old(self).disk(),
                self.files() == old(self).files().update(fd as int, OpenFile { pos: (f.pos + done) as u32, ..f }),
                buf@.len() == b0.len(),
                forall|k: int| 0 <= k < done ==> #[trigger] buf@[k] == file_byte(
                    old(self).disk(),
                    f.start_block as int,
                    f.pos + k,
                ),
                forall|k: int| done <= k < b0.len() ==> #[trigger] buf@[k] == b0[k],
                done == min2(to_read as int, readable(nb, f.start_block as int, f.pos as int)),
            decreases to_read - done,
        {
            let pos = self.open[fd].pos as usize;
            let block_idx = pos / BLOCK_SIZE;
            let block_off = pos % BLOCK_SIZE;
            let lba = f.start_block + block_idx as u32;
            let mut blk = [0u8; 512];
            if self.dev.read_block(lba, &mut blk).is_err() {
                break;
            }
            let ghost blocks = self.disk();
            assert(blk@ == blocks[lba as int]);
            let mut avail = BLOCK_SIZE - block_off;
            if to_read - done < avail {
                avail = to_read - done;
            }
            let ghost before = buf@;
            let mut j: usize = 0;
            while j < avail
                invariant
                    j <= avail,
                    avail <= 512 - block_off,
                    block_off < 512,
                    done + avail <= to_read,
                    to_read <= buf@.len(),
                    buf@.len() == before.len(),
                    blk@.len() == 512,
                    forall|k: int| 0 <= k < j ==> #[trigger] buf@[done + k] == blk@[block_off + k],
                    forall|k: int| 0 <= k < done ==> #[trigger] buf@[k] == before[k],
                    forall|k: int| done + j <= k < before.len() ==> #[trigger] buf@[k] == before[k],
                decreases avail - j,
            {
                buf[done + j] = blk[block_off + j];
                j = j + 1;
            }
            proof {
                assert forall|k: int| done <= k < done + avail implies #[trigger] buf@[k] == file_byte(
                    old(self).disk(),
                    f.start_block as int,
                    f.pos + k,
                ) by {
                    lemma_same_block(pos as int, k - done);
                    assert(buf@[done + (k - done)] == blk@[block_off + (k - done)]);
                }
            }
            done = done + avail;
            self.open[fd].pos = self.open[fd].pos + avail as u32;
            proof {
                assert(self.files() =~= old(self).files().update(
                    fd as int,
                    OpenFile { pos: (f.pos + done) as u32, ..f },
                ));
            }
        }
        done
    }
}

/// The entry a write of `want` goes to: the file of that name, else the
/// first unused entry.
pub open spec fn write_slot(d: Seq<u8>, want: Seq<u8>) -> Option<int> {
    match find_entry(d, want) {
        Some(i) => Some(i),
        None => free_from(d, 0),
    }
}

/// Blocks a file of `len` bytes is written to.
pub open spec fn nchunks(len: int) -> int {
    (len + 511) / 512
}

/// Block `k` of `data`, zero-padded.
pub open spec fn chunk(data: Seq<u8>, k: int) -> Seq<u8> {
    Seq::new(512, |j: int| if 512 * k + j < data.len() { data[512 * k + j] } else { 0u8 })
}

/// The device after the blocks of `data` are written from block `start`
/// on, as far as the device reaches.
pub open spec fn with_data(blocks: Seq<Seq<u8>>, start: int, data: Seq<u8>) -> Seq<Seq<u8>> {
    Seq::new(
        blocks.len(),
        |b: int| if start <= b < start + nchunks(data.len() as int) { chunk(data, b - start) } else { blocks[b] },
    )
}

/// The 32 name bytes stored for `want`: its first 32 bytes, NUL-padded.
pub open spec fn name32(want: Seq<u8>) -> Seq<u8> {
    Seq::new(32, |j: int| if j < want.len() { want[j] } else { 0u8 })
}

/// The entry a write records.
pub open spec fn new_entry(want: Seq<u8>, start: int, len: int) -> EntryView {
    EntryView { name: name32(want), start_block: start as u32, size: len as u32, flags: FLAG_VALID }
}

/// The outcome of writing `data` as `want` on a device holding `blocks`:
/// whether it succeeds, and the blocks after it.
pub open spec fn write_result(blocks: Seq<Seq<u8>>, want: Seq<u8>, data: Seq<u8>) -> (bool, Seq<Seq<u8>>) {
    let d = dir_of(blocks);
    match write_slot(d, want) {
        None => (false, blocks),
        Some(idx) => {
            let start = next_free(d);
            let wd = with_data(blocks, start, data);
            if data.len() > 0 && start + nchunks(data.len() as int) > blocks.len() {
                (false, wd)
            } else if blocks.len() > 0 {
                (true, wd.update(0, dir_with(d, idx, new_entry(want, start, data.len() as int))))
            } else {
                (true, wd)
            }
        },
    }
}

/// The entry `write_slot` names.
fn find_slot(dir: &[u8; BLOCK_SIZE], want: &[u8]) -> (r: Option<usize>)
    ensures
        match write_slot(dir@, want@) {
            Some(i) => r is Some && r.unwrap() as int == i,
            None => r is None,
        },
        r is Some ==> r.unwrap() < DIR_ENTRIES_PER_BLOCK,
{
    let mut slot: Option<usize> = None;
    let mut i: usize = 0;
    while i < DIR_ENTRIES_PER_BLOCK
        invariant
            i <= 8,
            find_entry(dir@, want@) == find_from(dir@, want@, i as int),
            slot is None ==> free_from(dir@, 0) == free_from(dir@, i as int),
            slot is Some ==> free_from(dir@, 0) == Some(slot.unwrap() as int) && slot.unwrap() < i,
        decreases 8 - i,
    {
        let e = DirEntry::from_bytes_at(dir.as_slice(), i);
        if e.is_valid() && bytes_eq(e.name_str().as_bytes(), want) {
            return Some(i);
        }
        if !e.is_valid() && slot.is_none() {
            slot = Some(i);
        }
        i = i + 1;
    }
    slot
}

impl DirEntry {
    /// Entry `idx` of a directory held in the first 512 bytes of `dir`.
    pub fn from_bytes_at(dir: &[u8], idx: usize) -> (e: DirEntry)
        requires
            idx < DIR_ENTRIES_PER_BLOCK,
            dir@.len() >= BLOCK_SIZE,
        ensures
            e@ == dir_entry(dir@, idx as int),
    {
        let off = idx * DIR_ENTRY_SIZE;
        let mut b = [0u8; 64];
        let mut i: usize = 0;
        while i < 64
            invariant
                i <= 64,
                off == idx * 64,
                idx < 8,
                dir@.len() >= 512,
                forall|k: int| 0 <= k < i ==> b@[k] == dir@[off + k],
            decreases 64 - i,
        {
            b[i] = dir[off + i];
            i = i + 1;
        }
        assert(b@ =~= dir@.subrange(off as int, off + 64));
        DirEntry::from_bytes(&b)
    }
}

/// Counting blocks: a whole number of blocks, plus one more block's worth
/// (up to 512 bytes), takes one more block.
proof fn lemma_nchunks_step(w: int, c: int)
    requires
        w >= 0,
        w % 512 == 0,
        0 < c <= 512,
    ensures
        nchunks(w) == w / 512,
        nchunks(w + c) == w / 512 + 1,
        c == 512 ==> (w + c) % 512 == 0,
{
}

/// Block `written / 512` of `data`, zero-padded (see `chunk`).
fn chunk_block(data: &[u8], written: usize) -> (blk: [u8; BLOCK_SIZE])
    requires
        written < data@.len(),
        written % 512 == 0,
    ensures
        blk@ == chunk(data@, written as int / 512),
{
    let mut blk = [0u8; 512];
    let mut chunk_len = data.len() - written;
    if chunk_len > BLOCK_SIZE {
        chunk_len = BLOCK_SIZE;
    }
    let src = vstd::slice::slice_subrange(data, written, written + chunk_len);
    let mut j: usize = 0;
    while j < chunk_len
        invariant
            j <= chunk_len,
            chunk_len <= 512,
            chunk_len == if data@.len() - written > 512 { 512 } else { data@.len() - written },
            src@ == data@.subrange(written as int, written + chunk_len),
            blk@.len() == 512,
            forall|k: int| 0 <= k < j ==> blk@[k] == data@[written + k],
            forall|k: int| j <= k < 512 ==> blk@[k] == 0,
        decreases chunk_len - j,
    {
        blk[j] = src[j];
        j = j + 1;
    }
    assert(blk@ =~= chunk(data@, written as int / 512));
    blk
}

/// The 32 name bytes stored for `want` (see `name32`).
fn name_block(want: &[u8]) -> (n: [u8; 32])
    ensures
        n@ == name32(want@),
{
    let mut name_bytes = [0u8; 32];
    let mut n = want.len();
    if n > 32 {
        n = 32;
    }
    let mut j: usize = 0;
    while j < n
        invariant
            j <= n,
            n <= 32,
            n <= want@.len(),
            n == if want@.len() < 32 { want@.len() as int } else { 32 },
            name_bytes@.len() == 32,
            forall|k: int| 0 <= k < j ==> name_bytes@[k] == want@[k],
            forall|k: int| j <= k < 32 ==> name_bytes@[k] == 0,
        decreases n - j,
    {
        name_bytes[j] = want[j];
        j = j + 1;
    }
    assert(name_bytes@ =~= name32(want@));
    name_bytes
}

impl<D: BlockDevice> WasmFs<D> {
    /// Write the blocks of `data` from block `start` on (see `with_data`);
    /// `Err` when a block lies past the end of the device.
    fn write_data(&mut self, start: u32, data: &[u8]) -> (r: Result<(), ()>)
        ensures
            final(self).files() == old(self).files(),
            final(self).disk() == with_data(old(self).disk(), start as int, data@),
            r is Err <==> data@.len() > 0 && start + nchunks(data@.len() as int) > old(self).disk().len(),
    {
        proof {
            self.dev.lemma_blocks_fit();
        }
        let ghost blocks0 = self.disk();
        let ghost nb = blocks0.len() as int;
        let mut written: usize = 0;
        let mut lba: u32 = start;
        while written < data.len()
            invariant
                nb == blocks0.len(),
                nb <= u32::MAX,
                blocks0 == old(self).disk(),
                written <= data@.len(),
                lba >= start,
                lba - start == nchunks(written as int),
                written < data@.len() ==> written % 512 == 0,
                lba > start ==> lba <= nb,
                self.files() == old(self).files(),
                self.disk() == Seq::new(
                    nb as nat,
                    |b: int| if start <= b < lba { chunk(data@, b - start) } else { blocks0[b] },
                ),
            decreases data@.len() - written,
        {
            let blk = chunk_block(data, written);
            let mut chunk_len = data.len() - written;
            if chunk_len > BLOCK_SIZE {
                chunk_len = BLOCK_SIZE;
            }
            proof {
                lemma_nchunks_step(written as int, chunk_len as int);
            }
            let ghost before = self.disk();
            if self.dev.write_block(lba, &blk).is_err() {
                proof {
                    assert(self.disk() =~= with_data(blocks0, start as int, data@));
                }
                return Err(());
            }
            proof {
                assert(self.disk() =~= Seq::new(
                    nb as nat,
                    |b: int| if start <= b < lba + 1 { chunk(data@, b - start) } else { blocks0[b] },
                ));
            }
            written = written + chunk_len;
            lba = lba + 1;
        }
        proof {
            assert(self.disk() =~= with_data(blocks0, start as int, data@));
        }
        Ok(())
    }

    /// Write (create or overwrite) the file `name` with `data` (see
    /// `write_result`). The data goes to fresh blocks after all file data,
    /// then the entry is recorded. `Err` when the directory is full or a
    /// data block is past the end of the device.
    #[verifier::rlimit(40)]
    pub fn fs_write(&mut self, name: &str, data: &[u8]) -> (r: Result<(), ()>)
        requires
            write_slot(dir_of(old(self).disk()), name.spec_bytes()) is Some ==> ends_fit(dir_of(old(self).disk())),
        ensures
            final(self).files() == old(self).files(),
            (r is Ok, final(self).disk()) == write_result(old(self).disk(), name.spec_bytes(), data@),
    {
        let mut dir = self.read_dir_block();
        let want = name.as_bytes();
        let idx = match find_slot(&dir, want) {
            Some(x) => x,
            None => {
                return Err(());
            },
        };
        let ghost d = dir_of(old(self).disk());
        assert(write_slot(d, want@) == Some(idx as int));
        let start_block = self.next_free_block();
        assert(next_free(d) == start_block);
        if self.write_data(start_block, data).is_err() {
            return Err(());
        }
        let ghost wd = self.disk();
        let entry = DirEntry {
            name: name_block(want),
            start_block,
            size: data.len() as u32,
            flags: FLAG_VALID,
        };
        assert(entry@ == new_entry(want@, start_block as int, data@.len() as int));
        Self::write_entry(&mut dir, idx, &entry);
        self.write_dir_block(&dir);
        assert(dir@ == dir_with(d, idx as int, new_entry(want@, start_block as int, data@.len() as int)));
        Ok(())
    }
}

/// Replacing entry `idx` of a directory changes that entry only.
pub proof fn lemma_dir_with(d: Seq<u8>, idx: int, e: EntryView)
    requires
        d.len() == 512,
        0 <= idx < 8,
        e.name.len() == 32,
    ensures
        dir_with(d, idx, e).len() == 512,
        dir_entry(dir_with(d, idx, e), idx) == e,
        forall|j: int| 0 <= j < 8 && j != idx ==> #[trigger] dir_entry(dir_with(d, idx, e), j) == dir_entry(d, j),
{
    let d2 = dir_with(d, idx, e);
    lemma_entry_roundtrip(e);
    assert(d2.subrange(idx * 64, idx * 64 + 64) =~= entry_bytes(e));
    assert forall|j: int| 0 <= j < 8 && j != idx implies #[trigger] dir_entry(d2, j) == dir_entry(d, j) by {
        assert(d2.subrange(j * 64, j * 64 + 64) =~= d.subrange(j * 64, j * 64 + 64));
    }
}

/// `find_from` names the first matching entry at or after `i`.
pub proof fn lemma_find_from(d: Seq<u8>, want: Seq<u8>, i: int)
    requires
        0 <= i <= 8,
    ensures
        match find_from(d, want, i) {
            Some(k) => i <= k < 8 && entry_named(d, k, want) && forall|j: int| i <= j < k ==> !#[trigger] entry_named(d, j, want),
            None => forall|j: int| i <= j < 8 ==> !#[trigger] entry_named(d, j, want),
        },
    decreases 8 - i,
{
    if i < 8 {
        lemma_find_from(d, want, i + 1);
    }
}

/// The first matching entry is what `find_from` finds.
pub proof fn lemma_find_first(d: Seq<u8>, want: Seq<u8>, i: int, idx: int)
    requires
        0 <= i <= idx < 8,
        entry_named(d, idx, want),
        forall|j: int| i <= j < idx ==> !#[trigger] entry_named(d, j, want),
    ensures
        find_from(d, want, i) == Some(idx),
    decreases idx - i,
{
    if i < idx {
        lemma_find_first(d, want, i + 1, idx);
    }
}

/// `free_from` names an unused entry at or after `i`.
pub proof fn lemma_free_from(d: Seq<u8>, i: int)
    requires
        0 <= i <= 8,
    ensures
        free_from(d, i) matches Some(k) ==> i <= k < 8 && !entry_valid(dir_entry(d, k)),
    decreases 8 - i,
{
    if i < 8 {
        lemma_free_from(d, i + 1);
    }
}

/// The first NUL of `a + b`, when `a` has none, is in `b`.
pub proof fn lemma_nul_pos_concat(a: Seq<u8>, b: Seq<u8>)
    requires
        !a.contains(0u8),
    ensures
        nul_pos(a + b) == a.len() + nul_pos(b),
    decreases a.len(),
{
    if a.len() > 0 {
        assert(a[0] != 0u8);
        assert((a + b).drop_first() =~= a.drop_first() + b);
        if a.drop_first().contains(0u8) {
            let k = choose|k: int| 0 <= k < a.drop_first().len() && a.drop_first()[k] == 0u8;
            assert(a[k + 1] == 0u8);
        }
        lemma_nul_pos_concat(a.drop_first(), b);
    } else {
        assert(a + b =~= b);
    }
}

/// The stored name of a short name without NUL bytes reads back as that
/// name.
pub proof fn lemma_name32_text(want: Seq<u8>)
    requires
        want.len() <= 32,
        !want.contains(0u8),
        vstd::utf8::valid_utf8(want),
    ensures
        name_text(name32(want)) == want,
{
    let n = name32(want);
    let zeros = Seq::new((32 - want.len()) as nat, |j: int| 0u8);
    assert(n =~= want + zeros);
    lemma_nul_pos_concat(want, zeros);
    assert(nul_pos(zeros) == 0);
    assert(n.take(want.len() as int) =~= want);
}

/// The first free block is never the directory block.
pub proof fn lemma_next_free_past_dir(d: Seq<u8>, k: int)
    ensures
        next_free_upto(d, k) >= DATA_START_BLOCK,
    decreases k,
{
    if k > 0 {
        lemma_next_free_past_dir(d, k - 1);
    }
}

/// Where every file's data ends at a block a `u32` numbers, so does the
/// first free block.
pub proof fn lemma_next_free_fits(d: Seq<u8>, k: int)
    requires
        ends_fit(d),
        0 <= k <= 8,
    ensures
        next_free_upto(d, k) <= u32::MAX,
    decreases k,
{
    if k > 0 {
        lemma_next_free_fits(d, k - 1);
        if entry_valid(dir_entry(d, k - 1)) {
            assert(entry_end(d, k - 1) <= u32::MAX);
        }
    }
}

/// What a successful write leaves is read back: the file is found under
/// its name, its entry records where its data starts and how long it is,
/// and the bytes there are the data written.
pub proof fn lemma_write_then_read(blocks: Seq<Seq<u8>>, want: Seq<u8>, data: Seq<u8>)
    requires
        blocks.len() > 0,
        blocks[0].len() == 512,
        write_result(blocks, want, data).0,
        ends_fit(dir_of(blocks)),
        want.len() <= 32,
        !want.contains(0u8),
        vstd::utf8::valid_utf8(want),
        data.len() <= u32::MAX,
    ensures
        ({
            let after = write_result(blocks, want, data).1;
            let d2 = dir_of(after);
            let start = next_free(dir_of(blocks));
            &&& find_entry(d2, want) is Some
            &&& dir_entry(d2, find_entry(d2, want).unwrap()).start_block == start
            &&& dir_entry(d2, find_entry(d2, want).unwrap()).size == data.len()
            &&& forall|p: int| 0 <= p < data.len() ==> #[trigger] file_byte(after, start, p) == data[p]
        }),
{
    let d = dir_of(blocks);
    let idx = write_slot(d, want).unwrap();
    let start = next_free(d);
    let e = new_entry(want, start, data.len() as int);
    let wd = with_data(blocks, start, data);
    let after = wd.update(0, dir_with(d, idx, e));
    lemma_next_free_past_dir(d, 8);
    lemma_next_free_fits(d, 8);
    lemma_find_from(d, want, 0);
    lemma_free_from(d, 0);
    assert(0 <= idx < 8);
    assert(wd[0] == blocks[0]);
    assert(dir_of(after) == dir_with(d, idx, e));
    lemma_dir_with(d, idx, e);
    let d2 = dir_with(d, idx, e);
    assert(1u8 & 1u8 == 1u8) by (bit_vector);
    assert(entry_valid(e));
    lemma_name32_text(want);
    assert(entry_named(d2, idx, want));
    assert forall|j: int| 0 <= j < idx implies !#[trigger] entry_named(d2, j, want) by {
        assert(dir_entry(d2, j) == dir_entry(d, j));
        assert(!entry_named(d, j, want));
    }
    lemma_find_first(d2, want, 0, idx);
    assert(write_result(blocks, want, data).1 == after);
    assert(find_entry(d2, want) == Some(idx));
    assert(dir_entry(d2, idx) == e);
    assert forall|p: int| 0 <= p < data.len() implies #[trigger] file_byte(after, start, p) == data[p] by {
        assert(start + p / 512 < start + nchunks(data.len() as int));
        assert(after[start + p / 512] == chunk(data, p / 512));
    }
}

/// Write, open, read: after a successful `fs_write` of `data` as `want`, an
/// `fs_open` of `want` with a free descriptor gives a descriptor whose
/// `fs_read` of `data.len()` bytes into a buffer that large reads all of
/// `data`, and a further read from there reads nothing.
pub proof fn lemma_write_open_read(
    blocks: Seq<Seq<u8>>,
    want: Seq<u8>,
    data: Seq<u8>,
    files: Seq<OpenFile>,
    buflen: int,
)
    requires
        blocks.len() > 0,
        blocks[0].len() == 512,
        write_result(blocks, want, data).0,
        ends_fit(dir_of(blocks)),
        want.len() <= 32,
        !want.contains(0u8),
        vstd::utf8::valid_utf8(want),
        data.len() <= u32::MAX,
        free_fd_from(files, 0) is Some,
        buflen >= data.len(),
    ensures
        ({
            let after = write_result(blocks, want, data).1;
            let d2 = dir_of(after);
            let i = find_entry(d2, want);
            let f = opened(dir_entry(d2, i.unwrap()));
            let f2 = OpenFile { pos: (f.pos + data.len()) as u32, ..f };
            &&& i is Some
            &&& read_count(f, after.len() as int, data.len() as int, buflen) == data.len()
            &&& forall|k: int| 0 <= k < data.len() ==> #[trigger] file_byte(after, f.start_block as int, f.pos + k)
                == data[k]
            &&& forall|len: int, bl: int| 0 <= len && 0 <= bl ==> #[trigger] read_count(f2, after.len() as int, len, bl) == 0
        }),
{
    lemma_write_then_read(blocks, want, data);
    let d = dir_of(blocks);
    let start = next_free(d);
    let after = write_result(blocks, want, data).1;
    lemma_next_free_past_dir(d, 8);
    lemma_next_free_fits(d, 8);
    assert(after.len() == blocks.len());
    let n = data.len() as int;
    if n > 0 {
        assert(start + nchunks(n) <= blocks.len());
        assert(nchunks(n) * 512 >= n) by (nonlinear_arith)
            requires
                nchunks(n) == (n + 511) / 512,
                n > 0,
        ;
        assert((blocks.len() - start) * 512 >= nchunks(n) * 512) by (nonlinear_arith)
            requires
                blocks.len() - start >= nchunks(n),
        ;
    }
}

/// The files of a WasmFS image, from entry `i` on: each valid entry whose
/// data lies within the image, named by its name text, with its bytes.
pub open spec fn image_files(img: Seq<u8>, i: int) -> Seq<FileView>
    decreases 8 - i,
{
    if i < 0 || i >= 8 {
        Seq::empty()
    } else {
        let e = dir_entry(img, i);
        let start = e.start_block * 512;
        let end = start + e.size;
        let rest = image_files(img, i + 1);
        if entry_valid(e) && end <= img.len() {
            seq![FileView { name: kept_name(name_text(e.name)), data: img.subrange(start, end) }] + rest
        } else {
            rest
        }
    }
}

/// A table's slots after registering `files` one by one (those that come
/// when the table is full are dropped).
pub open spec fn register_all(v: Seq<Option<FileView>>, files: Seq<FileView>) -> Seq<Option<FileView>>
    decreases files.len(),
{
    if files.len() == 0 {
        v
    } else {
        let v2 = if v.len() < MAX_FILES { v.push(Some(files[0])) } else { v };
        register_all(v2, files.drop_first())
    }
}

/// Register every file of the WasmFS image `img` in `table` (see
/// `image_files`). An image shorter than one block holds no files.
pub fn mount_from_image<'a>(img: &'a [u8], table: &mut FileTable<'a>)
    ensures
        final(table).slots() == if img@.len() < BLOCK_SIZE {
            old(table).slots()
        } else {
            register_all(old(table).slots(), image_files(img@, 0))
        },
{
    if img.len() < BLOCK_SIZE {
        return;
    }
    let mut i: usize = 0;
    while i < DIR_ENTRIES_PER_BLOCK
        invariant
            i <= 8,
            img@.len() >= 512,
            register_all(old(table).slots(), image_files(img@, 0)) == register_all(
                table.slots(),
                image_files(img@, i as int),
            ),
        decreases 8 - i,
    {
        let entry = DirEntry::from_bytes_at(img, i);
        let start = entry.start_block as u64 * 512;
        let end = start + entry.size as u64;
        if entry.is_valid() && end <= img.len() as u64 {
            let data = vstd::slice::slice_subrange(img, start as usize, end as usize);
            let ghost f = FileView { name: kept_name(name_text(entry.name@)), data: data@ };
            assert(image_files(img@, i as int) == seq![f] + image_files(img@, i + 1));
            assert((seq![f] + image_files(img@, i + 1)).drop_first() =~= image_files(img@, i + 1));
            table.register_file(entry.name_str(), data);
        }
        i = i + 1;
    }
}

} // verus!
