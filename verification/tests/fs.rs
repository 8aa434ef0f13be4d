use wasmos::fs::block::{BlockDevice, Ramdisk, BLOCK_SIZE, RAMDISK_BLOCKS};
use wasmos::fs::table::FileTable;
use wasmos::fs::wasmfs::{mount_from_image, DirEntry, WasmFs};
use wasmos::fs::fat::{split_path, trim_leading_slashes, BlockIo, RamDisk, SeekFrom, RAM_BLOCKS};

#[test]
fn ramdisk_reads_back_writes_and_rejects_out_of_range() {
    let mut d = Ramdisk::get();
    assert_eq!(d.block_count(), RAMDISK_BLOCKS as u32);
    let mut blk = [7u8; BLOCK_SIZE];
    assert_eq!(d.read_block(3, &mut blk), Ok(()));
    assert_eq!(blk, [0u8; BLOCK_SIZE]);
    let data = [0xABu8; BLOCK_SIZE];
    assert_eq!(d.write_block(3, &data), Ok(()));
    assert_eq!(d.read_block(3, &mut blk), Ok(()));
    assert_eq!(blk, data);
    let mut untouched = [9u8; BLOCK_SIZE];
    assert_eq!(d.read_block(256, &mut untouched), Err(()));
    assert_eq!(untouched, [9u8; BLOCK_SIZE]);
    assert_eq!(d.write_block(1000, &data), Err(()));
}

#[test]
fn write_then_open_and_read_gives_the_data() {
    let mut fs = WasmFs::new(Ramdisk::get());
    let data: Vec<u8> = (0..1300u32).map(|i| (i % 251) as u8).collect();
    assert_eq!(fs.fs_write("hello.wasm", &data), Ok(()));
    let fd = fs.fs_open("hello.wasm").unwrap();
    assert_eq!(fd, 0);
    let mut buf = vec![0u8; 2000];
    let n = fs.fs_read(fd, &mut buf, 2000);
    assert_eq!(n, 1300);
    assert_eq!(&buf[..1300], &data[..]);
    // At the end of the file nothing more is read.
    assert_eq!(fs.fs_read(fd, &mut buf, 10), 0);
    fs.fs_close(fd);
    assert_eq!(fs.fs_read(fd, &mut buf, 10), 0);
}

#[test]
fn reads_follow_the_position() {
    let mut fs = WasmFs::new(Ramdisk::get());
    assert_eq!(fs.fs_write("a", b"abcdefgh"), Ok(()));
    let fd = fs.fs_open("a").unwrap();
    let mut buf = [0u8; 3];
    assert_eq!(fs.fs_read(fd, &mut buf, 3), 3);
    assert_eq!(&buf, b"abc");
    assert_eq!(fs.fs_read(fd, &mut buf, 2), 2);
    assert_eq!(&buf[..2], b"de");
    assert_eq!(fs.fs_read(fd, &mut buf, 100), 3);
    assert_eq!(&buf, b"fgh");
    assert_eq!(fs.fs_read(7, &mut buf, 3), 0);
}

#[test]
fn files_are_appended_and_overwrites_reuse_the_entry() {
    let mut fs = WasmFs::new(Ramdisk::get());
    assert_eq!(fs.fs_write("one", &[1u8; 600]), Ok(()));
    assert_eq!(fs.fs_write("two", &[2u8; 10]), Ok(()));
    let list = fs.fs_list();
    assert_eq!(list.len(), 2);
    assert_eq!(list[0].name_str(), "one");
    assert_eq!(list[0].start_block, 1);
    assert_eq!(list[0].size, 600);
    assert_eq!(list[1].name_str(), "two");
    assert_eq!(list[1].start_block, 3);
    assert_eq!(fs.fs_write("one", &[3u8; 5]), Ok(()));
    let list = fs.fs_list();
    assert_eq!(list.len(), 2);
    assert_eq!(list[0].name_str(), "one");
    assert_eq!(list[0].start_block, 4);
    assert_eq!(list[0].size, 5);
}

#[test]
fn unlink_removes_the_file() {
    let mut fs = WasmFs::new(Ramdisk::get());
    assert_eq!(fs.fs_write("tmp", b"x"), Ok(()));
    assert_eq!(fs.fs_unlink("tmp"), Ok(()));
    assert_eq!(fs.fs_open("tmp"), None);
    assert_eq!(fs.fs_unlink("tmp"), Err(()));
    assert_eq!(fs.fs_list().len(), 0);
}

#[test]
fn directory_full_and_device_full_are_errors() {
    let mut fs = WasmFs::new(Ramdisk::get());
    for i in 0..8 {
        let name = format!("f{}", i);
        assert_eq!(fs.fs_write(&name, b"z"), Ok(()));
    }
    assert_eq!(fs.fs_write("ninth", b"z"), Err(()));
    let mut fs2 = WasmFs::new(Ramdisk::get());
    let big = vec![0u8; 256 * 512];
    assert_eq!(fs2.fs_write("big", &big), Err(()));
}

#[test]
fn descriptors_run_out() {
    let mut fs = WasmFs::new(Ramdisk::get());
    assert_eq!(fs.fs_write("f", b"q"), Ok(()));
    for expected in 0..4 {
        assert_eq!(fs.fs_open("f"), Some(expected));
    }
    assert_eq!(fs.fs_open("f"), None);
    assert_eq!(fs.fs_open("missing"), None);
}

#[test]
fn dir_entry_bytes_round_trip() {
    let mut name = [0u8; 32];
    name[..4].copy_from_slice(b"boot");
    let e = DirEntry { name, start_block: 0x01020304, size: 77, flags: 1 };
    let b = e.to_bytes();
    assert_eq!(&b[32..36], &[4, 3, 2, 1]);
    assert_eq!(&b[36..40], &[77, 0, 0, 0]);
    assert_eq!(b[40], 1);
    let back = DirEntry::from_bytes(&b);
    assert_eq!(back.name, name);
    assert_eq!(back.start_block, 0x01020304);
    assert_eq!(back.size, 77);
    assert!(back.is_valid());
    assert_eq!(back.name_str(), "boot");
    let bad = DirEntry { name: [0xFF; 32], start_block: 0, size: 0, flags: 0 };
    assert_eq!(bad.name_str(), "");
    assert!(!bad.is_valid());
}

#[test]
fn image_files_are_registered() {
    let mut img = vec![0u8; 3 * 512];
    let e = DirEntry { name: { let mut n = [0u8; 32]; n[..5].copy_from_slice(b"hello"); n }, start_block: 1, size: 5, flags: 1 };
    img[..64].copy_from_slice(&e.to_bytes());
    let far = DirEntry { name: { let mut n = [0u8; 32]; n[..3].copy_from_slice(b"far"); n }, start_block: 9, size: 5, flags: 1 };
    img[64..128].copy_from_slice(&far.to_bytes());
    img[512..517].copy_from_slice(b"world");
    let mut table = FileTable::new();
    mount_from_image(&img, &mut table);
    assert_eq!(table.find_file("hello"), Some(&b"world"[..]));
    assert_eq!(table.find_file("far"), None);
    assert_eq!(table.files().len(), 1);
    let mut table2 = FileTable::new();
    mount_from_image(&img[..100], &mut table2);
    assert_eq!(table2.files().len(), 0);
}

#[test]
fn file_table_register_find_remove() {
    let a = b"AAA".to_vec();
    let b = b"BBB".to_vec();
    let mut t = FileTable::new();
    t.register_file("x", &a);
    t.register_file("y", &b);
    t.register_file("x", &b);
    assert_eq!(t.find_file("x"), Some(&a[..]));
    assert_eq!(t.find_file("y"), Some(&b[..]));
    assert!(t.remove_file("x"));
    assert_eq!(t.find_file("x"), Some(&b[..]));
    assert!(t.remove_file("x"));
    assert_eq!(t.find_file("x"), None);
    assert!(!t.remove_file("x"));
    let names: Vec<String> = t.files().iter().map(|f| f.name_str().to_string()).collect();
    assert_eq!(names, vec!["y".to_string()]);
    t.init();
    assert_eq!(t.files().len(), 0);
}

#[test]
fn file_table_capacity_and_long_names() {
    let d = [1u8];
    let mut t = FileTable::new();
    for i in 0..70 {
        t.register_file(&format!("n{}", i), &d);
    }
    assert_eq!(t.files().len(), 64);
    assert_eq!(t.find_file("n63"), Some(&d[..]));
    assert_eq!(t.find_file("n64"), None);
    let long: String = std::iter::repeat('q').take(80).collect();
    let mut t2 = FileTable::new();
    t2.register_file(&long, &d);
    assert_eq!(t2.files()[0].name_str().len(), 64);
    assert_eq!(t2.find_file(&long), None);
    assert_eq!(t2.find_file(&long[..64]), Some(&d[..]));
}

#[test]
fn block_io_reads_back_a_write_across_blocks() {
    let mut io = BlockIo::new(Ramdisk::get());
    assert_eq!(io.seek(SeekFrom::Start(500)), Ok(500));
    let data: Vec<u8> = (0..1100u32).map(|i| (i % 253) as u8 + 1).collect();
    assert_eq!(io.write(&data), Ok(1100));
    assert_eq!(io.flush(), Ok(()));
    assert_eq!(io.seek(SeekFrom::Start(500)), Ok(500));
    let mut back = vec![0u8; 1100];
    assert_eq!(io.read(&mut back), Ok(1100));
    assert_eq!(back, data);
    // the bytes just before the write are untouched
    assert_eq!(io.seek(SeekFrom::Current(-1104)), Ok(496));
    let mut before = [9u8; 4];
    assert_eq!(io.read(&mut before), Ok(4));
    assert_eq!(before, [0u8; 4]);
}

#[test]
fn block_io_short_write_then_flush_reads_back() {
    let mut io = BlockIo::new(Ramdisk::get());
    assert_eq!(io.write(&[1, 2, 3]), Ok(3));
    assert_eq!(io.flush(), Ok(()));
    let mut b2 = [0u8; 3];
    assert_eq!(io.seek(SeekFrom::Start(0)), Ok(0));
    assert_eq!(io.read(&mut b2), Ok(3));
    assert_eq!(b2, [1, 2, 3]);
}

#[test]
fn block_io_fails_past_the_end_of_the_device() {
    let mut io = BlockIo::new(Ramdisk::get());
    let end = (RAMDISK_BLOCKS * BLOCK_SIZE) as u64;
    assert_eq!(io.seek(SeekFrom::Start(end - 2)), Ok(end - 2));
    let mut b = [0u8; 4];
    assert_eq!(io.read(&mut b), Err(()));
}

#[test]
fn block_io_seek_rules() {
    let mut io = BlockIo::new(Ramdisk::get());
    assert_eq!(io.seek(SeekFrom::Start(10)), Ok(10));
    assert_eq!(io.seek(SeekFrom::Current(5)), Ok(15));
    assert_eq!(io.seek(SeekFrom::Current(-20)), Err(()));
    assert_eq!(io.seek(SeekFrom::End(0)), Err(()));
    assert_eq!(io.seek(SeekFrom::Current(0)), Ok(15));
}

#[test]
fn ram_fat_disk_holds_the_image_then_zeros() {
    let img: Vec<u8> = (0..700u32).map(|i| (i % 7) as u8 + 1).collect();
    let mut d = RamDisk::from_image(&img);
    assert_eq!(d.block_count(), RAM_BLOCKS as u32);
    let mut blk = [0u8; BLOCK_SIZE];
    assert_eq!(d.read_block(1, &mut blk), Ok(()));
    assert_eq!(&blk[..188], &img[512..700]);
    assert!(blk[188..].iter().all(|&b| b == 0));
    assert_eq!(d.read_block(RAM_BLOCKS as u32, &mut blk), Err(()));
}

#[test]
fn split_path_cuts_at_the_last_slash() {
    assert_eq!(split_path(b"dir/file"), (&b"dir"[..], &b"file"[..]));
    assert_eq!(split_path(b"//a/b/c.txt"), (&b"a/b"[..], &b"c.txt"[..]));
    assert_eq!(split_path(b"file"), (&b""[..], &b"file"[..]));
    assert_eq!(split_path(b"/"), (&b""[..], &b""[..]));
    assert_eq!(trim_leading_slashes(b"///bin"), b"bin");
    assert_eq!(trim_leading_slashes(b""), b"");
}
