use wasmos::commands::{
    hex_decode, hex_nibble, info_counts, is_wat_file, join_args, parse_run_args, resolve, resolve_fat_path,
    wat_to_wasm_name, Cwd, edit_line, EditAction,
};
use wasmos::fs::pool::{bump_alloc, DiskArena, WritePool, FILE_BUF_SIZE, WRITE_SLOTS};
use wasmos::wasm::loader::load;

#[test]
fn hex_digits_of_both_cases() {
    assert_eq!(hex_nibble(b'0'), Some(0));
    assert_eq!(hex_nibble(b'9'), Some(9));
    assert_eq!(hex_nibble(b'a'), Some(10));
    assert_eq!(hex_nibble(b'F'), Some(15));
    assert_eq!(hex_nibble(b'g'), None);
}

#[test]
fn hex_strings_decode_to_bytes() {
    let mut out = [0u8; 8];
    assert_eq!(hex_decode(b"48656c6c6f", &mut out), Some(5));
    assert_eq!(&out[..5], b"Hello");
    assert_eq!(hex_decode(b"abc", &mut out), None);
    assert_eq!(hex_decode(b"zz", &mut out), None);
    let mut small = [0u8; 1];
    assert_eq!(hex_decode(b"0102", &mut small), None);
    assert_eq!(hex_decode(b"", &mut small), Some(0));
}

#[test]
fn cd_resolves_paths() {
    assert_eq!(resolve(b"/", b"games"), b"/games".to_vec());
    assert_eq!(resolve(b"/games", b".."), b"/".to_vec());
    assert_eq!(resolve(b"/a/b", b".."), b"/a".to_vec());
    assert_eq!(resolve(b"/games", b"/roms/"), b"/roms".to_vec());
    assert_eq!(resolve(b"/", b"/"), b"/".to_vec());
    assert_eq!(resolve(b"/x", b"y//"), b"/x/y".to_vec());
}

#[test]
fn fat_paths_follow_the_working_directory() {
    assert_eq!(resolve_fat_path(b"/", b"hello.wat"), b"hello.wat".to_vec());
    assert_eq!(resolve_fat_path(b"/src", b"hello.wat"), b"src/hello.wat".to_vec());
    assert_eq!(resolve_fat_path(b"/src", b"/other/x.wat"), b"/other/x.wat".to_vec());
}

#[test]
fn wat_names_become_wasm_names() {
    assert!(is_wat_file(b"prog.wat"));
    assert!(!is_wat_file(b"prog.wasm"));
    assert!(!is_wat_file(b"wat"));
    assert_eq!(wat_to_wasm_name(b"prog.wat"), b"prog.wasm".to_vec());
    assert_eq!(wat_to_wasm_name(b"notes.txt"), b"notes.txt".to_vec());
}

#[test]
fn the_working_directory_starts_at_root_and_is_capped() {
    let mut c = Cwd::new();
    assert_eq!(c.get_cwd(), "/");
    c.set_cwd("/games");
    assert_eq!(c.get_cwd(), "/games");
    let long = "/".repeat(200);
    c.set_cwd(&long);
    assert_eq!(c.get_cwd().len(), 128);
    c.set_cwd("");
    assert_eq!(c.get_cwd(), "/");
}

#[test]
fn run_arguments_are_integers() {
    assert_eq!(parse_run_args(&["1", "-2", "30"]), Ok(vec![1, -2, 30]));
    assert_eq!(parse_run_args(&["1", "x", "3"]), Err(1));
    let many = ["1", "2", "3", "4", "5", "6", "7", "8", "bad"];
    assert_eq!(parse_run_args(&many), Ok(vec![1, 2, 3, 4, 5, 6, 7, 8]));
    assert_eq!(parse_run_args(&[]), Ok(vec![]));
}

#[test]
fn info_counts_functions_imports_and_exports() {
    let bytes = [
        0x00, 0x61, 0x73, 0x6D, 0x01, 0x00, 0x00, 0x00, // header
        1, 4, 1, 0x60, 0, 0, // type section
        2, 9, 1, 3, b'e', b'n', b'v', 1, b'h', 0, 0, // one function import
        3, 3, 2, 0, 0, // two functions
        7, 5, 1, 1, b'f', 0, 1, // one export
    ];
    let m = load(&bytes).unwrap();
    assert_eq!(info_counts(&m), (2, 1, 1));
}

#[test]
fn the_disk_arena_hands_out_aligned_regions() {
    let mut a = DiskArena::new();
    assert_eq!(a.alloc_disk_slot(5), Some(0));
    assert_eq!(a.alloc_disk_slot(3), Some(8));
    assert_eq!(a.alloc_disk_slot(0), None);
    assert_eq!(a.alloc_disk_slot(FILE_BUF_SIZE), None);
    assert_eq!(a.alloc_disk_slot(16), Some(16));
}

#[test]
fn the_write_pool_has_a_fixed_number_of_slots() {
    let mut p = WritePool::new();
    assert_eq!(p.alloc_write_buf(5000), None);
    for i in 0..WRITE_SLOTS {
        assert_eq!(p.alloc_write_buf(10), Some(i));
    }
    assert_eq!(p.alloc_write_buf(10), None);
}

#[test]
fn the_heap_bumps_to_aligned_offsets() {
    assert_eq!(bump_alloc(0, 10, 16, 100), Some((0, 10)));
    assert_eq!(bump_alloc(10, 4, 16, 100), Some((16, 20)));
    assert_eq!(bump_alloc(90, 20, 8, 100), None);
    assert_eq!(bump_alloc(0, 0, 16, 8), Some((0, 0)));
}

#[test]
fn task_arguments_are_joined_and_cut() {
    assert_eq!(join_args(&["a", "bc", "d"]), b"a bc d".to_vec());
    assert_eq!(join_args(&[]), Vec::<u8>::new());
    let long = "x".repeat(100);
    let j = join_args(&[&long, &long]);
    assert_eq!(j.len(), 128);
    assert_eq!(j[100], b' ');
}

#[test]
fn the_editor_appends_lines_until_full() {
    let mut buf = Vec::new();
    assert_eq!(edit_line(&mut buf, b"hello\r\n"), EditAction::Appended);
    assert_eq!(edit_line(&mut buf, b"world"), EditAction::Appended);
    assert_eq!(buf, b"hello\nworld\n".to_vec());
    assert_eq!(edit_line(&mut buf, b":w\n"), EditAction::Save);
    assert_eq!(edit_line(&mut buf, b":q"), EditAction::Quit);
    let big = vec![b'x'; 4090];
    assert_eq!(edit_line(&mut buf, &big), EditAction::Full);
    assert_eq!(buf.len(), 12);
}
