use wasmos::fs::pool::{BumpAllocator, HEAP_SIZE};
use wasmos::fs::table::FileTable;
use wasmos::wasm::instance::InstancePool;
use wasmos::keyboard::Key;
use wasmos::net::stack::NetworkStack;
use wasmos::vga::{blit_rgb32, Color, FbOp, VgaBuffer};
use wasmos::wasm::engine::{instantiate, prepare_module, ArgsBuf, RunError, SleepChannel};
use wasmos::wasm::host::{
    fmt_hex, fmt_i32, fmt_i64, host_args_get, host_exit, host_fb_blit, host_fb_set_pixel, host_fs_read,
    host_fs_size, host_fs_write_args, host_net_accept, host_net_close, host_net_connect, host_net_get_ip,
    host_net_listen, host_net_recv, host_net_send, host_net_set_ip, host_net_status, host_net_udp_bind,
    host_net_udp_close, host_net_udp_connect, host_net_udp_recv, host_net_udp_send, host_print,
    host_print_char, host_print_hex, host_print_i64, host_print_int, host_read_line_finish,
    host_read_line_target, host_sleep_ms, lookup_host, read_char_code, resolve_imports, HostFunc,
};
use wasmos::wasm::interp::{InterpError, Interpreter};

/// A module with one page of memory and one empty function.
const MODULE: [u8; 36] = [
    0x00, 0x61, 0x73, 0x6D, 0x01, 0x00, 0x00, 0x00, // header
    0x01, 0x04, 0x01, 0x60, 0x00, 0x00, // type () -> ()
    0x03, 0x02, 0x01, 0x00, // one function of type 0
    0x05, 0x03, 0x01, 0x00, 0x01, // memory: 1 page
    0x07, 0x05, 0x01, 0x01, b'f', 0x00, 0x00, // export "f"
    0x0A, 0x04, 0x01, 0x02, 0x00, 0x0B, // body: end
];

fn machine() -> Interpreter<'static> {
    let (m, pages, imports) = prepare_module(&MODULE).unwrap();
    instantiate(&m, imports, vec![0u8; 65536], pages).unwrap()
}

fn push(it: &mut Interpreter<'static>, vals: &[i64]) {
    for &v in vals {
        it.push_value(v).unwrap();
    }
}

fn import_section(entries: &[(&str, &str)]) -> Vec<u8> {
    let mut s = vec![entries.len() as u8];
    for (m, n) in entries {
        s.push(m.len() as u8);
        s.extend_from_slice(m.as_bytes());
        s.push(n.len() as u8);
        s.extend_from_slice(n.as_bytes());
        s.extend_from_slice(&[0, 0]);
    }
    s
}

#[test]
fn host_functions_are_found_by_module_and_name() {
    assert_eq!(lookup_host(b"env", b"print"), Some(HostFunc::Print));
    assert_eq!(lookup_host(b"env", b"fb_blit"), Some(HostFunc::FbBlit));
    assert_eq!(lookup_host(b"net", b"udp_close"), Some(HostFunc::NetUdpClose));
    assert_eq!(lookup_host(b"net", b"print"), None);
    assert_eq!(lookup_host(b"env", b"listen"), None);
    assert_eq!(lookup_host(b"wasi", b"print"), None);
}

#[test]
fn imports_resolve_in_order_or_are_refused() {
    let sec = import_section(&[("env", "print_int"), ("net", "listen")]);
    assert_eq!(resolve_imports(Some(&sec)).unwrap(), vec![HostFunc::PrintInt, HostFunc::NetListen]);
    let bad = import_section(&[("env", "print"), ("env", "missing")]);
    assert!(matches!(resolve_imports(Some(&bad)), Err(RunError::ImportNotFound)));
    assert!(resolve_imports(None).unwrap().is_empty());
}

#[test]
fn numbers_are_formatted_as_the_console_shows_them() {
    assert_eq!(fmt_i32(0), b"0\n".to_vec());
    assert_eq!(fmt_i32(-42), b"-42\n".to_vec());
    assert_eq!(fmt_i32(i32::MIN), b"-2147483648\n".to_vec());
    assert_eq!(fmt_i32(i32::MAX), b"2147483647\n".to_vec());
    assert_eq!(fmt_i64(i64::MIN), b"-9223372036854775808\n".to_vec());
    assert_eq!(fmt_i64(1234567890123), b"1234567890123\n".to_vec());
    assert_eq!(fmt_hex(42), b"0x0000002A\n".to_vec());
    assert_eq!(fmt_hex(0xDEADBEEF), b"0xDEADBEEF\n".to_vec());
}

#[test]
fn print_takes_text_from_memory() {
    let mut it = machine();
    assert!(it.host_write(16, b"hi there"));
    push(&mut it, &[16, 2]);
    assert_eq!(host_print(&mut it).unwrap(), b"hi".to_vec());
    assert_eq!(it.stack_len(), 0);
    // Cut at the end of memory.
    assert!(it.host_write(65533, b"xyz"));
    push(&mut it, &[65533, 100]);
    assert_eq!(host_print(&mut it).unwrap(), b"xyz".to_vec());
    // Invalid UTF-8 prints nothing.
    assert!(it.host_write(0, &[0xFF, 0xFE]));
    push(&mut it, &[0, 2]);
    assert_eq!(host_print(&mut it).unwrap(), Vec::<u8>::new());
    push(&mut it, &[1]);
    assert!(matches!(host_print(&mut it), Err(InterpError::StackUnderflow)));
}

#[test]
fn print_int_char_hex_and_i64_lines() {
    let mut it = machine();
    push(&mut it, &[-7]);
    assert_eq!(host_print_int(&mut it).unwrap(), b"-7\n".to_vec());
    push(&mut it, &[0x1_0000_0005]);
    assert_eq!(host_print_int(&mut it).unwrap(), b"5\n".to_vec());
    push(&mut it, &[-5_000_000_000]);
    assert_eq!(host_print_i64(&mut it).unwrap(), b"-5000000000\n".to_vec());
    push(&mut it, &[65]);
    assert_eq!(host_print_char(&mut it).unwrap(), b"A".to_vec());
    push(&mut it, &[0x141]);
    assert_eq!(host_print_char(&mut it).unwrap(), b"A".to_vec());
    push(&mut it, &[200]);
    assert_eq!(host_print_char(&mut it).unwrap(), Vec::<u8>::new());
    push(&mut it, &[255]);
    assert_eq!(host_print_hex(&mut it).unwrap(), b"0x000000FF\n".to_vec());
    assert!(matches!(host_print_hex(&mut it), Err(InterpError::StackUnderflow)));
}

#[test]
fn sleep_records_the_delay_and_yields() {
    let mut it = machine();
    let mut chan = SleepChannel::new();
    push(&mut it, &[25]);
    assert!(matches!(host_sleep_ms(&mut it, &mut chan), Err(InterpError::Yielded)));
    assert_eq!(chan.take_pending_sleep_ms(), 25);
    push(&mut it, &[-5]);
    assert!(matches!(host_sleep_ms(&mut it, &mut chan), Err(InterpError::Yielded)));
    assert_eq!(chan.take_pending_sleep_ms(), 0);
    assert!(matches!(host_sleep_ms(&mut it, &mut chan), Err(InterpError::StackUnderflow)));
}

#[test]
fn exit_consumes_its_code() {
    let mut it = machine();
    push(&mut it, &[3]);
    assert!(matches!(host_exit(&mut it), Err(InterpError::Exited)));
    assert_eq!(it.stack_len(), 0);
}

#[test]
fn read_char_codes() {
    assert_eq!(read_char_code(Key::Char('a')), Some(97));
    assert_eq!(read_char_code(Key::Enter), Some(10));
    assert_eq!(read_char_code(Key::Tab), None);
    assert_eq!(read_char_code(Key::Backspace), None);
}

#[test]
fn read_line_checks_the_buffer_then_stores_the_line() {
    let mut it = machine();
    push(&mut it, &[100, 10]);
    assert_eq!(host_read_line_target(&mut it).unwrap(), Some((100, 10)));
    host_read_line_finish(&mut it, 100, b"abc").unwrap();
    assert_eq!(it.top(), Some(3));
    assert_eq!(&it.mem_bytes()[100..103], b"abc");
    let mut it = machine();
    push(&mut it, &[65530, 10]);
    assert_eq!(host_read_line_target(&mut it).unwrap(), None);
    assert_eq!(it.top(), Some(-1));
}

#[test]
fn fs_read_copies_a_file_into_memory() {
    let mut it = machine();
    let mut table = FileTable::new();
    table.register_file("a.txt", b"hello");
    assert!(it.host_write(0, b"a.txt"));
    push(&mut it, &[0, 5, 64, 16]);
    host_fs_read(&mut it, &table).unwrap();
    assert_eq!(it.top(), Some(5));
    assert_eq!(&it.mem_bytes()[64..69], b"hello");
    // Too small a buffer.
    push(&mut it, &[0, 5, 128, 4]);
    host_fs_read(&mut it, &table).unwrap();
    assert_eq!(it.top(), Some(-1));
    assert_eq!(&it.mem_bytes()[128..133], &[0, 0, 0, 0, 0]);
    // No such file.
    push(&mut it, &[0, 4, 128, 16]);
    host_fs_read(&mut it, &table).unwrap();
    assert_eq!(it.top(), Some(-1));
}

#[test]
fn fs_size_answers_the_length_or_minus_one() {
    let mut it = machine();
    let mut table = FileTable::new();
    table.register_file("a.txt", b"hello");
    assert!(it.host_write(0, b"a.txt"));
    push(&mut it, &[0, 5]);
    host_fs_size(&mut it, &table).unwrap();
    assert_eq!(it.top(), Some(5));
    push(&mut it, &[0, 3]);
    host_fs_size(&mut it, &table).unwrap();
    assert_eq!(it.top(), Some(-1));
    push(&mut it, &[65535, 5]);
    host_fs_size(&mut it, &table).unwrap();
    assert_eq!(it.top(), Some(-1));
}

#[test]
fn args_get_copies_the_argument_string() {
    let mut it = machine();
    let mut args = ArgsBuf::new();
    args.set_args(b"10 hello");
    push(&mut it, &[200, 64]);
    host_args_get(&mut it, &args).unwrap();
    assert_eq!(it.top(), Some(8));
    assert_eq!(&it.mem_bytes()[200..208], b"10 hello");
    push(&mut it, &[300, 4]);
    host_args_get(&mut it, &args).unwrap();
    assert_eq!(it.top(), Some(-1));
}

#[test]
fn fs_write_hands_out_the_name_and_data() {
    let mut it = machine();
    assert!(it.host_write(0, b"f.bin"));
    assert!(it.host_write(32, &[1, 2, 3]));
    push(&mut it, &[0, 5, 32, 3]);
    let (name, data) = host_fs_write_args(&mut it).unwrap().unwrap();
    assert_eq!(name, b"f.bin".to_vec());
    assert_eq!(data, vec![1, 2, 3]);
    assert_eq!(it.stack_len(), 0);
    push(&mut it, &[0, 5, 65535, 3]);
    assert!(host_fs_write_args(&mut it).unwrap().is_none());
    assert_eq!(it.top(), Some(-1));
}

#[test]
fn set_pixel_queues_one_pixel() {
    let mut it = machine();
    let mut vga = VgaBuffer::new(640, 480);
    let _ = vga.take_ops();
    push(&mut it, &[3, 4, 0x00FF8000]);
    host_fb_set_pixel(&mut it, &mut vga).unwrap();
    assert_eq!(vga.take_ops(), vec![FbOp::Pixel { x: 3, y: 4, color: Color(255, 128, 0) }]);
    push(&mut it, &[-1, 4, 0]);
    host_fb_set_pixel(&mut it, &mut vga).unwrap();
    assert!(vga.take_ops().is_empty());
}

#[test]
fn blit_draws_pixels_from_memory_row_by_row() {
    let mut it = machine();
    let mut vga = VgaBuffer::new(640, 480);
    let _ = vga.take_ops();
    let px: Vec<u8> = [0x0011_2233u32, 0x0044_5566, 0x0077_8899]
        .iter()
        .flat_map(|v| v.to_le_bytes())
        .collect();
    assert!(it.host_write(0, &px));
    push(&mut it, &[0, 1, 2]);
    host_fb_blit(&mut it, &mut vga).unwrap();
    assert_eq!(
        vga.take_ops(),
        vec![
            FbOp::Pixel { x: 0, y: 0, color: Color(0x11, 0x22, 0x33) },
            FbOp::Pixel { x: 0, y: 1, color: Color(0x44, 0x55, 0x66) },
        ]
    );
    push(&mut it, &[65532, 2, 2]);
    host_fb_blit(&mut it, &mut vga).unwrap();
    assert!(vga.take_ops().is_empty());
}

#[test]
fn blit_rgb32_places_each_value() {
    let mut vga = VgaBuffer::new(640, 480);
    let _ = vga.take_ops();
    blit_rgb32(&mut vga, &[0x0000_00FF, 0x0000_FF00, 0x00FF_0000, 0], 2, 2);
    assert_eq!(
        vga.take_ops(),
        vec![
            FbOp::Pixel { x: 0, y: 0, color: Color(0, 0, 255) },
            FbOp::Pixel { x: 1, y: 0, color: Color(0, 255, 0) },
            FbOp::Pixel { x: 0, y: 1, color: Color(255, 0, 0) },
            FbOp::Pixel { x: 1, y: 1, color: Color(0, 0, 0) },
        ]
    );
}

#[test]
fn tcp_host_calls_answer_slots_and_states() {
    let mut it = machine();
    let mut net = NetworkStack::new([2, 0, 0, 0, 0, 1]);
    push(&mut it, &[80]);
    host_net_listen(&mut it, &mut net).unwrap();
    assert_eq!(it.top(), Some(0));
    push(&mut it, &[0]);
    host_net_status(&mut it, &net).unwrap();
    assert_eq!(it.top(), Some(1));
    push(&mut it, &[0]);
    host_net_close(&mut it, &mut net).unwrap();
    assert_eq!(it.top(), Some(0));
    push(&mut it, &[9]);
    host_net_close(&mut it, &mut net).unwrap();
    assert_eq!(it.top(), Some(0));
    push(&mut it, &[0]);
    host_net_accept(&mut it, &mut net).unwrap();
    assert_eq!(it.top(), Some(-1));
    push(&mut it, &[0x0100_000A, 8080]);
    host_net_connect(&mut it, &mut net).unwrap();
    assert_eq!(it.top(), Some(1));
    push(&mut it, &[1]);
    host_net_status(&mut it, &net).unwrap();
    assert_eq!(it.top(), Some(2));
    push(&mut it, &[9]);
    host_net_status(&mut it, &net).unwrap();
    assert_eq!(it.top(), Some(0));
    push(&mut it, &[1, 0, 4]);
    host_net_send(&mut it, &mut net).unwrap();
    assert_eq!(it.top(), Some(-1));
    push(&mut it, &[1, 0, 16]);
    host_net_recv(&mut it, &mut net).unwrap();
    assert_eq!(it.top(), Some(0));
    push(&mut it, &[9, 0, 16]);
    host_net_recv(&mut it, &mut net).unwrap();
    assert_eq!(it.top(), Some(-1));
}

#[test]
fn address_and_udp_host_calls() {
    let mut it = machine();
    let mut net = NetworkStack::new([2, 0, 0, 0, 0, 1]);
    push(&mut it, &[]);
    host_net_get_ip(&mut it, &net).unwrap();
    assert_eq!(it.top(), Some(0));
    push(&mut it, &[0x0F02_000A]);
    host_net_set_ip(&mut it, &mut net).unwrap();
    assert_eq!(it.top(), Some(0));
    host_net_get_ip(&mut it, &net).unwrap();
    assert_eq!(it.top(), Some(0x0F02_000A));
    push(&mut it, &[5000]);
    host_net_udp_bind(&mut it, &mut net).unwrap();
    assert_eq!(it.top(), Some(0));
    // Not connected yet: nothing can be sent.
    push(&mut it, &[0, 0, 4]);
    host_net_udp_send(&mut it, &mut net).unwrap();
    assert_eq!(it.top(), Some(-1));
    push(&mut it, &[0, 0x0102_000A, 53]);
    host_net_udp_connect(&mut it, &mut net).unwrap();
    assert_eq!(it.top(), Some(0));
    push(&mut it, &[5, 0x0102_000A, 53]);
    host_net_udp_connect(&mut it, &mut net).unwrap();
    assert_eq!(it.top(), Some(-1));
    let _ = net.take_outbox();
    assert!(it.host_write(0, b"ping"));
    push(&mut it, &[0, 0, 4]);
    host_net_udp_send(&mut it, &mut net).unwrap();
    assert_eq!(it.top(), Some(4));
    assert!(!net.take_outbox().is_empty());
    push(&mut it, &[0, 0, 16]);
    host_net_udp_recv(&mut it, &mut net).unwrap();
    assert_eq!(it.top(), Some(0));
    push(&mut it, &[0]);
    host_net_udp_close(&mut it, &mut net).unwrap();
    assert_eq!(it.top(), Some(0));
    push(&mut it, &[0, 0, 4]);
    host_net_udp_send(&mut it, &mut net).unwrap();
    assert_eq!(it.top(), Some(-1));
}

#[test]
fn the_pool_fills_first_free_slots_and_refuses_when_full() {
    let mut pool = InstancePool::new();
    assert_eq!(pool.spawn(b"a", &MODULE).unwrap(), 0);
    assert_eq!(pool.spawn(b"b", &MODULE).unwrap(), 1);
    pool.destroy(0);
    assert_eq!(pool.spawn(b"c", &MODULE).unwrap(), 0);
    assert_eq!(pool.spawn(b"d", &MODULE).unwrap(), 2);
    assert_eq!(pool.spawn(b"e", &MODULE).unwrap(), 3);
    assert!(matches!(pool.spawn(b"f", &MODULE), Err(RunError::PoolFull)));
    let names: Vec<(usize, Vec<u8>, u32)> = pool.list();
    assert_eq!(names[0], (0, b"c".to_vec(), 1));
    assert_eq!(names.len(), 4);
}

#[test]
fn spawn_reports_load_and_import_errors_and_keeps_the_pool() {
    let mut pool = InstancePool::new();
    assert!(matches!(pool.spawn(b"x", b"junk"), Err(RunError::Load(_))));
    let mut m = MODULE[..8].to_vec();
    let imports = import_section(&[("env", "nope")]);
    m.extend_from_slice(&[0x01, 0x04, 0x01, 0x60, 0x00, 0x00]);
    m.push(0x02);
    m.push(imports.len() as u8);
    m.extend_from_slice(&imports);
    assert!(matches!(pool.spawn(b"x", &m), Err(RunError::ImportNotFound)));
    assert!(pool.list().is_empty());
}

#[test]
fn a_taken_instance_is_put_back_into_its_slot() {
    let mut pool = InstancePool::new();
    let h = pool.spawn(b"long-name-that-is-longer-than-thirty-two-bytes", &MODULE).unwrap();
    let inst = pool.take(h).unwrap();
    assert_eq!(inst.name.len(), 32);
    assert!(pool.take(h).is_none());
    assert!(pool.list().is_empty());
    pool.put_back(h, inst);
    assert_eq!(pool.list().len(), 1);
    assert!(pool.take(9).is_none());
}

#[test]
fn the_bump_allocator_aligns_and_stops_at_the_end() {
    let mut heap = BumpAllocator::new();
    assert_eq!(heap.alloc_region(3, 1), Some(0));
    assert_eq!(heap.alloc_region(8, 8), Some(8));
    assert_eq!(heap.alloc_region(1, 16), Some(16));
    assert_eq!(heap.alloc_region(HEAP_SIZE, 1), None);
    assert_eq!(heap.alloc_region(4, 4), Some(20));
}
