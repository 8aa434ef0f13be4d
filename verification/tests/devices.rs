use wasmos::jit::emit::{CodeBuf, Reg};
use wasmos::keyboard::{scancode_to_char, serial_byte_to_key, Key, KeyDecoder};
use wasmos::net::arp::{ArpCache, ArpPacket};
use wasmos::net::ip::{ip_chksum, IpAddr};
use wasmos::net::stack::NetworkStack;
use wasmos::shell::{parse_i32, parse_usize, tokenize, HistoryBuf, LineBuffer, LineEvent, ShellError};

#[test]
fn prologue_and_epilogue_bytes() {
    let mut c = CodeBuf::new(vec![0u8; 17]);
    c.emit_prologue();
    assert_eq!(c.len(), 17);
    assert_eq!(
        c.bytes(),
        &[0x55, 0x48, 0x89, 0xE5, 0x53, 0x41, 0x54, 0x41, 0x55, 0x41, 0x56, 0x41, 0x57, 0x48, 0x83, 0xEC, 0x08][..]
    );
    let mut d = CodeBuf::new(vec![0u8; 15]);
    d.emit_epilogue();
    assert_eq!(
        d.bytes(),
        &[0x48, 0x83, 0xC4, 0x08, 0x41, 0x5F, 0x41, 0x5E, 0x41, 0x5D, 0x41, 0x5C, 0x5B, 0x5D, 0xC3][..]
    );
}

#[test]
fn emitting_past_the_end_writes_nothing() {
    let mut c = CodeBuf::new(vec![0u8; 2]);
    c.emit_u32(0xAABBCCDD);
    assert_eq!(c.bytes(), &[0xDD, 0xCC][..]);
    assert_eq!(c.len(), 2);
}

#[test]
fn register_moves_and_jump_patching() {
    let mut c = CodeBuf::new(vec![0u8; 16]);
    c.emit_mov_rr(Reg::Rax, Reg::R9);
    c.emit_mov_ri32(Reg::Rcx, 7);
    assert_eq!(&c.bytes()[..8], &[0x4C, 0x89, 0xC8, 0xB9, 7, 0, 0, 0][..]);
    let at = c.emit_rel32_placeholder();
    let end = c.pos();
    c.emit_ret();
    c.patch_rel32(at, end, end + 1);
    assert_eq!(&c.bytes()[at..at + 4], &[1, 0, 0, 0][..]);
}

#[test]
fn keyboard_decoding() {
    assert_eq!(scancode_to_char(0x1E, false), Some('a'));
    assert_eq!(scancode_to_char(0x02, true), Some('!'));
    assert_eq!(scancode_to_char(0x01, false), None);
    let mut d = KeyDecoder::new();
    assert_eq!(d.feed(0x1E), Some(Key::Char('a')));
    assert_eq!(d.feed(0x2A), None);
    assert_eq!(d.feed(0x1E), Some(Key::Char('A')));
    assert_eq!(d.feed(0xAA), None);
    assert_eq!(d.feed(0x9E), None);
    assert_eq!(d.feed(0x0E), Some(Key::Backspace));
    assert_eq!(d.feed(0x1C), Some(Key::Enter));
    assert_eq!(serial_byte_to_key(0x7F), Key::Backspace);
    assert_eq!(serial_byte_to_key(b'\r'), Key::Enter);
    assert_eq!(serial_byte_to_key(b'x'), Key::Char('x'));
    assert_eq!(serial_byte_to_key(0x01), Key::Unknown);
}

#[test]
fn shell_tokens_and_numbers() {
    let line = b"  ls  -l /tmp ";
    let mut out: [&[u8]; 8] = [&[]; 8];
    assert_eq!(tokenize(line, &mut out), Ok(3));
    assert_eq!(out[0], b"ls");
    assert_eq!(out[1], b"-l");
    assert_eq!(out[2], b"/tmp");
    let many = b"a b c d e f g h i";
    assert_eq!(tokenize(many, &mut out), Err(ShellError::TooManyArgs));
    assert_eq!(parse_i32(b"-42"), Some(-42));
    assert_eq!(parse_i32(b"2147483647"), Some(2147483647));
    assert_eq!(parse_i32(b"2147483648"), None);
    assert_eq!(parse_i32(b""), None);
    assert_eq!(parse_usize(b"12"), Some(12));
    assert_eq!(parse_usize(b"1a"), None);
}

#[test]
fn history_keeps_the_latest_lines() {
    let mut h = HistoryBuf::new();
    for i in 0..20u8 {
        h.push(&[b'a' + i]);
    }
    assert_eq!(h.len(), 16);
    assert_eq!(h.get(0), &[b'a' + 4][..]);
    assert_eq!(h.get(15), &[b'a' + 19][..]);
}

#[test]
fn line_buffer_keys() {
    let mut l = LineBuffer::new(2);
    assert_eq!(l.handle_key(Key::Char('h')), LineEvent::Echo('h'));
    assert_eq!(l.handle_key(Key::Char('i')), LineEvent::Echo('i'));
    assert_eq!(l.handle_key(Key::Char('!')), LineEvent::Ignored);
    assert_eq!(l.handle_key(Key::Backspace), LineEvent::Erase);
    assert_eq!(l.data, b"h".to_vec());
    assert_eq!(l.handle_key(Key::Enter), LineEvent::Done);
    assert_eq!(l.handle_key(Key::Tab), LineEvent::Ignored);
}

#[test]
fn ip_checksum_of_a_known_header() {
    let hdr = [
        0x45u8, 0x00, 0x00, 0x73, 0x00, 0x00, 0x40, 0x00, 0x40, 0x11, 0x00, 0x00, 0xc0, 0xa8, 0x00, 0x01, 0xc0,
        0xa8, 0x00, 0xc7,
    ];
    assert_eq!(ip_chksum(&hdr), 0xB861);
    assert!(IpAddr::new(192, 168, 1, 1).is_private());
    assert!(IpAddr::new(127, 0, 0, 1).is_loopback());
    assert_eq!(IpAddr::from_u32(0x0A00020F).to_u32(), 0x0A00020F);
}

#[test]
fn arp_cache_and_packets() {
    let mut c = ArpCache::new();
    assert_eq!(c.lookup([10, 0, 2, 2]), None);
    c.insert([10, 0, 2, 2], [1, 2, 3, 4, 5, 6]);
    assert_eq!(c.lookup([10, 0, 2, 2]), Some([1, 2, 3, 4, 5, 6]));
    let p = ArpPacket::new_reply([10, 0, 2, 15], [10, 0, 2, 2], [9; 6], [1, 2, 3, 4, 5, 6]);
    let b = p.to_bytes();
    let back = ArpPacket::parse(&b).unwrap();
    assert_eq!(back.operation, 2);
    assert_eq!(back.sender_ip, [10, 0, 2, 15]);
    assert_eq!(back.target_mac, [1, 2, 3, 4, 5, 6]);
}

#[test]
fn stack_answers_arp_requests_for_its_address() {
    let mine = [0x52, 0x54, 0x00, 0x12, 0x34, 0x56];
    let peer = [0x52, 0x55, 0x0A, 0x00, 0x02, 0x02];
    let mut s = NetworkStack::new(mine);
    s.set_ip(IpAddr::new(10, 0, 2, 15));
    let mut frame = vec![0xFFu8; 6];
    frame.extend_from_slice(&peer);
    frame.extend_from_slice(&[0x08, 0x06]);
    frame.extend_from_slice(&[0, 1, 0x08, 0x00, 6, 4, 0, 1]);
    frame.extend_from_slice(&peer);
    frame.extend_from_slice(&[10, 0, 2, 2]);
    frame.extend_from_slice(&[0; 6]);
    frame.extend_from_slice(&[10, 0, 2, 15]);
    assert_eq!(s.poll(&frame), Some(frame.len()));
    let out = s.take_outbox();
    assert_eq!(out.len(), 1);
    let r = &out[0];
    assert_eq!(&r[0..6], &peer[..]);
    assert_eq!(&r[6..12], &mine[..]);
    assert_eq!(&r[12..14], &[0x08, 0x06][..]);
    assert_eq!(&r[20..22], &[0, 2][..]);
    assert_eq!(&r[28..32], &[10, 0, 2, 15][..]);
    // A request for another address gets no answer.
    frame[38..42].copy_from_slice(&[10, 0, 2, 99]);
    s.poll(&frame);
    assert_eq!(s.take_outbox().len(), 0);
}
