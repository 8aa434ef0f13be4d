use wasmos::bytes::{bytes_eq, copy_into, push_be16, push_be32, push_le32, u32_from_be, u32_from_le};
use wasmos::leb128::{read_i32_leb128, read_i64_leb128, read_u32_leb128};
use wasmos::text::{is_utf8, str_or_empty};
use wasmos::wasm::loader::{load, read_memory_min_pages, LoadError};
use wasmos::wat::{compress_locals, Instr, Local, ValType, WasmEmitter};
use wasmos::wat_lex::{parse_i32, unescape_wat_string, Token, Tokenizer};

#[test]
fn leb128_decoding() {
    assert_eq!(read_u32_leb128(&[0xE5, 0x8E, 0x26]), Some((624485, 3)));
    assert_eq!(read_u32_leb128(&[0x00, 0xFF]), Some((0, 1)));
    assert_eq!(read_u32_leb128(&[0x80]), None);
    assert_eq!(read_i32_leb128(&[0xC0, 0xBB, 0x78]), Some((-123456, 3)));
    assert_eq!(read_i32_leb128(&[0x7F]), Some((-1, 1)));
    assert_eq!(read_i64_leb128(&[0x7F]), Some((-1, 1)));
    assert_eq!(read_i64_leb128(&[0xFF, 0xFF]), None);
}

#[test]
fn leb128_encoding_round_trips() {
    let mut e = WasmEmitter::new();
    e.write_leb128_u32(624485);
    e.write_leb128_i32(-123456);
    e.write_u32_raw(0x01020304);
    let out = e.finish();
    assert_eq!(out, vec![0xE5, 0x8E, 0x26, 0xC0, 0xBB, 0x78, 4, 3, 2, 1]);
    assert_eq!(read_u32_leb128(&out[..3]), Some((624485, 3)));
    assert_eq!(read_i32_leb128(&out[3..6]), Some((-123456, 3)));
}

#[test]
fn instruction_encodings() {
    let mut e = WasmEmitter::new();
    e.emit_instr(&Instr::I32Const(-1));
    e.emit_instr(&Instr::Block { block_ty: 0x40 });
    e.emit_instr(&Instr::I32Store8 { offset: 3, align: 0 });
    e.emit_instr(&Instr::Call(300));
    e.emit_instr(&Instr::F32Const(0x3FC00000));
    e.emit_instr(&Instr::End);
    assert_eq!(
        e.finish(),
        vec![0x41, 0x7F, 0x02, 0x40, 0x3A, 0x00, 0x03, 0x10, 0xAC, 0x02, 0x43, 0x00, 0x00, 0xC0, 0x3F, 0x0B]
    );
}

#[test]
fn locals_are_grouped_by_runs() {
    let l = |t| Local { ty: t };
    let g = compress_locals(&[l(ValType::I32), l(ValType::I32), l(ValType::I64), l(ValType::I32)]);
    assert_eq!(g, vec![(2, ValType::I32), (1, ValType::I64), (1, ValType::I32)]);
    assert_eq!(compress_locals(&[]), vec![]);
    assert_eq!(ValType::F64.byte(), 0x7C);
    assert_eq!(ValType::from_kw("f32"), Some(ValType::F32));
    assert_eq!(ValType::from_kw("i33"), None);
}

#[test]
fn tokens_of_wat_text() {
    let mut t = Tokenizer::new("(module $m ;; note\n \"a\\n\" 42 -7 1.5 i32.add)");
    assert!(matches!(t.next_token(), Some(Token::LParen)));
    assert!(matches!(t.next_token(), Some(Token::Keyword(k)) if k == b"module"));
    assert!(matches!(t.next_token(), Some(Token::Identifier(k)) if k == b"$m"));
    assert!(matches!(t.next_token(), Some(Token::StringLiteral(k)) if k == b"a\\n"));
    assert!(matches!(t.next_token(), Some(Token::Int(42))));
    assert!(matches!(t.next_token(), Some(Token::Int(-7))));
    assert!(matches!(t.next_token(), Some(Token::Float(k)) if k == b"1.5"));
    assert!(matches!(t.next_token(), Some(Token::Keyword(k)) if k == b"i32.add"));
    assert!(matches!(t.next_token(), Some(Token::RParen)));
    assert!(t.next_token().is_none());
}

#[test]
fn literal_helpers() {
    assert_eq!(parse_i32(b"-123"), -123);
    assert_eq!(parse_i32(b"1x2"), 12);
    assert_eq!(parse_i32(b"4294967297"), 1);
    assert_eq!(unescape_wat_string(b"a\\tb\\41\\\\\\\"\\0"), b"a\tbA\\\"\0".to_vec());
    assert_eq!(unescape_wat_string(b"\\q"), b"\\q".to_vec());
}

#[test]
fn byte_order_helpers() {
    let b = [1u8, 2, 3, 4];
    assert_eq!(u32_from_be(&b, 0), 0x01020304);
    assert_eq!(u32_from_le(&b, 0), 0x04030201);
    let mut v = Vec::new();
    push_be16(&mut v, 0x0A0B);
    push_be32(&mut v, 0x01020304);
    push_le32(&mut v, 0x01020304);
    assert_eq!(v, vec![0x0A, 0x0B, 1, 2, 3, 4, 4, 3, 2, 1]);
    assert!(bytes_eq(b"abc", b"abc"));
    assert!(!bytes_eq(b"abc", b"abd"));
    let mut d = [0u8; 5];
    copy_into(&mut d, 1, &[9, 9]);
    assert_eq!(d, [0, 9, 9, 0, 0]);
}

#[test]
fn utf8_checks() {
    assert!(is_utf8("héllo".as_bytes()));
    assert!(!is_utf8(&[0xC3]));
    assert_eq!(str_or_empty(b"ok"), "ok");
    assert_eq!(str_or_empty(&[0xFF, 0xFE]), "");
}

#[test]
fn loader_rejects_bad_headers() {
    assert_eq!(load(b"\0as").err(), Some(LoadError::TooShort));
    assert_eq!(load(b"\0asX\x01\0\0\0").err(), Some(LoadError::BadMagic));
    assert_eq!(load(b"\0asm\x02\0\0\0").err(), Some(LoadError::BadVersion));
    let m = load(b"\0asm\x01\0\0\0\x05\x03\x01\x00\x02").unwrap();
    assert_eq!(m.memory_section, Some(&[1u8, 0, 2][..]));
    assert_eq!(read_memory_min_pages(&[1, 0, 2]), 2);
    assert_eq!(LoadError::UnexpectedEof.as_str(), "unexpected end of section data");
}
