use wasmos::jit::emit::{CodeBuf, Cond, Reg};
use wasmos::leb128::read_u32_leb128;
use wasmos::shell::{parse_i32, HistoryBuf};
use wasmos::virtq::{find_contiguous_pages, vq_avail_idx_off, vq_avail_ring_off, vq_pages_needed, vq_total_bytes, vq_used_base, vq_used_idx_off};

#[test]
fn setcc_on_an_extended_register() {
    let mut c = CodeBuf::new(vec![0u8; 16]);
    c.emit_setcc(Cond::E, Reg::R9);
    assert_eq!(c.len(), 4);
    assert_eq!(&c.bytes()[..4], &[0x41, 0x0F, 0x94, 0xC1][..]);
}

#[test]
fn neg_on_an_extended_register() {
    let mut c = CodeBuf::new(vec![0u8; 16]);
    c.emit_neg(Reg::R8);
    assert_eq!(c.len(), 3);
    assert_eq!(&c.bytes()[..3], &[0x49, 0xF7, 0xD8][..]);
}

#[test]
fn indexed_load_uses_a_sib_byte() {
    let mut c = CodeBuf::new(vec![0u8; 16]);
    c.emit_mem_load_u64(Reg::Rcx, Reg::Rdx, Reg::Rax);
    assert_eq!(c.len(), 4);
    assert_eq!(&c.bytes()[..4], &[0x48, 0x8B, 0x0C, 0x02][..]);
    let mut d = CodeBuf::new(vec![0u8; 16]);
    d.emit_mem_store_u64(Reg::Rax, Reg::Rbp, Reg::R9);
    assert_eq!(d.len(), 5);
    assert_eq!(&d.bytes()[..5], &[0x4A, 0x89, 0x44, 0x0D, 0x00][..]);
}

#[test]
fn parse_i32_reaches_the_minimum() {
    assert_eq!(parse_i32(b"-2147483648"), Some(i32::MIN));
    assert_eq!(parse_i32(b"-42"), Some(-42));
    assert_eq!(parse_i32(b""), None);
    assert_eq!(parse_i32(b"-"), None);
    assert_eq!(parse_i32(b"12a"), None);
    assert_eq!(parse_i32(b"2147483648"), None);
    assert_eq!(parse_i32(b"-2147483649"), None);
}

#[test]
fn u32_leb_beyond_the_range_is_refused() {
    assert_eq!(read_u32_leb128(&[0x80, 0x80, 0x80, 0x80, 0x10]), None);
    assert_eq!(read_u32_leb128(&[0xFF, 0xFF, 0xFF, 0xFF, 0x0F]), Some((u32::MAX, 5)));
}

#[test]
fn history_out_of_range_is_empty() {
    let mut h = HistoryBuf::new();
    h.push(b"a");
    assert_eq!(h.get(16), &b""[..]);
    assert_eq!(h.get(0), &b"a"[..]);
}

#[test]
fn virtqueue_layout_of_depth_256() {
    assert_eq!(vq_avail_idx_off(256), 4098);
    assert_eq!(vq_avail_ring_off(256), 4100);
    assert_eq!(vq_used_base(256), 8192);
    assert_eq!(vq_used_idx_off(256), 8194);
    assert_eq!(vq_total_bytes(256), 8192 + 4 + 2048 + 2);
    assert_eq!(vq_pages_needed(256), 3);
    assert_eq!(vq_used_base(128), 4096);
}

#[test]
fn contiguous_page_runs() {
    let phys = [0x1000, 0x9000, 0xA000, 0xB000, 0x2000, 0x3000];
    assert_eq!(find_contiguous_pages(3, &phys), Some(1));
    assert_eq!(find_contiguous_pages(1, &phys), Some(0));
    assert_eq!(find_contiguous_pages(4, &phys), None);
    assert_eq!(find_contiguous_pages(0, &phys), None);
    assert_eq!(find_contiguous_pages(7, &phys), None);
}

#[test]
fn function_fields_and_plain_body() {
    let src = "(module (func $f (export \"a\") (param $x i32) (param i64 i32) (result i32) nop drop))";
    let mut p = wasmos::wat_parse::Parser::new(src);
    let m = p.parse_module(&|_l: wasmos::wat_parse::FloatLit| (0u32, 0u64)).unwrap();
    assert_eq!(m.exports.len(), 1);
    assert_eq!(m.exports[0].name, b"a".to_vec());
    assert_eq!(m.exports[0].kind, 0);
    assert_eq!(m.exports[0].index, 0);
    assert_eq!(m.types.len(), 1);
    assert_eq!(m.types[0].params, vec![wasmos::wat::ValType::I32, wasmos::wat::ValType::I64, wasmos::wat::ValType::I32]);
    assert_eq!(m.types[0].results, vec![wasmos::wat::ValType::I32]);
    assert_eq!(m.funcs[0].body, vec![wasmos::wat::Instr::Nop, wasmos::wat::Instr::Drop]);
    assert!(m.funcs[0].locals.is_empty());
}

#[test]
fn function_locals_and_operands() {
    let src = "(module (func (param i32) (local $t i64) (local i32) local.get 0 i32.const 5 drop))";
    let mut p = wasmos::wat_parse::Parser::new(src);
    let m = p.parse_module(&|_l: wasmos::wat_parse::FloatLit| (0u32, 0u64)).unwrap();
    assert_eq!(m.types.len(), 1);
    assert_eq!(m.types[0].params, vec![wasmos::wat::ValType::I32]);
    assert!(m.types[0].results.is_empty());
    assert_eq!(
        m.funcs[0].locals,
        vec![
            wasmos::wat::Local { ty: wasmos::wat::ValType::I64 },
            wasmos::wat::Local { ty: wasmos::wat::ValType::I32 },
        ]
    );
    assert_eq!(
        m.funcs[0].body,
        vec![wasmos::wat::Instr::LocalGet(0), wasmos::wat::Instr::I32Const(5), wasmos::wat::Instr::Drop]
    );
}

#[test]
fn module_of_plain_functions() {
    let src = "(module (func $a (export \"a\") (result i32) i32.const 1) (func (export \"b\") (result i32) i32.const 2) (func (param i32) local.get 0 drop))";
    let mut p = wasmos::wat_parse::Parser::new(src);
    let m = p.parse_module(&|_l: wasmos::wat_parse::FloatLit| (0u32, 0u64)).unwrap();
    assert_eq!(m.types.len(), 2);
    assert!(m.types[0].params.is_empty());
    assert_eq!(m.types[0].results, vec![wasmos::wat::ValType::I32]);
    assert_eq!(m.types[1].params, vec![wasmos::wat::ValType::I32]);
    assert!(m.types[1].results.is_empty());
    assert_eq!(m.funcs.len(), 3);
    assert_eq!(m.funcs[0].type_idx, 0);
    assert_eq!(m.funcs[1].type_idx, 0);
    assert_eq!(m.funcs[2].type_idx, 1);
    assert_eq!(m.exports.len(), 2);
    assert_eq!(m.exports[0].name, b"a".to_vec());
    assert_eq!(m.exports[0].index, 0);
    assert_eq!(m.exports[1].name, b"b".to_vec());
    assert_eq!(m.exports[1].index, 1);
    assert_eq!(m.funcs[2].body, vec![wasmos::wat::Instr::LocalGet(0), wasmos::wat::Instr::Drop]);
    let bytes = wasmos::wat_parse::assemble(src, &|_l: wasmos::wat_parse::FloatLit| (0u32, 0u64)).unwrap();
    assert_eq!(&bytes[..8], &[0x00, 0x61, 0x73, 0x6D, 0x01, 0x00, 0x00, 0x00]);
    assert!(bytes.len() > 8);
}

#[test]
fn shared_errors_compare() {
    assert_eq!(wasmos::shared::Error::FileNotFound, wasmos::shared::Error::FileNotFound);
    assert_ne!(wasmos::shared::Error::InvalidInput, wasmos::shared::Error::RuntimeError);
}

#[test]
fn inline_import_function() {
    let src = "(module (func $p (param i32) (import \"env\" \"print\")))";
    let mut p = wasmos::wat_parse::Parser::new(src);
    let m = p.parse_module(&|_l: wasmos::wat_parse::FloatLit| (0u32, 0u64)).unwrap();
    assert_eq!(m.imports.len(), 1);
    assert_eq!(m.imports[0].module, b"env".to_vec());
    assert_eq!(m.imports[0].name, b"print".to_vec());
    assert_eq!(m.imports[0].type_idx, 0);
    assert!(m.funcs.is_empty());
    assert_eq!(m.types[0].params, vec![wasmos::wat::ValType::I32]);
}

#[test]
fn function_type_use() {
    let src = "(module (func (type 5) nop) (func (local i32) (type 3) nop))";
    let mut p = wasmos::wat_parse::Parser::new(src);
    let m = p.parse_module(&|_l: wasmos::wat_parse::FloatLit| (0u32, 0u64)).unwrap();
    assert_eq!(m.funcs.len(), 2);
    assert_eq!(m.funcs[0].type_idx, 5);
    assert_eq!(m.funcs[1].type_idx, 3);
    assert_eq!(m.types.len(), 1);
    assert!(m.types[0].params.is_empty());
    assert_eq!(m.funcs[1].locals.len(), 1);
}
