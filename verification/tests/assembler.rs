use wasmos::wasm::loader::{find_export, load};
use wasmos::wat_parse::{assemble, FloatLit, ParseError, Parser};
use wasmos::wat::{Instr, ValType};

/// Float literals as the shell's assembler reads them: integer part plus
/// decimal fraction, in `f32`, widened for `f64.const`.
fn conv(l: FloatLit) -> (u32, u64) {
    let v: f32 = match l {
        FloatLit::Int(n) => n as f32,
        FloatLit::Text(t) => {
            let s = core::str::from_utf8(t).unwrap();
            let neg = s.starts_with('-');
            let body = s.trim_start_matches('-');
            let mut parts = body.split('.');
            let int_part: i32 = parts.next().unwrap_or("0").parse().unwrap_or(0);
            let mut f = 0f32;
            let mut div = 10f32;
            if let Some(frac) = parts.next() {
                for c in frac.chars() {
                    f += (c as u8 - b'0') as f32 / div;
                    div *= 10.0;
                }
            }
            let r = int_part as f32 + f;
            if neg { -r } else { r }
        }
    };
    (v.to_bits(), (v as f64).to_bits())
}

const HEADER: [u8; 8] = [0x00, 0x61, 0x73, 0x6D, 0x01, 0x00, 0x00, 0x00];

#[test]
fn empty_module_is_just_the_header() {
    let out = assemble("(module)", &conv).unwrap();
    assert_eq!(out, HEADER.to_vec());
}

#[test]
fn exported_constant_function_bytes() {
    let out = assemble("(module (func (export \"f\") (result i32) i32.const 42))", &conv).unwrap();
    let mut expected = HEADER.to_vec();
    expected.extend_from_slice(&[1, 5, 1, 0x60, 0, 1, 0x7F]);
    expected.extend_from_slice(&[3, 2, 1, 0]);
    expected.extend_from_slice(&[7, 5, 1, 1, b'f', 0, 0]);
    expected.extend_from_slice(&[10, 6, 1, 4, 0, 0x41, 0x2A, 0x0B]);
    assert_eq!(out, expected);
}

#[test]
fn folded_add_with_named_params() {
    let src = "(module (func $add (export \"add\") (param $a i32) (param $b i32) (result i32)\n  (i32.add (local.get $a) (local.get $b))))";
    let out = assemble(src, &conv).unwrap();
    let m = load(&out).unwrap();
    assert_eq!(find_export(&m, "add"), Some(0));
    // code body: size 7, no locals, local.get 0, local.get 1, i32.add, end
    let tail = &out[out.len() - 8..];
    assert_eq!(tail, &[7, 0, 0x20, 0, 0x20, 1, 0x6A, 0x0B][..]);
}

#[test]
fn parser_builds_module_items() {
    let src = "(module\n (import \"env\" \"print\" (func $print (param i32 i32)))\n (memory 1 2)\n (data (i32.const 16) \"hi\\n\")\n (func (export \"main\") (call $print (i32.const 16) (i32.const 3))))";
    let mut p = Parser::new(src);
    let m = p.parse_module(&conv).unwrap();
    assert_eq!(m.imports.len(), 1);
    assert_eq!(m.imports[0].module, b"env".to_vec());
    assert_eq!(m.imports[0].name, b"print".to_vec());
    assert_eq!(m.types.len(), 2);
    assert_eq!(m.types[0].params, vec![ValType::I32, ValType::I32]);
    assert_eq!(m.memories.len(), 1);
    assert_eq!(m.memories[0].min, 1);
    assert_eq!(m.memories[0].max, Some(2));
    assert_eq!(m.data.len(), 1);
    assert_eq!(m.data[0].offset, 16);
    assert_eq!(m.data[0].bytes, b"hi\n".to_vec());
    assert_eq!(m.funcs.len(), 1);
    assert_eq!(m.funcs[0].body, vec![Instr::I32Const(16), Instr::I32Const(3), Instr::Call(0)]);
    assert_eq!(m.exports.len(), 1);
    assert_eq!(m.exports[0].index, 1);
}

#[test]
fn folded_if_and_loop_shapes() {
    let src = "(module (func (param i32) (result i32)\n (if (result i32) (local.get 0) (then (i32.const 1)) (else (i32.const 2)))\n (loop $l (br_if 0 (i32.const 0)))))";
    let mut p = Parser::new(src);
    let m = p.parse_module(&conv).unwrap();
    assert_eq!(
        m.funcs[0].body,
        vec![
            Instr::LocalGet(0),
            Instr::If { block_ty: 0x7F },
            Instr::I32Const(1),
            Instr::Else,
            Instr::I32Const(2),
            Instr::End,
            Instr::Loop { block_ty: 0x40 },
            Instr::I32Const(0),
            Instr::BrIf(0),
            Instr::End,
        ]
    );
}

#[test]
fn memory_operands_and_locals() {
    let src = "(module (func (local $x i32) (local i64 i64)\n i32.const 8 i32.load offset=4 align=2 local.set $x))";
    let mut p = Parser::new(src);
    let m = p.parse_module(&conv).unwrap();
    assert_eq!(m.funcs[0].locals.len(), 3);
    assert_eq!(
        m.funcs[0].body,
        vec![Instr::I32Const(8), Instr::I32Load { offset: 4, align: 2 }, Instr::LocalSet(0)]
    );
}

#[test]
fn float_constants_carry_bits() {
    let out = assemble("(module (func (result f32) f32.const 1.5))", &conv).unwrap();
    let tail = &out[out.len() - 6..];
    assert_eq!(tail, &[0x43, 0x00, 0x00, 0xC0, 0x3F, 0x0B][..]);
    let mut p = Parser::new("(module (func f64.const 2))");
    let m = p.parse_module(&conv).unwrap();
    assert_eq!(m.funcs[0].body, vec![Instr::F64Const(2.0f64.to_bits())]);
}

#[test]
fn parse_errors() {
    assert_eq!(assemble("", &conv), Err(ParseError::ExpectedLParen));
    assert_eq!(assemble("module", &conv), Err(ParseError::ExpectedLParen));
    assert_eq!(assemble("(foo)", &conv), Err(ParseError::ExpectedKeyword));
    assert_eq!(assemble("(module", &conv), Err(ParseError::ExpectedRParen));
    assert_eq!(assemble("(module (func (export 1)))", &conv), Err(ParseError::ExpectedString));
    assert_eq!(assemble("(module (func (type)))", &conv), Err(ParseError::ExpectedTypeIndex));
    assert_eq!(assemble("(module (table 1 (elem", &conv), Err(ParseError::UnexpectedEof));
    assert_eq!(ParseError::ExpectedLParen.as_str(), "expected '('");
    assert_eq!(ParseError::UnexpectedEof.as_str(), "unexpected EOF while skipping");
}

#[test]
fn interned_types_are_shared() {
    let src = "(module (func (param i32)) (func (param i32)) (type $t (func (result i64))) (func (type $t) i64.const 7))";
    let mut p = Parser::new(src);
    let m = p.parse_module(&conv).unwrap();
    assert_eq!(m.types.len(), 2);
    assert_eq!(m.funcs[0].type_idx, 0);
    assert_eq!(m.funcs[1].type_idx, 0);
    assert_eq!(m.funcs[2].type_idx, 1);
    assert_eq!(m.funcs[2].body, vec![Instr::I64Const(7)]);
}

#[test]
fn data_segment_index_offset_and_joined_strings() {
    let mut p = Parser::new("(module (memory 1) (data 0 (i32.const 4) \"ab\" \"c\"))");
    let m = p.parse_module(&conv).unwrap();
    assert_eq!(m.data.len(), 1);
    assert_eq!(m.data[0].mem_idx, 0);
    assert_eq!(m.data[0].offset, 4);
    assert_eq!(m.data[0].bytes, b"abc".to_vec());
}

#[test]
fn data_segment_without_const_keyword_is_refused() {
    let mut p = Parser::new("(module (data (i64.const 1) \"x\"))");
    assert_eq!(p.parse_module(&conv).err(), Some(ParseError::ExpectedKeyword));
}

#[test]
fn type_definition_with_one_param_group() {
    let mut p = Parser::new("(module (type $t (func (param i32 i64))))");
    let m = p.parse_module(&conv).unwrap();
    assert_eq!(m.types.len(), 1);
    assert_eq!(m.types[0].params, vec![ValType::I32, ValType::I64]);
    assert!(m.types[0].results.is_empty());
}

#[test]
fn plain_instruction_body_in_order() {
    let mut p = Parser::new("(module (func nop drop return))");
    let m = p.parse_module(&conv).unwrap();
    assert_eq!(m.funcs.len(), 1);
    assert_eq!(m.types.len(), 1);
    assert!(m.types[0].params.is_empty() && m.types[0].results.is_empty());
    assert_eq!(m.funcs[0].body, vec![Instr::Nop, Instr::Drop, Instr::Return]);
}
