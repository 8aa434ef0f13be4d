//! Encoding side of the in-kernel WAT assembler: value types, the module
//! items it produces, and the byte emitter that writes the WebAssembly
//! binary format.
use vstd::prelude::*;
use vstd::string::StringSliceAdditionalSpecFns;
use crate::bytes::{le32, le64};
use crate::wasm::numeric::{binop, unop, lemma_shr_divides, lemma_trunc_div};
use crate::wasm::interp::InterpError;
use vstd::arithmetic::power2::pow2;
use crate::leb128::{uleb32_decode, sleb32_decode, lemma_uleb32_roundtrip, lemma_sleb32_roundtrip, uleb32_encode, uleb32_len, lemma_uleb32_step, sleb32_encode, sleb32_len, lemma_sleb32_step};

verus! {

/// WASM value type.
#[derive(Debug, Copy, Clone, PartialEq, Eq, Structural)]
pub enum ValType {
    I32,
    I64,
    F32,
    F64,
}

/// The binary encoding byte of a value type.
pub open spec fn valtype_byte(t: ValType) -> u8 {
    match t {
        ValType::I32 => 0x7F,
        ValType::I64 => 0x7E,
        ValType::F32 => 0x7D,
        ValType::F64 => 0x7C,
    }
}

impl ValType {
    /// Encoding byte of this value type.
    pub fn byte(self) -> (b: u8)
        ensures
            b == valtype_byte(self),
    {
        match self {
            ValType::I32 => 0x7F,
            ValType::I64 => 0x7E,
            ValType::F32 => 0x7D,
            ValType::F64 => 0x7C,
        }
    }

    /// Parse a WAT keyword `"i32"`, `"i64"`, `"f32"` or `"f64"`.
    pub fn from_kw(kw: &str) -> (r: Option<ValType>)
        ensures
            r == valtype_from_kw(kw.spec_bytes()),
    {
        ValType::from_kw_bytes(kw.as_bytes())
    }

    /// `from_kw` on the keyword's bytes.
    pub fn from_kw_bytes(b: &[u8]) -> (r: Option<ValType>)
        ensures
            r == valtype_from_kw(b@),
    {
        if b.len() != 3 {
            return None;
        }
        let r = if b[0] == 0x69u8 && b[1] == 0x33u8 && b[2] == 0x32u8 {
            Some(ValType::I32)
        } else if b[0] == 0x69u8 && b[1] == 0x36u8 && b[2] == 0x34u8 {
            Some(ValType::I64)
        } else if b[0] == 0x66u8 && b[1] == 0x33u8 && b[2] == 0x32u8 {
            Some(ValType::F32)
        } else if b[0] == 0x66u8 && b[1] == 0x36u8 && b[2] == 0x34u8 {
            Some(ValType::F64)
        } else {
            None
        };
        proof {
            let w = b@;
            assert(w =~= seq![w[0], w[1], w[2]]);
        }
        r
    }
}

/// The value type a WAT keyword (as UTF-8 bytes) names.
pub open spec fn valtype_from_kw(kw: Seq<u8>) -> Option<ValType> {
    if kw == seq![0x69u8, 0x33u8, 0x32u8] {
        Some(ValType::I32)
    } else if kw == seq![0x69u8, 0x36u8, 0x34u8] {
        Some(ValType::I64)
    } else if kw == seq![0x66u8, 0x33u8, 0x32u8] {
        Some(ValType::F32)
    } else if kw == seq![0x66u8, 0x36u8, 0x34u8] {
        Some(ValType::F64)
    } else {
        None
    }
}

/// A function type signature.
pub struct FuncType {
    pub params: Vec<ValType>,
    pub results: Vec<ValType>,
}

/// A local variable inside a function body.
#[derive(Clone, Copy, PartialEq, Eq, Debug, Structural)]
pub struct Local {
    pub ty: ValType,
}

/// `(import "module" "name" (func (type $idx)))`
pub struct Import {
    pub module: Vec<u8>,
    pub name: Vec<u8>,
    pub type_idx: u32,
}

/// `(export "name" (func $idx))`
pub struct Export {
    pub name: Vec<u8>,
    pub kind: u8,
    pub index: u32,
}

/// `(memory min max?)`
pub struct Memory {
    pub min: u32,
    pub max: Option<u32>,
}

/// `(data (i32.const offset) "bytes...")`
pub struct DataSeg {
    pub mem_idx: u32,
    pub offset: i32,
    pub bytes: Vec<u8>,
}

/// Growable output buffer for a WebAssembly binary.
pub struct WasmEmitter {
    buf: Vec<u8>,
}

impl View for WasmEmitter {
    type V = Seq<u8>;

    closed spec fn view(&self) -> Seq<u8> {
        self.buf@
    }
}


impl WasmEmitter {
    /// An empty emitter.
    pub fn new() -> (e: Self)
        ensures
            e@ == Seq::<u8>::empty(),
    {
        WasmEmitter { buf: Vec::new() }
    }

    /// Append one byte.
    pub fn write_u8(&mut self, val: u8)
        ensures
            final(self)@ == old(self)@.push(val),
    {
        self.buf.push(val);
    }

    /// Append a 32-bit value in little-endian byte order.
    pub fn write_u32_raw(&mut self, val: u32)
        ensures
            final(self)@ == old(self)@ + le32(val),
    {
        self.buf.push((val % 256) as u8);
        self.buf.push(((val / 256) % 256) as u8);
        self.buf.push(((val / 65536) % 256) as u8);
        self.buf.push((val / 16777216) as u8);
    }

    /// Append `val` as an unsigned LEB-128 number.
    pub fn write_leb128_u32(&mut self, val: u32)
        ensures
            final(self)@ == old(self)@ + uleb32_encode(val),
    {
        let ghost v = val;
        let ghost start = self.buf@;
        let mut val = val;
        let ghost mut i: nat = 0;
        assert(v >> 0u32 == v) by (bit_vector);
        loop
            invariant_except_break
                i < uleb32_len(v),
                val == v >> ((7 * i) as u32),
                self.buf@ == start + uleb32_encode(v).take(i as int),
            ensures
                self.buf@ == start + uleb32_encode(v),
            decreases uleb32_len(v) - i,
        {
            proof {
                lemma_uleb32_step(v, i);
            }
            let byte = (val & 0x7F) as u8;
            val = val >> 7;
            if val == 0 {
                self.buf.push(byte);
                proof {
                    assert(uleb32_encode(v).take((i + 1) as int) =~= uleb32_encode(v));
                    assert(uleb32_encode(v).take(i as int).push(byte) =~= uleb32_encode(v).take(
                        (i + 1) as int,
                    ));
                }
                break;
            } else {
                self.buf.push(byte | 0x80);
                proof {
                    assert(uleb32_encode(v).take(i as int).push(byte | 0x80) =~= uleb32_encode(
                        v,
                    ).take((i + 1) as int));
                    i = i + 1;
                }
            }
        }
    }

    /// Append `val` as a signed LEB-128 number.
    pub fn write_leb128_i32(&mut self, val: i32)
        ensures
            final(self)@ == old(self)@ + sleb32_encode(val),
    {
        let ghost v = val;
        let ghost start = self.buf@;
        let mut val = val;
        let ghost mut i: nat = 0;
        assert(v >> 0u32 == v) by (bit_vector);
        loop
            invariant_except_break
                i < sleb32_len(v),
                val == v >> ((7 * i) as u32),
                self.buf@ == start + sleb32_encode(v).take(i as int),
            ensures
                self.buf@ == start + sleb32_encode(v),
            decreases sleb32_len(v) - i,
        {
            proof {
                lemma_sleb32_step(v, i);
            }
            let byte = (val & 0x7F) as u8;
            val = val >> 6;
            let more = val != 0 && val != -1;
            if !more {
                self.buf.push(byte & 0x7F);
                proof {
                    assert(sleb32_encode(v).take((i + 1) as int) =~= sleb32_encode(v));
                    assert(sleb32_encode(v).take(i as int).push(byte & 0x7F) =~= sleb32_encode(
                        v,
                    ).take((i + 1) as int));
                }
                break;
            } else {
                self.buf.push(byte | 0x80);
                val = val >> 1;
                proof {
                    assert(sleb32_encode(v).take(i as int).push(byte | 0x80) =~= sleb32_encode(
                        v,
                    ).take((i + 1) as int));
                    i = i + 1;
                }
            }
        }
    }

    /// Append a length-prefixed byte vector.
    pub fn write_bytes(&mut self, bytes: &[u8])
        ensures
            final(self)@ == old(self)@ + uleb32_encode(bytes@.len() as u32) + bytes@,
    {
        self.write_leb128_u32(bytes.len() as u32);
        let ghost mid = self.buf@;
        let mut i: usize = 0;
        while i < bytes.len()
            invariant
                i <= bytes@.len(),
                self.buf@ == mid + bytes@.take(i as int),
            decreases bytes.len() - i,
        {
            self.buf.push(bytes[i]);
            i = i + 1;
            proof {
                assert(mid + bytes@.take(i as int) =~= (mid + bytes@.take(i - 1)).push(
                    bytes@[i - 1],
                ));
            }
        }
        proof {
            assert(bytes@.take(bytes@.len() as int) =~= bytes@);
        }
    }

    /// Hand out the bytes written so far.
    pub fn finish(self) -> (out: Vec<u8>)
        ensures
            out@ == self@,
    {
        self.buf
    }
}

/// Run-length groups of a local list: each maximal run of one type
/// becomes `(count, type)`.
pub open spec fn local_groups(locals: Seq<Local>) -> Seq<(u32, ValType)>
    decreases locals.len(),
{
    if locals.len() == 0 {
        Seq::empty()
    } else {
        let prev = local_groups(locals.drop_last());
        let t = locals.last().ty;
        if prev.len() > 0 && prev.last().1 == t {
            prev.update(prev.len() - 1, ((prev.last().0 + 1) as u32, t))
        } else {
            prev.push((1u32, t))
        }
    }
}

/// Compress a local list into `(count, type)` run-length pairs.
pub fn compress_locals(locals: &[Local]) -> (groups: Vec<(u32, ValType)>)
    requires
        locals@.len() <= u32::MAX,
    ensures
        groups@ == local_groups(locals@),
{
    let mut groups: Vec<(u32, ValType)> = Vec::new();
    let mut i: usize = 0;
    while i < locals.len()
        invariant
            i <= locals@.len(),
            locals@.len() <= u32::MAX,
            groups@ == local_groups(locals@.take(i as int)),
            forall|k: int| 0 <= k < groups@.len() ==> groups@[k].0 <= i,
        decreases locals.len() - i,
    {
        let ty = locals[i].ty;
        proof {
            assert(locals@.take(i + 1).drop_last() =~= locals@.take(i as int));
        }
        let n = groups.len();
        if n > 0 && groups[n - 1].1 == ty {
            let c = groups[n - 1].0;
            groups.set(n - 1, (c + 1, ty));
        } else {
            groups.push((1, ty));
        }
        i = i + 1;
    }
    proof {
        assert(locals@.take(locals@.len() as int) =~= locals@);
    }
    groups
}


/// A WASM instruction of the subset the assembler understands. Float
/// constants carry the bits of their IEEE value: an `f32` for `F32Const`
/// and the `f64` it widens to for `F64Const`.
#[derive(Clone, Copy, PartialEq, Eq, Debug, Structural)]
pub enum Instr {
    Unreachable,
    Nop,
    Return,
    Drop,
    LocalGet(u32),
    LocalSet(u32),
    LocalTee(u32),
    I32Const(i32),
    I64Const(i32),
    F32Const(u32),
    F64Const(u64),
    I32Add,
    I32Sub,
    I32Mul,
    I32DivS,
    I32DivU,
    I32RemS,
    I32RemU,
    I32And,
    I32Or,
    I32Xor,
    I32Shl,
    I32ShrS,
    I32ShrU,
    I32Eqz,
    I32Eq,
    I32Ne,
    I32LtS,
    I32LtU,
    I32GtS,
    I32GtU,
    I32LeS,
    I32LeU,
    I32GeS,
    I32GeU,
    I64Add,
    I64Sub,
    I64Mul,
    I64And,
    I64Or,
    I64Xor,
    I64Eqz,
    I64Eq,
    I64Ne,
    F32Add,
    F32Sub,
    F32Mul,
    F32Div,
    F64Add,
    F64Sub,
    F64Mul,
    F64Div,
    I32Load { offset: u32, align: u32 },
    I32Store { offset: u32, align: u32 },
    I32Load8S { offset: u32, align: u32 },
    I32Load8U { offset: u32, align: u32 },
    I32Store8 { offset: u32, align: u32 },
    Call(u32),
    If { block_ty: u8 },
    Else,
    Loop { block_ty: u8 },
    Block { block_ty: u8 },
    Br(u32),
    BrIf(u32),
    End,
    Select,
}

/// The binary encoding of an instruction: its opcode, then its immediates
/// (LEB-128 indices and integer constants, the memory argument as
/// alignment then offset, little-endian float bits).
pub open spec fn instr_bytes(i: Instr) -> Seq<u8> {
    match i {
        Instr::Unreachable => seq![0x0u8],
        Instr::Nop => seq![0x1u8],
        Instr::Return => seq![0xfu8],
        Instr::Drop => seq![0x1au8],
        Instr::Select => seq![0x1bu8],
        Instr::End => seq![0xbu8],
        Instr::Else => seq![0x5u8],
        Instr::I32Add => seq![0x6au8],
        Instr::I32Sub => seq![0x6bu8],
        Instr::I32Mul => seq![0x6cu8],
        Instr::I32DivS => seq![0x6du8],
        Instr::I32DivU => seq![0x6eu8],
        Instr::I32RemS => seq![0x6fu8],
        Instr::I32RemU => seq![0x70u8],
        Instr::I32And => seq![0x71u8],
        Instr::I32Or => seq![0x72u8],
        Instr::I32Xor => seq![0x73u8],
        Instr::I32Shl => seq![0x74u8],
        Instr::I32ShrS => seq![0x75u8],
        Instr::I32ShrU => seq![0x76u8],
        Instr::I32Eqz => seq![0x45u8],
        Instr::I32Eq => seq![0x46u8],
        Instr::I32Ne => seq![0x47u8],
        Instr::I32LtS => seq![0x48u8],
        Instr::I32LtU => seq![0x49u8],
        Instr::I32GtS => seq![0x4au8],
        Instr::I32GtU => seq![0x4bu8],
        Instr::I32LeS => seq![0x4cu8],
        Instr::I32LeU => seq![0x4du8],
        Instr::I32GeS => seq![0x4eu8],
        Instr::I32GeU => seq![0x4fu8],
        Instr::I64Add => seq![0x7cu8],
        Instr::I64Sub => seq![0x7du8],
        Instr::I64Mul => seq![0x7eu8],
        Instr::I64And => seq![0x83u8],
        Instr::I64Or => seq![0x84u8],
        Instr::I64Xor => seq![0x85u8],
        Instr::I64Eqz => seq![0x50u8],
        Instr::I64Eq => seq![0x51u8],
        Instr::I64Ne => seq![0x52u8],
        Instr::F32Add => seq![0x92u8],
        Instr::F32Sub => seq![0x93u8],
        Instr::F32Mul => seq![0x94u8],
        Instr::F32Div => seq![0x95u8],
        Instr::F64Add => seq![0xa0u8],
        Instr::F64Sub => seq![0xa1u8],
        Instr::F64Mul => seq![0xa2u8],
        Instr::F64Div => seq![0xa3u8],
        Instr::Block { block_ty } => seq![0x2u8, block_ty],
        Instr::Loop { block_ty } => seq![0x3u8, block_ty],
        Instr::If { block_ty } => seq![0x4u8, block_ty],
        Instr::Br(x) => seq![0xcu8] + uleb32_encode(x),
        Instr::BrIf(x) => seq![0xdu8] + uleb32_encode(x),
        Instr::Call(x) => seq![0x10u8] + uleb32_encode(x),
        Instr::LocalGet(x) => seq![0x20u8] + uleb32_encode(x),
        Instr::LocalSet(x) => seq![0x21u8] + uleb32_encode(x),
        Instr::LocalTee(x) => seq![0x22u8] + uleb32_encode(x),
        Instr::I32Const(n) => seq![0x41u8] + sleb32_encode(n),
        Instr::I64Const(n) => seq![0x42u8] + sleb32_encode(n),
        Instr::F32Const(b) => seq![0x43u8] + le32(b),
        Instr::F64Const(b) => seq![0x44u8] + le64(b),
        Instr::I32Load { offset, align } => seq![0x28u8] + uleb32_encode(align) + uleb32_encode(offset),
        Instr::I32Store { offset, align } => seq![0x36u8] + uleb32_encode(align) + uleb32_encode(offset),
        Instr::I32Load8S { offset, align } => seq![0x2cu8] + uleb32_encode(align) + uleb32_encode(offset),
        Instr::I32Load8U { offset, align } => seq![0x2du8] + uleb32_encode(align) + uleb32_encode(offset),
        Instr::I32Store8 { offset, align } => seq![0x3au8] + uleb32_encode(align) + uleb32_encode(offset),
    }
}

impl WasmEmitter {
    fn write_op_u32(&mut self, op: u8, x: u32)
        ensures
            final(self)@ == old(self)@ + (seq![op] + uleb32_encode(x)),
    {
        self.write_u8(op);
        self.write_leb128_u32(x);
        assert(old(self)@.push(op) + uleb32_encode(x) =~= old(self)@ + (seq![op] + uleb32_encode(x)));
    }

    fn write_op_i32(&mut self, op: u8, x: i32)
        ensures
            final(self)@ == old(self)@ + (seq![op] + sleb32_encode(x)),
    {
        self.write_u8(op);
        self.write_leb128_i32(x);
        assert(old(self)@.push(op) + sleb32_encode(x) =~= old(self)@ + (seq![op] + sleb32_encode(x)));
    }

    fn write_memarg(&mut self, op: u8, align: u32, offset: u32)
        ensures
            final(self)@ == old(self)@ + (seq![op] + uleb32_encode(align) + uleb32_encode(offset)),
    {
        self.write_u8(op);
        self.write_leb128_u32(align);
        self.write_leb128_u32(offset);
        assert(old(self)@.push(op) + uleb32_encode(align) + uleb32_encode(offset) =~= old(self)@ + (
            seq![op] + uleb32_encode(align) + uleb32_encode(offset)));
    }

    /// Append the encoding of one instruction (see `instr_bytes`).
    pub fn emit_instr(&mut self, instr: &Instr)
        ensures
            final(self)@ == old(self)@ + instr_bytes(*instr),
    {
        match *instr {
            Instr::Unreachable => {
                self.write_u8(0x0);
                assert(old(self)@.push(0x0) =~= old(self)@ + seq![0x0u8]);
            },
            Instr::Nop => {
                self.write_u8(0x1);
                assert(old(self)@.push(0x1) =~= old(self)@ + seq![0x1u8]);
            },
            Instr::Return => {
                self.write_u8(0xf);
                assert(old(self)@.push(0xf) =~= old(self)@ + seq![0xfu8]);
            },
            Instr::Drop => {
                self.write_u8(0x1a);
                assert(old(self)@.push(0x1a) =~= old(self)@ + seq![0x1au8]);
            },
            Instr::Select => {
                self.write_u8(0x1b);
                assert(old(self)@.push(0x1b) =~= old(self)@ + seq![0x1bu8]);
            },
            Instr::End => {
                self.write_u8(0xb);
                assert(old(self)@.push(0xb) =~= old(self)@ + seq![0xbu8]);
            },
            Instr::Else => {
                self.write_u8(0x5);
                assert(old(self)@.push(0x5) =~= old(self)@ + seq![0x5u8]);
            },
            Instr::I32Add => {
                self.write_u8(0x6a);
                assert(old(self)@.push(0x6a) =~= old(self)@ + seq![0x6au8]);
            },
            Instr::I32Sub => {
                self.write_u8(0x6b);
                assert(old(self)@.push(0x6b) =~= old(self)@ + seq![0x6bu8]);
            },
            Instr::I32Mul => {
                self.write_u8(0x6c);
                assert(old(self)@.push(0x6c) =~= old(self)@ + seq![0x6cu8]);
            },
            Instr::I32DivS => {
                self.write_u8(0x6d);
                assert(old(self)@.push(0x6d) =~= old(self)@ + seq![0x6du8]);
            },
            Instr::I32DivU => {
                self.write_u8(0x6e);
                assert(old(self)@.push(0x6e) =~= old(self)@ + seq![0x6eu8]);
            },
            Instr::I32RemS => {
                self.write_u8(0x6f);
                assert(old(self)@.push(0x6f) =~= old(self)@ + seq![0x6fu8]);
            },
            Instr::I32RemU => {
                self.write_u8(0x70);
                assert(old(self)@.push(0x70) =~= old(self)@ + seq![0x70u8]);
            },
            Instr::I32And => {
                self.write_u8(0x71);
                assert(old(self)@.push(0x71) =~= old(self)@ + seq![0x71u8]);
            },
            Instr::I32Or => {
                self.write_u8(0x72);
                assert(old(self)@.push(0x72) =~= old(self)@ + seq![0x72u8]);
            },
            Instr::I32Xor => {
                self.write_u8(0x73);
                assert(old(self)@.push(0x73) =~= old(self)@ + seq![0x73u8]);
            },
            Instr::I32Shl => {
                self.write_u8(0x74);
                assert(old(self)@.push(0x74) =~= old(self)@ + seq![0x74u8]);
            },
            Instr::I32ShrS => {
                self.write_u8(0x75);
                assert(old(self)@.push(0x75) =~= old(self)@ + seq![0x75u8]);
            },
            Instr::I32ShrU => {
                self.write_u8(0x76);
                assert(old(self)@.push(0x76) =~= old(self)@ + seq![0x76u8]);
            },
            Instr::I32Eqz => {
                self.write_u8(0x45);
                assert(old(self)@.push(0x45) =~= old(self)@ + seq![0x45u8]);
            },
            Instr::I32Eq => {
                self.write_u8(0x46);
                assert(old(self)@.push(0x46) =~= old(self)@ + seq![0x46u8]);
            },
            Instr::I32Ne => {
                self.write_u8(0x47);
                assert(old(self)@.push(0x47) =~= old(self)@ + seq![0x47u8]);
            },
            Instr::I32LtS => {
                self.write_u8(0x48);
                assert(old(self)@.push(0x48) =~= old(self)@ + seq![0x48u8]);
            },
            Instr::I32LtU => {
                self.write_u8(0x49);
                assert(old(self)@.push(0x49) =~= old(self)@ + seq![0x49u8]);
            },
            Instr::I32GtS => {
                self.write_u8(0x4a);
                assert(old(self)@.push(0x4a) =~= old(self)@ + seq![0x4au8]);
            },
            Instr::I32GtU => {
                self.write_u8(0x4b);
                assert(old(self)@.push(0x4b) =~= old(self)@ + seq![0x4bu8]);
            },
            Instr::I32LeS => {
                self.write_u8(0x4c);
                assert(old(self)@.push(0x4c) =~= old(self)@ + seq![0x4cu8]);
            },
            Instr::I32LeU => {
                self.write_u8(0x4d);
                assert(old(self)@.push(0x4d) =~= old(self)@ + seq![0x4du8]);
            },
            Instr::I32GeS => {
                self.write_u8(0x4e);
                assert(old(self)@.push(0x4e) =~= old(self)@ + seq![0x4eu8]);
            },
            Instr::I32GeU => {
                self.write_u8(0x4f);
                assert(old(self)@.push(0x4f) =~= old(self)@ + seq![0x4fu8]);
            },
            Instr::I64Add => {
                self.write_u8(0x7c);
                assert(old(self)@.push(0x7c) =~= old(self)@ + seq![0x7cu8]);
            },
            Instr::I64Sub => {
                self.write_u8(0x7d);
                assert(old(self)@.push(0x7d) =~= old(self)@ + seq![0x7du8]);
            },
            Instr::I64Mul => {
                self.write_u8(0x7e);
                assert(old(self)@.push(0x7e) =~= old(self)@ + seq![0x7eu8]);
            },
            Instr::I64And => {
                self.write_u8(0x83);
                assert(old(self)@.push(0x83) =~= old(self)@ + seq![0x83u8]);
            },
            Instr::I64Or => {
                self.write_u8(0x84);
                assert(old(self)@.push(0x84) =~= old(self)@ + seq![0x84u8]);
            },
            Instr::I64Xor => {
                self.write_u8(0x85);
                assert(old(self)@.push(0x85) =~= old(self)@ + seq![0x85u8]);
            },
            Instr::I64Eqz => {
                self.write_u8(0x50);
                assert(old(self)@.push(0x50) =~= old(self)@ + seq![0x50u8]);
            },
            Instr::I64Eq => {
                self.write_u8(0x51);
                assert(old(self)@.push(0x51) =~= old(self)@ + seq![0x51u8]);
            },
            Instr::I64Ne => {
                self.write_u8(0x52);
                assert(old(self)@.push(0x52) =~= old(self)@ + seq![0x52u8]);
            },
            Instr::F32Add => {
                self.write_u8(0x92);
                assert(old(self)@.push(0x92) =~= old(self)@ + seq![0x92u8]);
            },
            Instr::F32Sub => {
                self.write_u8(0x93);
                assert(old(self)@.push(0x93) =~= old(self)@ + seq![0x93u8]);
            },
            Instr::F32Mul => {
                self.write_u8(0x94);
                assert(old(self)@.push(0x94) =~= old(self)@ + seq![0x94u8]);
            },
            Instr::F32Div => {
                self.write_u8(0x95);
                assert(old(self)@.push(0x95) =~= old(self)@ + seq![0x95u8]);
            },
            Instr::F64Add => {
                self.write_u8(0xa0);
                assert(old(self)@.push(0xa0) =~= old(self)@ + seq![0xa0u8]);
            },
            Instr::F64Sub => {
                self.write_u8(0xa1);
                assert(old(self)@.push(0xa1) =~= old(self)@ + seq![0xa1u8]);
            },
            Instr::F64Mul => {
                self.write_u8(0xa2);
                assert(old(self)@.push(0xa2) =~= old(self)@ + seq![0xa2u8]);
            },
            Instr::F64Div => {
                self.write_u8(0xa3);
                assert(old(self)@.push(0xa3) =~= old(self)@ + seq![0xa3u8]);
            },
            Instr::Block { block_ty } => {
                self.write_u8(0x2);
                self.write_u8(block_ty);
                assert(old(self)@.push(0x2).push(block_ty) =~= old(self)@ + seq![0x2u8, block_ty]);
            },
            Instr::Loop { block_ty } => {
                self.write_u8(0x3);
                self.write_u8(block_ty);
                assert(old(self)@.push(0x3).push(block_ty) =~= old(self)@ + seq![0x3u8, block_ty]);
            },
            Instr::If { block_ty } => {
                self.write_u8(0x4);
                self.write_u8(block_ty);
                assert(old(self)@.push(0x4).push(block_ty) =~= old(self)@ + seq![0x4u8, block_ty]);
            },
            Instr::Br(x) => self.write_op_u32(0xc, x),
            Instr::BrIf(x) => self.write_op_u32(0xd, x),
            Instr::Call(x) => self.write_op_u32(0x10, x),
            Instr::LocalGet(x) => self.write_op_u32(0x20, x),
            Instr::LocalSet(x) => self.write_op_u32(0x21, x),
            Instr::LocalTee(x) => self.write_op_u32(0x22, x),
            Instr::I32Const(n) => self.write_op_i32(0x41, n),
            Instr::I64Const(n) => self.write_op_i32(0x42, n),
            Instr::F32Const(b) => {
                self.write_u8(0x43);
                self.write_u32_raw(b);
                assert(old(self)@.push(0x43) + le32(b) =~= old(self)@ + (seq![0x43u8] + le32(b)));
            },
            Instr::F64Const(b) => {
                self.write_u8(0x44);
                self.write_u32_raw((b % 0x1_0000_0000) as u32);
                self.write_u32_raw((b / 0x1_0000_0000) as u32);
                assert(old(self)@.push(0x44) + le32((b % 0x1_0000_0000) as u32) + le32((b / 0x1_0000_0000) as u32)
                    =~= old(self)@ + (seq![0x44u8] + le64(b)));
            },
            Instr::I32Load { offset, align } => self.write_memarg(0x28, align, offset),
            Instr::I32Store { offset, align } => self.write_memarg(0x36, align, offset),
            Instr::I32Load8S { offset, align } => self.write_memarg(0x2c, align, offset),
            Instr::I32Load8U { offset, align } => self.write_memarg(0x2d, align, offset),
            Instr::I32Store8 { offset, align } => self.write_memarg(0x3a, align, offset),
        }
    }
}


/// A parsed function.
pub struct FuncDef {
    pub type_idx: u32,
    pub locals: Vec<Local>,
    pub body: Vec<Instr>,
}

/// A complete module.
pub struct Module {
    pub types: Vec<FuncType>,
    pub imports: Vec<Import>,
    pub funcs: Vec<FuncDef>,
    pub memories: Vec<Memory>,
    pub exports: Vec<Export>,
    pub data: Vec<DataSeg>,
}

/// A count or length as the binary format writes it (LEB-128, taken
/// modulo 2^32).
pub open spec fn leb_len(n: nat) -> Seq<u8> {
    uleb32_encode(n as u32)
}

/// A length-prefixed byte vector.
pub open spec fn name_bytes(b: Seq<u8>) -> Seq<u8> {
    leb_len(b.len()) + b
}

/// A section: its id, its content length and the content.
pub open spec fn section(id: u8, content: Seq<u8>) -> Seq<u8> {
    seq![id] + leb_len(content.len()) + content
}

/// The encoding bytes of a list of value types.
pub open spec fn valtypes_bytes(ts: Seq<ValType>) -> Seq<u8> {
    ts.map_values(|t: ValType| valtype_byte(t))
}

/// A function type: 0x60, then the parameter and result types, each
/// preceded by its count.
pub open spec fn functype_bytes(ft: FuncType) -> Seq<u8> {
    seq![0x60u8] + leb_len(ft.params@.len()) + valtypes_bytes(ft.params@) + leb_len(ft.results@.len())
        + valtypes_bytes(ft.results@)
}

pub open spec fn types_bytes(ts: Seq<FuncType>) -> Seq<u8>
    decreases ts.len(),
{
    if ts.len() == 0 { Seq::empty() } else { types_bytes(ts.drop_last()) + functype_bytes(ts.last()) }
}

/// A function import: module and field names, kind 0, type index.
pub open spec fn import_bytes(i: Import) -> Seq<u8> {
    name_bytes(i.module@) + name_bytes(i.name@) + seq![0u8] + uleb32_encode(i.type_idx)
}

pub open spec fn imports_bytes(s: Seq<Import>) -> Seq<u8>
    decreases s.len(),
{
    if s.len() == 0 { Seq::empty() } else { imports_bytes(s.drop_last()) + import_bytes(s.last()) }
}

pub open spec fn func_types_bytes(s: Seq<FuncDef>) -> Seq<u8>
    decreases s.len(),
{
    if s.len() == 0 { Seq::empty() } else { func_types_bytes(s.drop_last()) + uleb32_encode(s.last().type_idx) }
}

/// A memory: flag 1 with minimum and maximum, or flag 0 with the minimum.
pub open spec fn memory_bytes(m: Memory) -> Seq<u8> {
    match m.max {
        Some(x) => seq![1u8] + uleb32_encode(m.min) + uleb32_encode(x),
        None => seq![0u8] + uleb32_encode(m.min),
    }
}

pub open spec fn memories_bytes(s: Seq<Memory>) -> Seq<u8>
    decreases s.len(),
{
    if s.len() == 0 { Seq::empty() } else { memories_bytes(s.drop_last()) + memory_bytes(s.last()) }
}

/// An export: name, kind, index.
pub open spec fn export_bytes(e: Export) -> Seq<u8> {
    name_bytes(e.name@) + seq![e.kind] + uleb32_encode(e.index)
}

pub open spec fn exports_bytes(s: Seq<Export>) -> Seq<u8>
    decreases s.len(),
{
    if s.len() == 0 { Seq::empty() } else { exports_bytes(s.drop_last()) + export_bytes(s.last()) }
}

/// Local declarations: each run as its count and type byte.
pub open spec fn groups_bytes(g: Seq<(u32, ValType)>) -> Seq<u8>
    decreases g.len(),
{
    if g.len() == 0 { Seq::empty() } else { groups_bytes(g.drop_last()) + uleb32_encode(g.last().0) + seq![
        valtype_byte(g.last().1)] }
}

pub open spec fn instrs_bytes(s: Seq<Instr>) -> Seq<u8>
    decreases s.len(),
{
    if s.len() == 0 { Seq::empty() } else { instrs_bytes(s.drop_last()) + instr_bytes(s.last()) }
}

/// A function body: the local declarations, the instructions, `end`.
pub open spec fn body_bytes(f: FuncDef) -> Seq<u8> {
    leb_len(local_groups(f.locals@).len()) + groups_bytes(local_groups(f.locals@)) + instrs_bytes(f.body@)
        + seq![0x0Bu8]
}

pub open spec fn code_bytes(s: Seq<FuncDef>) -> Seq<u8>
    decreases s.len(),
{
    if s.len() == 0 { Seq::empty() } else { code_bytes(s.drop_last()) + name_bytes(body_bytes(s.last())) }
}

/// An active data segment for memory 0: its offset as `i32.const`, then
/// the bytes.
pub open spec fn data_seg_bytes(d: DataSeg) -> Seq<u8> {
    seq![0u8, 0x41u8] + sleb32_encode(d.offset) + seq![0x0Bu8] + name_bytes(d.bytes@)
}

pub open spec fn data_bytes(s: Seq<DataSeg>) -> Seq<u8>
    decreases s.len(),
{
    if s.len() == 0 { Seq::empty() } else { data_bytes(s.drop_last()) + data_seg_bytes(s.last()) }
}

/// A section holding a counted vector, or nothing when the vector is
/// empty.
pub open spec fn opt_section(id: u8, n: nat, items: Seq<u8>) -> Seq<u8> {
    if n == 0 { Seq::empty() } else { section(id, leb_len(n) + items) }
}

/// The binary of a module: magic and version, then the type, import,
/// function, memory, export, data-count (when there are data segments and
/// a memory), code and data sections, each only when it has entries.
pub open spec fn module_bytes(m: Module) -> Seq<u8> {
    seq![0u8, 0x61, 0x73, 0x6D, 1, 0, 0, 0] + opt_section(1, m.types@.len(), types_bytes(m.types@))
        + opt_section(2, m.imports@.len(), imports_bytes(m.imports@)) + opt_section(3, m.funcs@.len(),
        func_types_bytes(m.funcs@)) + opt_section(5, m.memories@.len(), memories_bytes(m.memories@))
        + opt_section(7, m.exports@.len(), exports_bytes(m.exports@)) + (if m.data@.len() > 0
        && m.memories@.len() > 0 { section(12, leb_len(m.data@.len())) } else { Seq::empty() })
        + opt_section(10, m.funcs@.len(), code_bytes(m.funcs@)) + opt_section(11, m.data@.len(),
        data_bytes(m.data@))
}


/// Appending nine parts one after the other appends their concatenation.
proof fn lemma_concat_parts(o: Seq<u8>, p0: Seq<u8>, p1: Seq<u8>, p2: Seq<u8>, p3: Seq<u8>, p4: Seq<u8>, p5: Seq<u8>, p6: Seq<u8>, p7: Seq<u8>, p8: Seq<u8>)
    ensures
        o + p0 + p1 + p2 + p3 + p4 + p5 + p6 + p7 + p8 == o + (p0 + p1 + p2 + p3 + p4 + p5 + p6 + p7 + p8),
{
    assert(o + p0 + p1 + p2 + p3 + p4 + p5 + p6 + p7 + p8 =~= o + (p0 + p1 + p2 + p3 + p4 + p5 + p6 + p7
        + p8));
}

impl WasmEmitter {
    /// Append raw bytes.
    fn extend(&mut self, bytes: &[u8])
        ensures
            final(self)@ == old(self)@ + bytes@,
    {
        let ghost mid = self.buf@;
        let mut i: usize = 0;
        while i < bytes.len()
            invariant
                i <= bytes@.len(),
                self.buf@ == mid + bytes@.take(i as int),
            decreases bytes.len() - i,
        {
            self.buf.push(bytes[i]);
            i = i + 1;
            proof {
                assert(mid + bytes@.take(i as int) =~= (mid + bytes@.take(i - 1)).push(bytes@[i - 1]));
            }
        }
        assert(bytes@.take(bytes@.len() as int) =~= bytes@);
    }

    /// Append a section with content `inner`.
    fn emit_section(&mut self, id: u8, inner: WasmEmitter)
        ensures
            final(self)@ == old(self)@ + section(id, inner@),
    {
        self.write_u8(id);
        self.write_leb128_u32(inner.buf.len() as u32);
        self.extend(inner.buf.as_slice());
        assert(old(self)@.push(id) + leb_len(inner@.len()) + inner@ =~= old(self)@ + section(id, inner@));
    }

    fn write_valtypes(&mut self, ts: &Vec<ValType>)
        ensures
            final(self)@ == old(self)@ + valtypes_bytes(ts@),
    {
        let mut i: usize = 0;
        assert(valtypes_bytes(ts@.take(0)) =~= Seq::<u8>::empty());
        assert(old(self)@ + valtypes_bytes(ts@.take(0)) =~= old(self)@);
        while i < ts.len()
            invariant
                i <= ts@.len(),
                self@ == old(self)@ + valtypes_bytes(ts@.take(i as int)),
            decreases ts@.len() - i,
        {
            self.write_u8(ts[i].byte());
            proof {
                assert(valtypes_bytes(ts@.take(i + 1)) =~= valtypes_bytes(ts@.take(i as int)).push(
                    valtype_byte(ts@[i as int])));
                assert(self@ =~= old(self)@ + valtypes_bytes(ts@.take(i + 1)));
            }
            i = i + 1;
        }
        assert(ts@.take(ts@.len() as int) =~= ts@);
    }

    fn write_functype(&mut self, ft: &FuncType)
        ensures
            final(self)@ == old(self)@ + functype_bytes(*ft),
    {
        self.write_u8(0x60);
        self.write_leb128_u32(ft.params.len() as u32);
        self.write_valtypes(&ft.params);
        self.write_leb128_u32(ft.results.len() as u32);
        self.write_valtypes(&ft.results);
        assert(self@ =~= old(self)@ + functype_bytes(*ft));
    }

    fn write_import(&mut self, imp: &Import)
        ensures
            final(self)@ == old(self)@ + import_bytes(*imp),
    {
        self.write_bytes(imp.module.as_slice());
        self.write_bytes(imp.name.as_slice());
        self.write_u8(0x00);
        self.write_leb128_u32(imp.type_idx);
        assert(self@ =~= old(self)@ + import_bytes(*imp));
    }

    fn write_memory(&mut self, mem: &Memory)
        ensures
            final(self)@ == old(self)@ + memory_bytes(*mem),
    {
        if let Some(max) = mem.max {
            self.write_u8(0x01);
            self.write_leb128_u32(mem.min);
            self.write_leb128_u32(max);
        } else {
            self.write_u8(0x00);
            self.write_leb128_u32(mem.min);
        }
        assert(self@ =~= old(self)@ + memory_bytes(*mem));
    }

    fn write_export(&mut self, exp: &Export)
        ensures
            final(self)@ == old(self)@ + export_bytes(*exp),
    {
        self.write_bytes(exp.name.as_slice());
        self.write_u8(exp.kind);
        self.write_leb128_u32(exp.index);
        assert(self@ =~= old(self)@ + export_bytes(*exp));
    }

    fn write_data_seg(&mut self, seg: &DataSeg)
        ensures
            final(self)@ == old(self)@ + data_seg_bytes(*seg),
    {
        self.write_u8(0x00);
        self.write_u8(0x41);
        self.write_leb128_i32(seg.offset);
        self.write_u8(0x0B);
        self.write_bytes(seg.bytes.as_slice());
        assert(self@ =~= old(self)@ + data_seg_bytes(*seg));
    }

    fn write_body(&mut self, func: &FuncDef)
        requires
            func.locals@.len() <= u32::MAX,
        ensures
            final(self)@ == old(self)@ + name_bytes(body_bytes(*func)),
    {
        let mut body = WasmEmitter::new();
        let groups = compress_locals(func.locals.as_slice());
        body.write_leb128_u32(groups.len() as u32);
        let mut g: usize = 0;
        let ghost h0 = body@;
        assert(groups@.take(0) =~= Seq::<(u32, ValType)>::empty());
        assert(h0 + groups_bytes(groups@.take(0)) =~= h0);
        while g < groups.len()
            invariant
                g <= groups@.len(),
                body@ == h0 + groups_bytes(groups@.take(g as int)),
            decreases groups@.len() - g,
        {
            let (count, ty) = groups[g];
            body.write_leb128_u32(count);
            body.write_u8(ty.byte());
            proof {
                assert(groups@.take(g + 1).drop_last() =~= groups@.take(g as int));
                assert(body@ =~= h0 + groups_bytes(groups@.take(g + 1)));
            }
            g = g + 1;
        }
        assert(groups@.take(groups@.len() as int) =~= groups@);
        let ghost h1 = body@;
        let mut k: usize = 0;
        assert(func.body@.take(0) =~= Seq::<Instr>::empty());
        assert(h1 + instrs_bytes(func.body@.take(0)) =~= h1);
        while k < func.body.len()
            invariant
                k <= func.body@.len(),
                body@ == h1 + instrs_bytes(func.body@.take(k as int)),
            decreases func.body@.len() - k,
        {
            body.emit_instr(&func.body[k]);
            proof {
                assert(func.body@.take(k + 1).drop_last() =~= func.body@.take(k as int));
                assert(body@ =~= h1 + instrs_bytes(func.body@.take(k + 1)));
            }
            k = k + 1;
        }
        assert(func.body@.take(func.body@.len() as int) =~= func.body@);
        body.write_u8(0x0B);
        assert(body@ =~= body_bytes(*func));
        self.write_leb128_u32(body.buf.len() as u32);
        self.extend(body.buf.as_slice());
        assert(self@ =~= old(self)@ + name_bytes(body_bytes(*func)));
    }

    /// Section 1: the function types.
    fn emit_type_section(&mut self, module: &Module)
        ensures
            final(self)@ == old(self)@ + section(0x01, leb_len(module.types@.len()) + types_bytes(module.types@)),
    {
        let mut s = WasmEmitter::new();
        s.write_leb128_u32(module.types.len() as u32);
        let ghost head = s@;
        let mut i: usize = 0;
        assert(module.types@.take(0) =~= Seq::<_>::empty());
        assert(head + types_bytes(module.types@.take(0)) =~= head);
        while i < module.types.len()
            invariant
                i <= module.types@.len(),
                head == leb_len(module.types@.len()),
                s@ == head + types_bytes(module.types@.take(i as int)),
            decreases module.types@.len() - i,
        {
            let ghost before = s@;
            s.write_functype(&module.types[i]);
            proof {
                assert(module.types@.take(i + 1).drop_last() =~= module.types@.take(i as int));
                assert(s@ =~= head + types_bytes(module.types@.take(i + 1)));
            }
            i = i + 1;
        }
        assert(module.types@.take(module.types@.len() as int) =~= module.types@);
        self.emit_section(0x01, s);
    }

    /// Section 2: the imports.
    fn emit_import_section(&mut self, module: &Module)
        ensures
            final(self)@ == old(self)@ + section(0x02, leb_len(module.imports@.len()) + imports_bytes(module.imports@)),
    {
        let mut s = WasmEmitter::new();
        s.write_leb128_u32(module.imports.len() as u32);
        let ghost head = s@;
        let mut i: usize = 0;
        assert(module.imports@.take(0) =~= Seq::<_>::empty());
        assert(head + imports_bytes(module.imports@.take(0)) =~= head);
        while i < module.imports.len()
            invariant
                i <= module.imports@.len(),
                head == leb_len(module.imports@.len()),
                s@ == head + imports_bytes(module.imports@.take(i as int)),
            decreases module.imports@.len() - i,
        {
            s.write_import(&module.imports[i]);
            proof {
                assert(module.imports@.take(i + 1).drop_last() =~= module.imports@.take(i as int));
                assert(s@ =~= head + imports_bytes(module.imports@.take(i + 1)));
            }
            i = i + 1;
        }
        assert(module.imports@.take(module.imports@.len() as int) =~= module.imports@);
        self.emit_section(0x02, s);
    }

    /// Section 3: the type index of each local function.
    fn emit_function_section(&mut self, module: &Module)
        ensures
            final(self)@ == old(self)@ + section(0x03, leb_len(module.funcs@.len()) + func_types_bytes(module.funcs@)),
    {
        let mut s = WasmEmitter::new();
        s.write_leb128_u32(module.funcs.len() as u32);
        let ghost head = s@;
        let mut i: usize = 0;
        assert(module.funcs@.take(0) =~= Seq::<_>::empty());
        assert(head + func_types_bytes(module.funcs@.take(0)) =~= head);
        while i < module.funcs.len()
            invariant
                i <= module.funcs@.len(),
                head == leb_len(module.funcs@.len()),
                s@ == head + func_types_bytes(module.funcs@.take(i as int)),
            decreases module.funcs@.len() - i,
        {
            s.write_leb128_u32(module.funcs[i].type_idx);
            proof {
                assert(module.funcs@.take(i + 1).drop_last() =~= module.funcs@.take(i as int));
                assert(s@ =~= head + func_types_bytes(module.funcs@.take(i + 1)));
            }
            i = i + 1;
        }
        assert(module.funcs@.take(module.funcs@.len() as int) =~= module.funcs@);
        self.emit_section(0x03, s);
    }

    /// Section 5: the memories.
    fn emit_memory_section(&mut self, module: &Module)
        ensures
            final(self)@ == old(self)@ + section(0x05, leb_len(module.memories@.len()) + memories_bytes(module.memories@)),
    {
        let mut s = WasmEmitter::new();
        s.write_leb128_u32(module.memories.len() as u32);
        let ghost head = s@;
        let mut i: usize = 0;
        assert(module.memories@.take(0) =~= Seq::<_>::empty());
        assert(head + memories_bytes(module.memories@.take(0)) =~= head);
        while i < module.memories.len()
            invariant
                i <= module.memories@.len(),
                head == leb_len(module.memories@.len()),
                s@ == head + memories_bytes(module.memories@.take(i as int)),
            decreases module.memories@.len() - i,
        {
            s.write_memory(&module.memories[i]);
            proof {
                assert(module.memories@.take(i + 1).drop_last() =~= module.memories@.take(i as int));
                assert(s@ =~= head + memories_bytes(module.memories@.take(i + 1)));
            }
            i = i + 1;
        }
        assert(module.memories@.take(module.memories@.len() as int) =~= module.memories@);
        self.emit_section(0x05, s);
    }

    /// Section 7: the exports.
    fn emit_export_section(&mut self, module: &Module)
        ensures
            final(self)@ == old(self)@ + section(0x07, leb_len(module.exports@.len()) + exports_bytes(module.exports@)),
    {
        let mut s = WasmEmitter::new();
        s.write_leb128_u32(module.exports.len() as u32);
        let ghost head = s@;
        let mut i: usize = 0;
        assert(module.exports@.take(0) =~= Seq::<_>::empty());
        assert(head + exports_bytes(module.exports@.take(0)) =~= head);
        while i < module.exports.len()
            invariant
                i <= module.exports@.len(),
                head == leb_len(module.exports@.len()),
                s@ == head + exports_bytes(module.exports@.take(i as int)),
            decreases module.exports@.len() - i,
        {
            s.write_export(&module.exports[i]);
            proof {
                assert(module.exports@.take(i + 1).drop_last() =~= module.exports@.take(i as int));
                assert(s@ =~= head + exports_bytes(module.exports@.take(i + 1)));
            }
            i = i + 1;
        }
        assert(module.exports@.take(module.exports@.len() as int) =~= module.exports@);
        self.emit_section(0x07, s);
    }

    /// Section 10: the function bodies.
    fn emit_code_section(&mut self, module: &Module)
        requires
            forall|k: int| 0 <= k < module.funcs@.len() ==> (#[trigger] module.funcs@[k]).locals@.len() <= u32::MAX,
        ensures
            final(self)@ == old(self)@ + section(0x0A, leb_len(module.funcs@.len()) + code_bytes(module.funcs@)),
    {
        let mut s = WasmEmitter::new();
        s.write_leb128_u32(module.funcs.len() as u32);
        let ghost head = s@;
        let mut i: usize = 0;
        assert(module.funcs@.take(0) =~= Seq::<_>::empty());
        assert(head + code_bytes(module.funcs@.take(0)) =~= head);
        while i < module.funcs.len()
            invariant
                i <= module.funcs@.len(),
                head == leb_len(module.funcs@.len()),
                s@ == head + code_bytes(module.funcs@.take(i as int)),
                forall|k: int| 0 <= k < module.funcs@.len() ==> (#[trigger] module.funcs@[k]).locals@.len() <= u32::MAX,
            decreases module.funcs@.len() - i,
        {
            s.write_body(&module.funcs[i]);
            proof {
                assert(module.funcs@.take(i + 1).drop_last() =~= module.funcs@.take(i as int));
                assert(s@ =~= head + code_bytes(module.funcs@.take(i + 1)));
            }
            i = i + 1;
        }
        assert(module.funcs@.take(module.funcs@.len() as int) =~= module.funcs@);
        self.emit_section(0x0A, s);
    }

    /// Section 11: the data segments.
    fn emit_data_section(&mut self, module: &Module)
        ensures
            final(self)@ == old(self)@ + section(0x0B, leb_len(module.data@.len()) + data_bytes(module.data@)),
    {
        let mut s = WasmEmitter::new();
        s.write_leb128_u32(module.data.len() as u32);
        let ghost head = s@;
        let mut i: usize = 0;
        assert(module.data@.take(0) =~= Seq::<_>::empty());
        assert(head + data_bytes(module.data@.take(0)) =~= head);
        while i < module.data.len()
            invariant
                i <= module.data@.len(),
                head == leb_len(module.data@.len()),
                s@ == head + data_bytes(module.data@.take(i as int)),
            decreases module.data@.len() - i,
        {
            s.write_data_seg(&module.data[i]);
            proof {
                assert(module.data@.take(i + 1).drop_last() =~= module.data@.take(i as int));
                assert(s@ =~= head + data_bytes(module.data@.take(i + 1)));
            }
            i = i + 1;
        }
        assert(module.data@.take(module.data@.len() as int) =~= module.data@);
        self.emit_section(0x0B, s);
    }

    /// Section 12: the data count.
    fn emit_data_count_section(&mut self, module: &Module)
        ensures
            final(self)@ == old(self)@ + section(0x0C, leb_len(module.data@.len())),
    {
        let mut s = WasmEmitter::new();
        s.write_leb128_u32(module.data.len() as u32);
        self.emit_section(0x0C, s);
    }

    /// Append the binary of a whole module (see `module_bytes`).
    pub fn emit_module(&mut self, module: &Module)
        requires
            forall|k: int| 0 <= k < module.funcs@.len() ==> (#[trigger] module.funcs@[k]).locals@.len() <= u32::MAX,
        ensures
            final(self)@ == old(self)@ + module_bytes(*module),
    {
        let head = [0x00u8, 0x61, 0x73, 0x6D, 0x01, 0x00, 0x00, 0x00];
        self.extend(head.as_slice());
        let ghost s0 = self@;
        let ghost a = opt_section(1, module.types@.len(), types_bytes(module.types@));
        let ghost b = opt_section(2, module.imports@.len(), imports_bytes(module.imports@));
        let ghost c = opt_section(3, module.funcs@.len(), func_types_bytes(module.funcs@));
        let ghost d = opt_section(5, module.memories@.len(), memories_bytes(module.memories@));
        let ghost e = opt_section(7, module.exports@.len(), exports_bytes(module.exports@));
        let ghost f = if module.data@.len() > 0 && module.memories@.len() > 0 {
            section(12, leb_len(module.data@.len()))
        } else {
            Seq::<u8>::empty()
        };
        let ghost g = opt_section(10, module.funcs@.len(), code_bytes(module.funcs@));
        let ghost h = opt_section(11, module.data@.len(), data_bytes(module.data@));
        if !module.types.is_empty() {
            self.emit_type_section(module);
        } else {
            assert(self@ + a =~= self@);
        }
        let ghost s1 = self@;
        if !module.imports.is_empty() {
            self.emit_import_section(module);
        } else {
            assert(self@ + b =~= self@);
        }
        let ghost s2 = self@;
        if !module.funcs.is_empty() {
            self.emit_function_section(module);
        } else {
            assert(self@ + c =~= self@);
        }
        let ghost s3 = self@;
        if !module.memories.is_empty() {
            self.emit_memory_section(module);
        } else {
            assert(self@ + d =~= self@);
        }
        let ghost s4 = self@;
        if !module.exports.is_empty() {
            self.emit_export_section(module);
        } else {
            assert(self@ + e =~= self@);
        }
        let ghost s5 = self@;
        if !module.data.is_empty() && !module.memories.is_empty() {
            self.emit_data_count_section(module);
        } else {
            assert(self@ + f =~= self@);
        }
        let ghost s6 = self@;
        if !module.funcs.is_empty() {
            self.emit_code_section(module);
        } else {
            assert(self@ + g =~= self@);
        }
        let ghost s7 = self@;
        if !module.data.is_empty() {
            self.emit_data_section(module);
        } else {
            assert(self@ + h =~= self@);
        }
        proof {
            assert(s0 == old(self)@ + head@);
            assert(s1 == s0 + a);
            assert(s2 == s1 + b);
            assert(s3 == s2 + c);
            assert(s4 == s3 + d);
            assert(s5 == s4 + e);
            assert(s6 == s5 + f);
            assert(s7 == s6 + g);
            assert(self@ == s7 + h);
            lemma_concat_parts(old(self)@, head@, a, b, c, d, e, f, g, h);
            assert(head@ =~= seq![0u8, 0x61, 0x73, 0x6D, 1, 0, 0, 0]);
        }
    }
}


/// What the interpreter does with two operands under the opcode the
/// assembler writes for `i`.
pub open spec fn run_emitted(i: Instr, a: i64, b: i64) -> Result<i64, InterpError> {
    binop(instr_bytes(i)[0], a, b)
}

/// The integer comparisons the assembler encodes are, run by the
/// interpreter under the opcode written, those comparisons: signed ones
/// compare the low 32 bits as signed, unsigned ones as unsigned, and the
/// result is 1 or 0; `eqz` tests for zero.
pub proof fn lemma_emitted_comparisons(a: i64, b: i64)
    ensures
        run_emitted(Instr::I32Eq, a, b) == Ok::<i64, InterpError>(if (a as i32) == (b as i32) { 1 } else { 0 }),
        run_emitted(Instr::I32Ne, a, b) == Ok::<i64, InterpError>(if (a as i32) != (b as i32) { 1 } else { 0 }),
        run_emitted(Instr::I32LtS, a, b) == Ok::<i64, InterpError>(if (a as i32) < (b as i32) { 1 } else { 0 }),
        run_emitted(Instr::I32LtU, a, b) == Ok::<i64, InterpError>(if (a as u32) < (b as u32) { 1 } else { 0 }),
        run_emitted(Instr::I32GtS, a, b) == Ok::<i64, InterpError>(if (a as i32) > (b as i32) { 1 } else { 0 }),
        run_emitted(Instr::I32GtU, a, b) == Ok::<i64, InterpError>(if (a as u32) > (b as u32) { 1 } else { 0 }),
        run_emitted(Instr::I32LeS, a, b) == Ok::<i64, InterpError>(if (a as i32) <= (b as i32) { 1 } else { 0 }),
        run_emitted(Instr::I32LeU, a, b) == Ok::<i64, InterpError>(if (a as u32) <= (b as u32) { 1 } else { 0 }),
        run_emitted(Instr::I32GeS, a, b) == Ok::<i64, InterpError>(if (a as i32) >= (b as i32) { 1 } else { 0 }),
        run_emitted(Instr::I32GeU, a, b) == Ok::<i64, InterpError>(if (a as u32) >= (b as u32) { 1 } else { 0 }),
        run_emitted(Instr::I64Eq, a, b) == Ok::<i64, InterpError>(if a == b { 1 } else { 0 }),
        run_emitted(Instr::I64Ne, a, b) == Ok::<i64, InterpError>(if a != b { 1 } else { 0 }),
        unop(instr_bytes(Instr::I32Eqz)[0], a) == (if (a as i32) == 0 { 1i64 } else { 0 }),
        unop(instr_bytes(Instr::I64Eqz)[0], a) == (if a == 0 { 1i64 } else { 0 }),
{
}

/// The integer sums, differences and products the assembler encodes are,
/// run by the interpreter under the opcode written, those operations: they
/// agree with the exact ones modulo 2^32 (2^64 for the 64-bit ones), and
/// the 32-bit ones stay in the 32-bit range.
pub proof fn lemma_emitted_ring(a: i64, b: i64)
    ensures
        ({
            let x = a as i32;
            let y = b as i32;
            let r32 = 0x1_0000_0000int;
            let r64 = 0x1_0000_0000_0000_0000int;
            &&& run_emitted(Instr::I32Add, a, b) is Ok
            &&& i32::MIN <= run_emitted(Instr::I32Add, a, b).unwrap() <= i32::MAX
            &&& (run_emitted(Instr::I32Add, a, b).unwrap() - (x + y)) % r32 == 0
            &&& run_emitted(Instr::I32Sub, a, b) is Ok
            &&& i32::MIN <= run_emitted(Instr::I32Sub, a, b).unwrap() <= i32::MAX
            &&& (run_emitted(Instr::I32Sub, a, b).unwrap() - (x - y)) % r32 == 0
            &&& run_emitted(Instr::I32Mul, a, b) is Ok
            &&& i32::MIN <= run_emitted(Instr::I32Mul, a, b).unwrap() <= i32::MAX
            &&& (run_emitted(Instr::I32Mul, a, b).unwrap() - (x * y)) % r32 == 0
            &&& run_emitted(Instr::I64Add, a, b) is Ok
            &&& (run_emitted(Instr::I64Add, a, b).unwrap() - (a + b)) % r64 == 0
            &&& run_emitted(Instr::I64Sub, a, b) is Ok
            &&& (run_emitted(Instr::I64Sub, a, b).unwrap() - (a - b)) % r64 == 0
            &&& run_emitted(Instr::I64Mul, a, b) is Ok
            &&& (run_emitted(Instr::I64Mul, a, b).unwrap() - (a * b)) % r64 == 0
        }),
{
    let x = a as i32;
    let y = b as i32;
    lemma_crop_congruent(x * y, 0x1_0000_0000int);
    lemma_crop_congruent(a * b, 0x1_0000_0000_0000_0000int);
}

/// The bitwise operations the assembler encodes combine the bits of the
/// operands (their low 32 bits for the 32-bit ones), run by the interpreter
/// under the opcode written.
pub proof fn lemma_emitted_bitwise(a: i64, b: i64)
    ensures
        run_emitted(Instr::I32And, a, b) == Ok::<i64, InterpError>(((a as i32) & (b as i32)) as i64),
        run_emitted(Instr::I32Or, a, b) == Ok::<i64, InterpError>(((a as i32) | (b as i32)) as i64),
        run_emitted(Instr::I32Xor, a, b) == Ok::<i64, InterpError>(((a as i32) ^ (b as i32)) as i64),
        run_emitted(Instr::I64And, a, b) == Ok::<i64, InterpError>(a & b),
        run_emitted(Instr::I64Or, a, b) == Ok::<i64, InterpError>(a | b),
        run_emitted(Instr::I64Xor, a, b) == Ok::<i64, InterpError>(a ^ b),
{
}

/// The divisions the assembler encodes, run by the interpreter under the
/// opcode written: the unsigned quotient and remainder are those of the low
/// 32 bits read unsigned; the signed quotient rounds toward zero, with the
/// remainder making up the difference and taking the sign of the dividend;
/// a zero divisor fails.
pub proof fn lemma_emitted_division(a: i64, b: i64)
    ensures
        ({
            let x = a as i32;
            let y = b as i32;
            let ux = a as u32;
            let uy = b as u32;
            &&& uy == 0 ==> run_emitted(Instr::I32DivU, a, b) == Err::<i64, InterpError>(InterpError::DivisionByZero)
            &&& uy == 0 ==> run_emitted(Instr::I32RemU, a, b) == Err::<i64, InterpError>(InterpError::DivisionByZero)
            &&& uy != 0 ==> run_emitted(Instr::I32DivU, a, b) == Ok::<i64, InterpError>((ux / uy) as i64)
            &&& uy != 0 ==> run_emitted(Instr::I32RemU, a, b) == Ok::<i64, InterpError>((ux % uy) as i64)
            &&& y == 0 ==> run_emitted(Instr::I32DivS, a, b) == Err::<i64, InterpError>(InterpError::DivisionByZero)
            &&& y == 0 ==> run_emitted(Instr::I32RemS, a, b) == Err::<i64, InterpError>(InterpError::DivisionByZero)
            &&& y != 0 && !(x == i32::MIN && y == -1) ==> {
                let q = run_emitted(Instr::I32DivS, a, b).unwrap();
                let m = run_emitted(Instr::I32RemS, a, b).unwrap();
                &&& run_emitted(Instr::I32DivS, a, b) is Ok
                &&& run_emitted(Instr::I32RemS, a, b) is Ok
                &&& q * y + m == x
                &&& (if m < 0 { -(m as int) } else { m as int }) < (if y < 0 { -(y as int) } else { y as int })
                &&& (m == 0 || ((m < 0) == (x < 0)))
            }
        }),
{
    let x = a as i32;
    let y = b as i32;
    if y != 0 && !(x == i32::MIN && y == -1) {
        lemma_trunc_div(x as int, y as int);
        let q = run_emitted(Instr::I32DivS, a, b).unwrap();
        let m = run_emitted(Instr::I32RemS, a, b).unwrap();
        assert(q * y + m == x);
        assert((if m < 0 { -(m as int) } else { m as int }) < (if y < 0 { -(y as int) } else { y as int }));
        assert(m == 0 || ((m < 0) == (x < 0)));
    }
}

/// The right shifts the assembler encodes, run by the interpreter under the
/// opcode written: `i32.shr_u` divides the low 32 bits, read unsigned, by 2
/// to the count modulo 32; `i32.shr_s` agrees with it on operands whose low
/// 32 bits are not negative and keeps negative ones negative.
pub proof fn lemma_emitted_shifts(a: i64, b: i64)
    ensures
        run_emitted(Instr::I32ShrU, a, b) == Ok::<i64, InterpError>((((a as u32) as nat) / pow2(((b as u32) as nat) % 32)) as i64),
        (a as i32) >= 0 ==> run_emitted(Instr::I32ShrS, a, b) == run_emitted(Instr::I32ShrU, a, b),
        (a as i32) < 0 ==> run_emitted(Instr::I32ShrS, a, b).unwrap() < 0,
{
    lemma_shr_divides(a, b);
}

/// Cropping a product to a signed width keeps it congruent modulo 2^width.
proof fn lemma_crop_congruent(p: int, r: int)
    requires
        r > 0,
    ensures
        ((p % r) - p) % r == 0,
        ((p % r) - r - p) % r == 0,
{
    vstd::arithmetic::div_mod::lemma_fundamental_div_mod(p, r);
    vstd::arithmetic::div_mod::lemma_mod_multiples_basic(-(p / r), r);
    vstd::arithmetic::div_mod::lemma_mod_multiples_basic(-(p / r) - 1, r);
    assert((p % r) - p == -(p / r) * r) by (nonlinear_arith)
        requires
            p == r * (p / r) + p % r,
    ;
    assert((p % r) - r - p == (-(p / r) - 1) * r) by (nonlinear_arith)
        requires
            p == r * (p / r) + p % r,
    ;
}


/// An instruction with its immediates (indices, constants, memory
/// arguments, block types) set to zero: what its opcode alone says.
pub open spec fn blank(i: Instr) -> Instr {
    match i {
        Instr::Block { .. } => Instr::Block { block_ty: 0 },
        Instr::Loop { .. } => Instr::Loop { block_ty: 0 },
        Instr::If { .. } => Instr::If { block_ty: 0 },
        Instr::Br(_) => Instr::Br(0),
        Instr::BrIf(_) => Instr::BrIf(0),
        Instr::Call(_) => Instr::Call(0),
        Instr::LocalGet(_) => Instr::LocalGet(0),
        Instr::LocalSet(_) => Instr::LocalSet(0),
        Instr::LocalTee(_) => Instr::LocalTee(0),
        Instr::I32Const(_) => Instr::I32Const(0),
        Instr::I64Const(_) => Instr::I64Const(0),
        Instr::F32Const(_) => Instr::F32Const(0),
        Instr::F64Const(_) => Instr::F64Const(0),
        Instr::I32Load { .. } => Instr::I32Load { offset: 0, align: 0 },
        Instr::I32Store { .. } => Instr::I32Store { offset: 0, align: 0 },
        Instr::I32Load8S { .. } => Instr::I32Load8S { offset: 0, align: 0 },
        Instr::I32Load8U { .. } => Instr::I32Load8U { offset: 0, align: 0 },
        Instr::I32Store8 { .. } => Instr::I32Store8 { offset: 0, align: 0 },
        _ => i,
    }
}

/// The instruction an opcode byte stands for in the WebAssembly binary
/// format, its immediates set to zero.
spec fn opcode_instr(op: u8) -> Option<Instr> {
    match op {
        0x0u8 => Some(Instr::Unreachable),
        0x1u8 => Some(Instr::Nop),
        0xfu8 => Some(Instr::Return),
        0x1au8 => Some(Instr::Drop),
        0x1bu8 => Some(Instr::Select),
        0xbu8 => Some(Instr::End),
        0x5u8 => Some(Instr::Else),
        0x6au8 => Some(Instr::I32Add),
        0x6bu8 => Some(Instr::I32Sub),
        0x6cu8 => Some(Instr::I32Mul),
        0x6du8 => Some(Instr::I32DivS),
        0x6eu8 => Some(Instr::I32DivU),
        0x6fu8 => Some(Instr::I32RemS),
        0x70u8 => Some(Instr::I32RemU),
        0x71u8 => Some(Instr::I32And),
        0x72u8 => Some(Instr::I32Or),
        0x73u8 => Some(Instr::I32Xor),
        0x74u8 => Some(Instr::I32Shl),
        0x75u8 => Some(Instr::I32ShrS),
        0x76u8 => Some(Instr::I32ShrU),
        0x45u8 => Some(Instr::I32Eqz),
        0x46u8 => Some(Instr::I32Eq),
        0x47u8 => Some(Instr::I32Ne),
        0x48u8 => Some(Instr::I32LtS),
        0x49u8 => Some(Instr::I32LtU),
        0x4au8 => Some(Instr::I32GtS),
        0x4bu8 => Some(Instr::I32GtU),
        0x4cu8 => Some(Instr::I32LeS),
        0x4du8 => Some(Instr::I32LeU),
        0x4eu8 => Some(Instr::I32GeS),
        0x4fu8 => Some(Instr::I32GeU),
        0x7cu8 => Some(Instr::I64Add),
        0x7du8 => Some(Instr::I64Sub),
        0x7eu8 => Some(Instr::I64Mul),
        0x83u8 => Some(Instr::I64And),
        0x84u8 => Some(Instr::I64Or),
        0x85u8 => Some(Instr::I64Xor),
        0x50u8 => Some(Instr::I64Eqz),
        0x51u8 => Some(Instr::I64Eq),
        0x52u8 => Some(Instr::I64Ne),
        0x92u8 => Some(Instr::F32Add),
        0x93u8 => Some(Instr::F32Sub),
        0x94u8 => Some(Instr::F32Mul),
        0x95u8 => Some(Instr::F32Div),
        0xa0u8 => Some(Instr::F64Add),
        0xa1u8 => Some(Instr::F64Sub),
        0xa2u8 => Some(Instr::F64Mul),
        0xa3u8 => Some(Instr::F64Div),
        0x2u8 => Some(Instr::Block { block_ty: 0 }),
        0x3u8 => Some(Instr::Loop { block_ty: 0 }),
        0x4u8 => Some(Instr::If { block_ty: 0 }),
        0xcu8 => Some(Instr::Br(0)),
        0xdu8 => Some(Instr::BrIf(0)),
        0x10u8 => Some(Instr::Call(0)),
        0x20u8 => Some(Instr::LocalGet(0)),
        0x21u8 => Some(Instr::LocalSet(0)),
        0x22u8 => Some(Instr::LocalTee(0)),
        0x41u8 => Some(Instr::I32Const(0)),
        0x42u8 => Some(Instr::I64Const(0)),
        0x43u8 => Some(Instr::F32Const(0)),
        0x44u8 => Some(Instr::F64Const(0)),
        0x28u8 => Some(Instr::I32Load { offset: 0, align: 0 }),
        0x36u8 => Some(Instr::I32Store { offset: 0, align: 0 }),
        0x2cu8 => Some(Instr::I32Load8S { offset: 0, align: 0 }),
        0x2du8 => Some(Instr::I32Load8U { offset: 0, align: 0 }),
        0x3au8 => Some(Instr::I32Store8 { offset: 0, align: 0 }),
        _ => None,
    }
}

/// Every instruction is encoded starting with an opcode byte from which the
/// binary format's opcode table gives the instruction back (up to its
/// immediates).
proof fn lemma_opcode_instr(i: Instr)
    ensures
        instr_bytes(i).len() >= 1,
        opcode_instr(instr_bytes(i)[0]) == Some(blank(i)),
{
    match i {
        Instr::Br(x) | Instr::BrIf(x) | Instr::Call(x) | Instr::LocalGet(x) | Instr::LocalSet(x) | Instr::LocalTee(x) => {},
        _ => {},
    }
}

/// Distinct instructions get distinct opcode bytes: two instructions whose
/// encodings start with the same byte are the same instruction up to their
/// immediates, and the same instruction when they have none.
pub proof fn lemma_opcodes_distinct(i1: Instr, i2: Instr)
    requires
        instr_bytes(i1)[0] == instr_bytes(i2)[0],
    ensures
        blank(i1) == blank(i2),
        instr_bytes(i1).len() == 1 && instr_bytes(i2).len() == 1 ==> i1 == i2,
{
    lemma_opcode_instr(i1);
    lemma_opcode_instr(i2);
}

/// The index the assembler writes after the opcode of `local.get`, `set`,
/// `tee`, `call`, `br` and `br_if` reads back, by the binary format's
/// LEB-128 decoding, as the index it was given.
pub proof fn lemma_index_immediates_decode(x: u32)
    ensures
        uleb32_decode(instr_bytes(Instr::LocalGet(x)).skip(1)) == Some((x, uleb32_len(x) as usize)),
        uleb32_decode(instr_bytes(Instr::LocalSet(x)).skip(1)) == Some((x, uleb32_len(x) as usize)),
        uleb32_decode(instr_bytes(Instr::LocalTee(x)).skip(1)) == Some((x, uleb32_len(x) as usize)),
        uleb32_decode(instr_bytes(Instr::Call(x)).skip(1)) == Some((x, uleb32_len(x) as usize)),
        uleb32_decode(instr_bytes(Instr::Br(x)).skip(1)) == Some((x, uleb32_len(x) as usize)),
        uleb32_decode(instr_bytes(Instr::BrIf(x)).skip(1)) == Some((x, uleb32_len(x) as usize)),
{
    let e = Seq::<u8>::empty();
    lemma_uleb32_roundtrip(x, e);
    assert(uleb32_encode(x) + e =~= uleb32_encode(x));
    assert(instr_bytes(Instr::LocalGet(x)).skip(1) =~= uleb32_encode(x));
    assert(instr_bytes(Instr::LocalSet(x)).skip(1) =~= uleb32_encode(x));
    assert(instr_bytes(Instr::LocalTee(x)).skip(1) =~= uleb32_encode(x));
    assert(instr_bytes(Instr::Call(x)).skip(1) =~= uleb32_encode(x));
    assert(instr_bytes(Instr::Br(x)).skip(1) =~= uleb32_encode(x));
    assert(instr_bytes(Instr::BrIf(x)).skip(1) =~= uleb32_encode(x));
}

/// The constant of `i32.const`/`i64.const` reads back by signed LEB-128
/// decoding as the constant given, and a memory access's immediates read
/// back as the alignment, then the offset.
pub proof fn lemma_value_immediates_decode(n: i32, off: u32, al: u32)
    ensures
        sleb32_decode(instr_bytes(Instr::I32Const(n)).skip(1)) == Some((n, sleb32_len(n) as usize)),
        sleb32_decode(instr_bytes(Instr::I64Const(n)).skip(1)) == Some((n, sleb32_len(n) as usize)),
        uleb32_decode(instr_bytes(Instr::I32Load { offset: off, align: al }).skip(1)) == Some(
            (al, uleb32_len(al) as usize),
        ),
        uleb32_decode(instr_bytes(Instr::I32Load { offset: off, align: al }).skip(1 + uleb32_len(al) as int)) == Some(
            (off, uleb32_len(off) as usize),
        ),
        uleb32_decode(instr_bytes(Instr::I32Store { offset: off, align: al }).skip(1 + uleb32_len(al) as int)) == Some(
            (off, uleb32_len(off) as usize),
        ),
{
    let e = Seq::<u8>::empty();
    lemma_sleb32_roundtrip(n, e);
    lemma_uleb32_roundtrip(al, uleb32_encode(off));
    lemma_uleb32_roundtrip(off, e);
    assert(sleb32_encode(n) + e =~= sleb32_encode(n));
    assert(uleb32_encode(off) + e =~= uleb32_encode(off));
    assert(instr_bytes(Instr::I32Const(n)).skip(1) =~= sleb32_encode(n));
    assert(instr_bytes(Instr::I64Const(n)).skip(1) =~= sleb32_encode(n));
    assert(instr_bytes(Instr::I32Load { offset: off, align: al }).skip(1) =~= uleb32_encode(al) + uleb32_encode(off));
    assert(instr_bytes(Instr::I32Load { offset: off, align: al }).skip(1 + uleb32_len(al) as int) =~= uleb32_encode(off));
    assert(instr_bytes(Instr::I32Store { offset: off, align: al }).skip(1 + uleb32_len(al) as int) =~= uleb32_encode(off));
}
} // verus!
