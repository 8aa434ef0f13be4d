//! x86-64 instruction emitter.
//!
//! `CodeBuf` writes into a byte buffer of fixed length through a cursor.
//! Every `emit_*` method appends the bytes of one instruction (or field);
//! bytes that do not fit are silently dropped, so a buffer that runs full
//! keeps its complete prefix and stops advancing.
use vstd::prelude::*;
use crate::bytes::{le16, le32, le64, push_le32};

verus! {

/// General-purpose 64-bit registers.
#[derive(Clone, Copy, PartialEq, Eq, Debug, Structural)]
pub enum Reg {
    Rax,
    Rcx,
    Rdx,
    Rbx,
    Rsp,
    Rbp,
    Rsi,
    Rdi,
    R8,
    R9,
    R10,
    R11,
    R12,
    R13,
    R14,
    R15,
}

/// The hardware number of a register (0..15).
pub open spec fn reg_index(r: Reg) -> u8 {
    match r {
        Reg::Rax => 0,
        Reg::Rcx => 1,
        Reg::Rdx => 2,
        Reg::Rbx => 3,
        Reg::Rsp => 4,
        Reg::Rbp => 5,
        Reg::Rsi => 6,
        Reg::Rdi => 7,
        Reg::R8 => 8,
        Reg::R9 => 9,
        Reg::R10 => 10,
        Reg::R11 => 11,
        Reg::R12 => 12,
        Reg::R13 => 13,
        Reg::R14 => 14,
        Reg::R15 => 15,
    }
}

/// The low three bits of the register number (the ModRM field).
pub open spec fn reg_enc(r: Reg) -> u8 {
    (reg_index(r) % 8) as u8
}

/// Whether the register needs a REX extension bit (R8–R15).
pub open spec fn reg_ext(r: Reg) -> bool {
    reg_index(r) >= 8
}

impl Reg {
    /// The hardware number of the register.
    pub fn index(self) -> (r: u8)
        ensures
            r == reg_index(self),
            r < 16,
    {
        match self {
            Reg::Rax => 0,
            Reg::Rcx => 1,
            Reg::Rdx => 2,
            Reg::Rbx => 3,
            Reg::Rsp => 4,
            Reg::Rbp => 5,
            Reg::Rsi => 6,
            Reg::Rdi => 7,
            Reg::R8 => 8,
            Reg::R9 => 9,
            Reg::R10 => 10,
            Reg::R11 => 11,
            Reg::R12 => 12,
            Reg::R13 => 13,
            Reg::R14 => 14,
            Reg::R15 => 15,
        }
    }

    /// Low 3 bits of the ModRM / SIB register field.
    pub fn enc(self) -> (r: u8)
        ensures
            r == reg_enc(self),
            r < 8,
    {
        self.index() % 8
    }

    /// True if the register needs a REX extension bit (R8–R15).
    pub fn needs_rex(self) -> (r: bool)
        ensures
            r == reg_ext(self),
    {
        self.index() >= 8
    }
}

/// Condition codes of `setcc` / `jcc`.
#[derive(Clone, Copy, PartialEq, Eq, Debug, Structural)]
pub enum Cond {
    /// equal / zero
    E,
    /// not equal
    NE,
    /// less (signed)
    L,
    /// less or equal (signed)
    LE,
    /// greater (signed)
    G,
    /// greater or equal (signed)
    GE,
    /// below (unsigned)
    B,
    /// below or equal (unsigned)
    BE,
    /// above (unsigned)
    A,
    /// above or equal (unsigned)
    AE,
}

/// The 4-bit encoding of a condition.
pub open spec fn cond_code(c: Cond) -> u8 {
    match c {
        Cond::E => 0x4,
        Cond::NE => 0x5,
        Cond::L => 0xC,
        Cond::LE => 0xE,
        Cond::G => 0xF,
        Cond::GE => 0xD,
        Cond::B => 0x2,
        Cond::BE => 0x6,
        Cond::A => 0x7,
        Cond::AE => 0x3,
    }
}

impl Cond {
    /// The 4-bit encoding of the condition.
    pub fn code(self) -> (r: u8)
        ensures
            r == cond_code(self),
            r < 16,
    {
        match self {
            Cond::E => 0x4,
            Cond::NE => 0x5,
            Cond::L => 0xC,
            Cond::LE => 0xE,
            Cond::G => 0xF,
            Cond::GE => 0xD,
            Cond::B => 0x2,
            Cond::BE => 0x6,
            Cond::A => 0x7,
            Cond::AE => 0x3,
        }
    }
}

// ── The buffer model ─────────────────────────────────────────────────────

/// The contents of a code buffer and its write cursor.
pub struct CodeBufView {
    pub bytes: Seq<u8>,
    pub cursor: nat,
}

/// How many of `n` bytes fit in `room` bytes.
pub open spec fn fit(n: nat, room: int) -> nat {
    if n <= room {
        n
    } else if room < 0 {
        0
    } else {
        room as nat
    }
}

/// Buffer `b` after writing `s` at `c`, dropping what does not fit.
pub open spec fn put(b: Seq<u8>, c: nat, s: Seq<u8>) -> Seq<u8> {
    let k = fit(s.len(), b.len() - c);
    b.take(c as int) + s.take(k as int) + b.skip((c + k) as int)
}

/// `b` is `a` after emitting the bytes `s`.
pub open spec fn wrote(a: CodeBufView, b: CodeBufView, s: Seq<u8>) -> bool {
    &&& b.bytes == put(a.bytes, a.cursor, s)
    &&& b.cursor == a.cursor + fit(s.len(), a.bytes.len() - a.cursor)
}

/// Emitting `s1` and then `s2` leaves the buffer as emitting `s1 + s2`
/// does, also when the buffer runs full on the way.
pub proof fn lemma_wrote_concat(a: CodeBufView, b: CodeBufView, c: CodeBufView, s1: Seq<u8>, s2: Seq<u8>)
    requires
        a.cursor <= a.bytes.len(),
        wrote(a, b, s1),
        wrote(b, c, s2),
    ensures
        wrote(a, c, s1 + s2),
{
    let room = a.bytes.len() - a.cursor;
    let k1 = fit(s1.len(), room);
    let k2 = fit(s2.len(), room - k1);
    assert(b.bytes.len() == a.bytes.len());
    let s = s1 + s2;
    assert(fit(s.len(), room) == k1 + k2);
    assert(c.bytes =~= put(a.bytes, a.cursor, s)) by {
        if s1.len() <= room {
            assert(s.take((k1 + k2) as int) =~= s1 + s2.take(k2 as int));
            assert(b.bytes.take((a.cursor + k1) as int) =~= a.bytes.take(a.cursor as int) + s1);
            assert(b.bytes.skip((a.cursor + k1 + k2) as int) =~= a.bytes.skip((a.cursor + k1 + k2) as int));
        } else {
            assert(k2 == 0);
            assert(s.take(k1 as int) =~= s1.take(k1 as int));
            assert(c.bytes =~= b.bytes);
        }
    }
}

/// A cursor over a byte buffer of fixed length for emitting machine code.
pub struct CodeBuf {
    buf: Vec<u8>,
    cursor: usize,
}

impl View for CodeBuf {
    type V = CodeBufView;

    closed spec fn view(&self) -> CodeBufView {
        CodeBufView { bytes: self.buf@, cursor: self.cursor as nat }
    }
}

impl CodeBuf {
    /// The cursor is within the buffer.
    pub open spec fn wf(&self) -> bool {
        self@.cursor <= self@.bytes.len()
    }

    /// The bytes emitted so far.
    pub open spec fn emitted(&self) -> Seq<u8> {
        self@.bytes.take(self@.cursor as int)
    }

    /// A cursor at the start of `buf`.
    pub fn new(buf: Vec<u8>) -> (c: Self)
        ensures
            c.wf(),
            c@ == (CodeBufView { bytes: buf@, cursor: 0 }),
    {
        CodeBuf { buf, cursor: 0 }
    }

    /// Number of bytes emitted so far.
    pub fn len(&self) -> (n: usize)
        ensures
            n == self@.cursor,
    {
        self.cursor
    }

    /// Current write position (same as `len`).
    pub fn pos(&self) -> (n: usize)
        ensures
            n == self@.cursor,
    {
        self.cursor
    }

    /// The whole underlying buffer.
    pub fn bytes(&self) -> (b: &[u8])
        ensures
            b@ == self@.bytes,
    {
        self.buf.as_slice()
    }

    /// Give back the underlying buffer.
    pub fn into_inner(self) -> (b: Vec<u8>)
        ensures
            b@ == self@.bytes,
    {
        self.buf
    }

    // ── Primitive emitters ────────────────────────────────────────────────

    /// Append one byte, if there is room.
    pub fn emit_u8(&mut self, b: u8)
        requires
            old(self).wf(),
        ensures
            final(self).wf(),
            wrote(old(self)@, final(self)@, seq![b]),
    {
        if self.cursor < self.buf.len() {
            self.buf.set(self.cursor, b);
            self.cursor = self.cursor + 1;
        }
        assert(self@.bytes =~= put(old(self)@.bytes, old(self)@.cursor, seq![b]));
    }

    /// Append the bytes of `s`, as many as fit.
    fn emit_bytes(&mut self, s: &[u8])
        requires
            old(self).wf(),
        ensures
            final(self).wf(),
            wrote(old(self)@, final(self)@, s@),
    {
        let mut i: usize = 0;
        assert(self@.bytes =~= put(old(self)@.bytes, old(self)@.cursor, s@.take(0)));
        while i < s.len()
            invariant
                i <= s@.len(),
                self.wf(),
                old(self).wf(),
                wrote(old(self)@, self@, s@.take(i as int)),
            decreases s@.len() - i,
        {
            let ghost before = self@;
            self.emit_u8(s[i]);
            proof {
                lemma_wrote_concat(old(self)@, before, self@, s@.take(i as int), seq![s@[i as int]]);
                assert(s@.take(i as int) + seq![s@[i as int]] =~= s@.take(i + 1));
            }
            i = i + 1;
        }
        assert(s@.take(s@.len() as int) =~= s@);
    }
}


// ── Instruction encodings ────────────────────────────────────────────────

/// `v` if register `r` needs an extension bit, else 0.
pub open spec fn ext_bit(r: Reg, v: u8) -> u8 {
    if reg_ext(r) { v } else { 0 }
}

/// REX.W with REX.R set for `reg` and REX.B for `rm` when they need it.
pub open spec fn rex_rr(reg: Reg, rm: Reg) -> u8 {
    (0x48 + ext_bit(reg, 4) + ext_bit(rm, 1)) as u8
}

/// A ModRM byte: mode `md`, register field `reg`, r/m field `rm`.
pub open spec fn modrm(md: u8, reg: u8, rm: u8) -> u8 {
    (md * 64 + reg * 8 + rm) as u8
}

/// Register-direct ModRM (mode 3).
pub open spec fn modrm_rr(reg: Reg, rm: Reg) -> u8 {
    modrm(3, reg_enc(reg), reg_enc(rm))
}

/// A lone REX.B prefix when `r` needs it.
pub open spec fn opt_rex_b(r: Reg) -> Seq<u8> {
    if reg_ext(r) { seq![0x41u8] } else { Seq::empty() }
}

/// `op reg, r/m` with both operands registers (64-bit).
pub open spec fn alu_rr_bytes(op: u8, dst: Reg, src: Reg) -> Seq<u8> {
    seq![rex_rr(dst, src), op, modrm_rr(dst, src)]
}

/// `mov dst, src` (64-bit).
pub open spec fn mov_rr_bytes(dst: Reg, src: Reg) -> Seq<u8> {
    seq![rex_rr(src, dst), 0x89u8, modrm_rr(src, dst)]
}

/// `mov dst, imm64`.
pub open spec fn mov_ri64_bytes(dst: Reg, imm: u64) -> Seq<u8> {
    seq![(0x48 + ext_bit(dst, 1)) as u8, (0xB8 + reg_enc(dst)) as u8] + le64(imm)
}

/// `mov dst32, imm32`.
pub open spec fn mov_ri32_bytes(dst: Reg, imm: u32) -> Seq<u8> {
    opt_rex_b(dst) + seq![(0xB8 + reg_enc(dst)) as u8] + le32(imm)
}

/// `push r`.
pub open spec fn push_bytes(r: Reg) -> Seq<u8> {
    opt_rex_b(r) + seq![(0x50 + reg_enc(r)) as u8]
}

/// `pop r`.
pub open spec fn pop_bytes(r: Reg) -> Seq<u8> {
    opt_rex_b(r) + seq![(0x58 + reg_enc(r)) as u8]
}

/// The ModRM (and displacement) for `[base + off]`: no displacement when
/// `off` is 0 and the base is not RBP/R13, else an 8-bit displacement when
/// it fits, else a 32-bit one.
pub open spec fn mem_modrm_bytes(reg: Reg, base: Reg, off: i32) -> Seq<u8> {
    if off == 0 && reg_enc(base) != 5 {
        seq![modrm(0, reg_enc(reg), reg_enc(base))]
    } else if -128 <= off <= 127 {
        seq![modrm(1, reg_enc(reg), reg_enc(base)), off as u8]
    } else {
        seq![modrm(2, reg_enc(reg), reg_enc(base))] + le32(off as u32)
    }
}

/// A 64-bit `op` between `reg` and `[base + off]`.
pub open spec fn mem_bytes(op: u8, reg: Reg, base: Reg, off: i32) -> Seq<u8> {
    seq![rex_rr(reg, base), op] + mem_modrm_bytes(reg, base, off)
}

/// `add rsp, imm8` (`ext` 0xC4) or `sub rsp, imm8` (`ext` 0xEC).
pub open spec fn rsp_imm_bytes(ext: u8, imm: i8) -> Seq<u8> {
    seq![0x48u8, 0x83u8, ext, imm as u8]
}

/// `imul dst, src` (64-bit).
pub open spec fn imul_bytes(dst: Reg, src: Reg) -> Seq<u8> {
    seq![rex_rr(dst, src), 0x0Fu8, 0xAFu8, modrm_rr(dst, src)]
}

/// A shift of `reg` by CL; `ext` selects SHL (0xE0), SHR (0xE8) or SAR
/// (0xF8).
pub open spec fn shift_cl_bytes(ext: u8, reg: Reg) -> Seq<u8> {
    seq![rex_rr(Reg::Rcx, reg), 0xD3u8, (ext + reg_enc(reg)) as u8]
}

/// `neg reg` (REX.W, with REX.B for R8–R15).
pub open spec fn neg_bytes(reg: Reg) -> Seq<u8> {
    seq![(0x48 + ext_bit(reg, 1)) as u8, 0xF7u8, (0xD8 + reg_enc(reg)) as u8]
}

/// `setcc reg8`: the register in the r/m field; REX.B for R8–R15, and a
/// bare REX for SPL, BPL, SIL and DIL (without it those numbers name AH,
/// CH, DH and BH).
pub open spec fn setcc_bytes(cond: Cond, reg: Reg) -> Seq<u8> {
    (if reg_ext(reg) {
        seq![0x41u8]
    } else if reg_enc(reg) >= 4 {
        seq![0x40u8]
    } else {
        Seq::empty()
    }) + seq![0x0Fu8, (0x90 + cond_code(cond)) as u8, modrm(3, 0, reg_enc(reg))]
}

/// `movzx dst32, src8`.
pub open spec fn movzx_rr_bytes(dst: Reg, src: Reg) -> Seq<u8> {
    (if reg_ext(dst) || reg_ext(src) { seq![(0x40 + ext_bit(dst, 4) + ext_bit(src, 1)) as u8] } else {
        Seq::empty() }) + seq![0x0Fu8, 0xB6u8, modrm_rr(dst, src)]
}

/// A two-byte-opcode byte load (`0F op2`) from `[base + off]`.
pub open spec fn ext8_mem_bytes(op2: u8, dst: Reg, base: Reg, off: i32) -> Seq<u8> {
    seq![rex_rr(dst, base), 0x0Fu8, op2] + mem_modrm_bytes(dst, base, off)
}

/// The (base, index) pair a SIB byte names for `[base + idx]`: RSP cannot
/// be an index, so when it is the offset register the two swap.
pub open spec fn sib_pair(base: Reg, idx: Reg) -> (Reg, Reg) {
    if idx == Reg::Rsp {
        (idx, base)
    } else {
        (base, idx)
    }
}

/// A 64-bit `op` between `reg` and `[base + idx]`: ModRM with r/m 100 and a
/// SIB byte (scale 1); REX.R, REX.X and REX.B as the registers need; a zero
/// 8-bit displacement when the SIB base is RBP or R13.
pub open spec fn indexed_bytes(op: u8, reg: Reg, base: Reg, idx: Reg) -> Seq<u8> {
    let (b, i) = sib_pair(base, idx);
    let rex = (0x48 + ext_bit(reg, 4) + ext_bit(i, 2) + ext_bit(b, 1)) as u8;
    let sib = (reg_enc(i) * 8 + reg_enc(b)) as u8;
    if reg_enc(b) == 5 {
        seq![rex, op, modrm(1, reg_enc(reg), 4), sib, 0u8]
    } else {
        seq![rex, op, modrm(0, reg_enc(reg), 4), sib]
    }
}

/// A branch: opcode bytes `op` and a 32-bit relative target.
pub open spec fn branch_bytes(op: Seq<u8>, rel: i32) -> Seq<u8> {
    op + le32(rel as u32)
}

/// `test reg, reg`.
pub open spec fn test_bytes(reg: Reg) -> Seq<u8> {
    seq![rex_rr(reg, reg), 0x85u8, modrm_rr(reg, reg)]
}

/// `cmp reg, imm32`.
pub open spec fn compare_ri32_bytes(reg: Reg, imm: i32) -> Seq<u8> {
    seq![(0x48 + ext_bit(reg, 1)) as u8, 0x81u8, (0xF8 + reg_enc(reg)) as u8] + le32(imm as u32)
}

/// `call reg`.
pub open spec fn call_r_bytes(reg: Reg) -> Seq<u8> {
    opt_rex_b(reg) + seq![0xFFu8, (0xD0 + reg_enc(reg)) as u8]
}

/// The System-V prologue: save RBP and set up the frame, save RBX and
/// R12–R15, and pad the stack to 16 bytes.
pub open spec fn prologue_bytes() -> Seq<u8> {
    push_bytes(Reg::Rbp) + mov_rr_bytes(Reg::Rbp, Reg::Rsp) + push_bytes(Reg::Rbx) + push_bytes(Reg::R12)
        + push_bytes(Reg::R13) + push_bytes(Reg::R14) + push_bytes(Reg::R15) + rsp_imm_bytes(0xEC, 8)
}

/// The matching epilogue, ending in `ret`.
pub open spec fn epilogue_bytes() -> Seq<u8> {
    rsp_imm_bytes(0xC4, 8) + pop_bytes(Reg::R15) + pop_bytes(Reg::R14) + pop_bytes(Reg::R13) + pop_bytes(
        Reg::R12) + pop_bytes(Reg::Rbx) + pop_bytes(Reg::Rbp) + seq![0xC3u8]
}

/// The REX byte for a two-register operation.
/// The bytes of `indexed_bytes`.
fn indexed_vec(op: u8, reg: Reg, base: Reg, idx: Reg) -> (v: Vec<u8>)
    requires
        !(base == Reg::Rsp && idx == Reg::Rsp),
    ensures
        v@ == indexed_bytes(op, reg, base, idx),
{
    let (b, i) = if idx == Reg::Rsp { (idx, base) } else { (base, idx) };
    let r: u8 = if reg.needs_rex() { 4 } else { 0 };
    let x: u8 = if i.needs_rex() { 2 } else { 0 };
    let bb: u8 = if b.needs_rex() { 1 } else { 0 };
    let sib: u8 = i.enc() * 8 + b.enc();
    let mut v: Vec<u8> = Vec::new();
    v.push(0x48 + r + x + bb);
    v.push(op);
    if b.enc() == 5 {
        v.push(modrm_byte(1, reg.enc(), 4));
        v.push(sib);
        v.push(0);
    } else {
        v.push(modrm_byte(0, reg.enc(), 4));
        v.push(sib);
    }
    assert(v@ =~= indexed_bytes(op, reg, base, idx));
    v
}

fn rex_rr_byte(reg: Reg, rm: Reg) -> (b: u8)
    ensures
        b == rex_rr(reg, rm),
{
    let r: u8 = if reg.needs_rex() { 4 } else { 0 };
    let x: u8 = if rm.needs_rex() { 1 } else { 0 };
    0x48 + r + x
}

/// A ModRM byte.
fn modrm_byte(md: u8, reg: u8, rm: u8) -> (b: u8)
    requires
        md < 4,
        reg < 8,
        rm < 8,
    ensures
        b == modrm(md, reg, rm),
{
    md * 64 + reg * 8 + rm
}

impl CodeBuf {
    fn emit_vec(&mut self, v: Vec<u8>)
        requires
            old(self).wf(),
        ensures
            final(self).wf(),
            wrote(old(self)@, final(self)@, v@),
    {
        self.emit_bytes(v.as_slice());
    }

    /// Append a 16-bit value, little-endian.
    pub fn emit_u16(&mut self, v: u16)
        requires
            old(self).wf(),
        ensures
            final(self).wf(),
            wrote(old(self)@, final(self)@, le16(v)),
    {
        let b = [(v % 256) as u8, (v / 256) as u8];
        assert(b@ =~= le16(v));
        self.emit_bytes(b.as_slice());
    }

    /// Append a 32-bit value, little-endian.
    pub fn emit_u32(&mut self, v: u32)
        requires
            old(self).wf(),
        ensures
            final(self).wf(),
            wrote(old(self)@, final(self)@, le32(v)),
    {
        let mut b: Vec<u8> = Vec::new();
        push_le32(&mut b, v);
        assert(b@ =~= le32(v));
        self.emit_vec(b);
    }

    /// Append a 64-bit value, little-endian.
    pub fn emit_u64(&mut self, v: u64)
        requires
            old(self).wf(),
        ensures
            final(self).wf(),
            wrote(old(self)@, final(self)@, le64(v)),
    {
        let mut b: Vec<u8> = Vec::new();
        push_le32(&mut b, (v % 0x1_0000_0000) as u32);
        push_le32(&mut b, (v / 0x1_0000_0000) as u32);
        assert(b@ =~= le64(v));
        self.emit_vec(b);
    }

    /// Append a 32-bit signed value, little-endian two's complement.
    pub fn emit_i32(&mut self, v: i32)
        requires
            old(self).wf(),
        ensures
            final(self).wf(),
            wrote(old(self)@, final(self)@, le32(v as u32)),
    {
        self.emit_u32(v as u32);
    }

    /// REX.W prefix (operand size = 64-bit).
    pub fn emit_rex_w(&mut self)
        requires
            old(self).wf(),
        ensures
            final(self).wf(),
            wrote(old(self)@, final(self)@, seq![0x48u8]),
    {
        self.emit_u8(0x48);
    }

    /// REX.W + REX.B (dst is R8–R15).
    pub fn emit_rex_wb(&mut self)
        requires
            old(self).wf(),
        ensures
            final(self).wf(),
            wrote(old(self)@, final(self)@, seq![0x49u8]),
    {
        self.emit_u8(0x49);
    }

    /// REX.W + REX.R (reg field is R8–R15).
    pub fn emit_rex_wr(&mut self)
        requires
            old(self).wf(),
        ensures
            final(self).wf(),
            wrote(old(self)@, final(self)@, seq![0x4Cu8]),
    {
        self.emit_u8(0x4C);
    }

    /// REX.W + REX.R + REX.B.
    pub fn emit_rex_wrb(&mut self)
        requires
            old(self).wf(),
        ensures
            final(self).wf(),
            wrote(old(self)@, final(self)@, seq![0x4Du8]),
    {
        self.emit_u8(0x4D);
    }

    /// The REX.W prefix for a two-register operation: REX.R when `reg`
    /// needs it, REX.B when `rm` does.
    pub fn emit_rex_rr(&mut self, reg: Reg, rm: Reg)
        requires
            old(self).wf(),
        ensures
            final(self).wf(),
            wrote(old(self)@, final(self)@, seq![rex_rr(reg, rm)]),
    {
        self.emit_u8(rex_rr_byte(reg, rm));
    }

    /// ModRM byte: mod=11 (register direct), reg field, rm field.
    pub fn emit_modrm_rr(&mut self, reg: Reg, rm: Reg)
        requires
            old(self).wf(),
        ensures
            final(self).wf(),
            wrote(old(self)@, final(self)@, seq![modrm_rr(reg, rm)]),
    {
        self.emit_u8(modrm_byte(3, reg.enc(), rm.enc()));
    }

    fn emit_alu_rr(&mut self, op: u8, dst: Reg, src: Reg)
        requires
            old(self).wf(),
        ensures
            final(self).wf(),
            wrote(old(self)@, final(self)@, alu_rr_bytes(op, dst, src)),
    {
        let b = [rex_rr_byte(dst, src), op, modrm_byte(3, dst.enc(), src.enc())];
        assert(b@ =~= alu_rr_bytes(op, dst, src));
        self.emit_bytes(b.as_slice());
    }

    /// `mov dst, src` (64-bit register ← register).
    pub fn emit_mov_rr(&mut self, dst: Reg, src: Reg)
        requires
            old(self).wf(),
        ensures
            final(self).wf(),
            wrote(old(self)@, final(self)@, mov_rr_bytes(dst, src)),
    {
        let b = [rex_rr_byte(src, dst), 0x89, modrm_byte(3, src.enc(), dst.enc())];
        assert(b@ =~= mov_rr_bytes(dst, src));
        self.emit_bytes(b.as_slice());
    }

    /// `mov dst, imm64`.
    pub fn emit_mov_ri64(&mut self, dst: Reg, imm: u64)
        requires
            old(self).wf(),
        ensures
            final(self).wf(),
            wrote(old(self)@, final(self)@, mov_ri64_bytes(dst, imm)),
    {
        let mut b: Vec<u8> = Vec::new();
        b.push(if dst.needs_rex() { 0x49 } else { 0x48 });
        b.push(0xB8 + dst.enc());
        push_le32(&mut b, (imm % 0x1_0000_0000) as u32);
        push_le32(&mut b, (imm / 0x1_0000_0000) as u32);
        assert(b@ =~= mov_ri64_bytes(dst, imm));
        self.emit_vec(b);
    }

    /// `mov dst32, imm32` (zero-extends to 64 bits).
    pub fn emit_mov_ri32(&mut self, dst: Reg, imm: u32)
        requires
            old(self).wf(),
        ensures
            final(self).wf(),
            wrote(old(self)@, final(self)@, mov_ri32_bytes(dst, imm)),
    {
        let mut b: Vec<u8> = Vec::new();
        if dst.needs_rex() {
            b.push(0x41);
        }
        b.push(0xB8 + dst.enc());
        push_le32(&mut b, imm);
        assert(b@ =~= mov_ri32_bytes(dst, imm));
        self.emit_vec(b);
    }

    /// `push reg` (64-bit).
    pub fn emit_push(&mut self, reg: Reg)
        requires
            old(self).wf(),
        ensures
            final(self).wf(),
            wrote(old(self)@, final(self)@, push_bytes(reg)),
    {
        let mut b: Vec<u8> = Vec::new();
        if reg.needs_rex() {
            b.push(0x41);
        }
        b.push(0x50 + reg.enc());
        assert(b@ =~= push_bytes(reg));
        self.emit_vec(b);
    }

    /// `pop reg` (64-bit).
    pub fn emit_pop(&mut self, reg: Reg)
        requires
            old(self).wf(),
        ensures
            final(self).wf(),
            wrote(old(self)@, final(self)@, pop_bytes(reg)),
    {
        let mut b: Vec<u8> = Vec::new();
        if reg.needs_rex() {
            b.push(0x41);
        }
        b.push(0x58 + reg.enc());
        assert(b@ =~= pop_bytes(reg));
        self.emit_vec(b);
    }

    /// `add dst, src` (64-bit, dst += src).
    pub fn emit_add_rr(&mut self, dst: Reg, src: Reg)
        requires
            old(self).wf(),
        ensures
            final(self).wf(),
            wrote(old(self)@, final(self)@, alu_rr_bytes(0x03, dst, src)),
    {
        self.emit_alu_rr(0x03, dst, src);
    }

    /// `sub dst, src` (64-bit, dst -= src).
    pub fn emit_sub_rr(&mut self, dst: Reg, src: Reg)
        requires
            old(self).wf(),
        ensures
            final(self).wf(),
            wrote(old(self)@, final(self)@, alu_rr_bytes(0x2B, dst, src)),
    {
        self.emit_alu_rr(0x2B, dst, src);
    }

    /// `and dst, src` (64-bit, dst &= src).
    pub fn emit_and_rr(&mut self, dst: Reg, src: Reg)
        requires
            old(self).wf(),
        ensures
            final(self).wf(),
            wrote(old(self)@, final(self)@, alu_rr_bytes(0x23, dst, src)),
    {
        self.emit_alu_rr(0x23, dst, src);
    }

    /// `or dst, src` (64-bit, dst |= src).
    pub fn emit_or_rr(&mut self, dst: Reg, src: Reg)
        requires
            old(self).wf(),
        ensures
            final(self).wf(),
            wrote(old(self)@, final(self)@, alu_rr_bytes(0x0B, dst, src)),
    {
        self.emit_alu_rr(0x0B, dst, src);
    }

    /// `xor dst, src` (64-bit, dst ^= src).
    pub fn emit_xor_rr(&mut self, dst: Reg, src: Reg)
        requires
            old(self).wf(),
        ensures
            final(self).wf(),
            wrote(old(self)@, final(self)@, alu_rr_bytes(0x33, dst, src)),
    {
        self.emit_alu_rr(0x33, dst, src);
    }
}


impl CodeBuf {
    /// The ModRM and displacement for `[base + offset]`.
    fn emit_mem_modrm(&mut self, reg: Reg, base: Reg, offset: i32)
        requires
            old(self).wf(),
        ensures
            final(self).wf(),
            wrote(old(self)@, final(self)@, mem_modrm_bytes(reg, base, offset)),
    {
        let mut b: Vec<u8> = Vec::new();
        if offset == 0 && base.enc() != 5 {
            b.push(modrm_byte(0, reg.enc(), base.enc()));
        } else if offset >= -128 && offset <= 127 {
            b.push(modrm_byte(1, reg.enc(), base.enc()));
            b.push(offset as u8);
        } else {
            b.push(modrm_byte(2, reg.enc(), base.enc()));
            push_le32(&mut b, offset as u32);
        }
        assert(b@ =~= mem_modrm_bytes(reg, base, offset));
        self.emit_vec(b);
    }

    /// `mov dst, [base + byte_offset]` (64-bit load).
    pub fn emit_load_mem(&mut self, dst: Reg, base: Reg, byte_offset: i32)
        requires
            old(self).wf(),
        ensures
            final(self).wf(),
            wrote(old(self)@, final(self)@, mem_bytes(0x8B, dst, base, byte_offset)),
    {
        let ghost s0 = self@;
        let h = [rex_rr_byte(dst, base), 0x8B];
        self.emit_bytes(h.as_slice());
        let ghost s1 = self@;
        self.emit_mem_modrm(dst, base, byte_offset);
        proof {
            lemma_wrote_concat(s0, s1, self@, h@, mem_modrm_bytes(dst, base, byte_offset));
            assert(h@ + mem_modrm_bytes(dst, base, byte_offset) =~= mem_bytes(0x8B, dst, base, byte_offset));
        }
    }

    /// `mov [base + byte_offset], src` (64-bit store).
    pub fn emit_store_mem(&mut self, src: Reg, base: Reg, byte_offset: i32)
        requires
            old(self).wf(),
        ensures
            final(self).wf(),
            wrote(old(self)@, final(self)@, mem_bytes(0x89, src, base, byte_offset)),
    {
        let ghost s0 = self@;
        let h = [rex_rr_byte(src, base), 0x89];
        self.emit_bytes(h.as_slice());
        let ghost s1 = self@;
        self.emit_mem_modrm(src, base, byte_offset);
        proof {
            lemma_wrote_concat(s0, s1, self@, h@, mem_modrm_bytes(src, base, byte_offset));
            assert(h@ + mem_modrm_bytes(src, base, byte_offset) =~= mem_bytes(0x89, src, base, byte_offset));
        }
    }

    /// `add rsp, imm8`.
    pub fn emit_add_rsp_i8(&mut self, imm: i8)
        requires
            old(self).wf(),
        ensures
            final(self).wf(),
            wrote(old(self)@, final(self)@, rsp_imm_bytes(0xC4, imm)),
    {
        let b = [0x48u8, 0x83, 0xC4, imm as u8];
        assert(b@ =~= rsp_imm_bytes(0xC4, imm));
        self.emit_bytes(b.as_slice());
    }

    /// `sub rsp, imm8`.
    pub fn emit_sub_rsp_i8(&mut self, imm: i8)
        requires
            old(self).wf(),
        ensures
            final(self).wf(),
            wrote(old(self)@, final(self)@, rsp_imm_bytes(0xEC, imm)),
    {
        let b = [0x48u8, 0x83, 0xEC, imm as u8];
        assert(b@ =~= rsp_imm_bytes(0xEC, imm));
        self.emit_bytes(b.as_slice());
    }

    /// `imul dst, src` (64-bit signed multiply, dst ← dst * src).
    pub fn emit_imul_rr(&mut self, dst: Reg, src: Reg)
        requires
            old(self).wf(),
        ensures
            final(self).wf(),
            wrote(old(self)@, final(self)@, imul_bytes(dst, src)),
    {
        let b = [rex_rr_byte(dst, src), 0x0F, 0xAF, modrm_byte(3, dst.enc(), src.enc())];
        assert(b@ =~= imul_bytes(dst, src));
        self.emit_bytes(b.as_slice());
    }

    /// `sar reg, cl` (arithmetic right shift by CL).
    pub fn emit_sar_rcx(&mut self, reg: Reg)
        requires
            old(self).wf(),
        ensures
            final(self).wf(),
            wrote(old(self)@, final(self)@, shift_cl_bytes(0xF8, reg)),
    {
        let b = [rex_rr_byte(Reg::Rcx, reg), 0xD3, 0xF8 + reg.enc()];
        assert(b@ =~= shift_cl_bytes(0xF8, reg));
        self.emit_bytes(b.as_slice());
    }

    /// `shl reg, cl` (logical left shift by CL).
    pub fn emit_shl_rcx(&mut self, reg: Reg)
        requires
            old(self).wf(),
        ensures
            final(self).wf(),
            wrote(old(self)@, final(self)@, shift_cl_bytes(0xE0, reg)),
    {
        let b = [rex_rr_byte(Reg::Rcx, reg), 0xD3, 0xE0 + reg.enc()];
        assert(b@ =~= shift_cl_bytes(0xE0, reg));
        self.emit_bytes(b.as_slice());
    }

    /// `shr reg, cl` (logical right shift by CL).
    pub fn emit_shr_rcx(&mut self, reg: Reg)
        requires
            old(self).wf(),
        ensures
            final(self).wf(),
            wrote(old(self)@, final(self)@, shift_cl_bytes(0xE8, reg)),
    {
        let b = [rex_rr_byte(Reg::Rcx, reg), 0xD3, 0xE8 + reg.enc()];
        assert(b@ =~= shift_cl_bytes(0xE8, reg));
        self.emit_bytes(b.as_slice());
    }

    /// `neg reg` (two's complement negation).
    pub fn emit_neg(&mut self, reg: Reg)
        requires
            old(self).wf(),
        ensures
            final(self).wf(),
            wrote(old(self)@, final(self)@, neg_bytes(reg)),
    {
        let rex: u8 = if reg.needs_rex() { 0x49 } else { 0x48 };
        let b = [rex, 0xF7, 0xD8 + reg.enc()];
        assert(b@ =~= neg_bytes(reg));
        self.emit_bytes(b.as_slice());
    }

    /// `setcc reg8`: 1 when `cond` holds, else 0.
    pub fn emit_setcc(&mut self, cond: Cond, reg: Reg)
        requires
            old(self).wf(),
        ensures
            final(self).wf(),
            wrote(old(self)@, final(self)@, setcc_bytes(cond, reg)),
    {
        let mut b: Vec<u8> = Vec::new();
        if reg.needs_rex() {
            b.push(0x41);
        } else if reg.enc() >= 4 {
            b.push(0x40);
        }
        b.push(0x0F);
        b.push(0x90 + cond.code());
        b.push(modrm_byte(3, 0, reg.enc()));
        assert(b@ =~= setcc_bytes(cond, reg));
        self.emit_vec(b);
    }

    /// `movzx dst32, src8` (zero-extend a byte).
    pub fn emit_movzx_r32_r8(&mut self, dst: Reg, src: Reg)
        requires
            old(self).wf(),
        ensures
            final(self).wf(),
            wrote(old(self)@, final(self)@, movzx_rr_bytes(dst, src)),
    {
        let mut b: Vec<u8> = Vec::new();
        if dst.needs_rex() || src.needs_rex() {
            let r: u8 = if dst.needs_rex() { 4 } else { 0 };
            let x: u8 = if src.needs_rex() { 1 } else { 0 };
            b.push(0x40 + r + x);
        }
        b.push(0x0F);
        b.push(0xB6);
        b.push(modrm_byte(3, dst.enc(), src.enc()));
        assert(b@ =~= movzx_rr_bytes(dst, src));
        self.emit_vec(b);
    }

    /// `movsx dst, byte [base + offset]` (sign-extend a byte).
    pub fn emit_movsx_r32_mem8(&mut self, dst: Reg, base: Reg, offset: i32)
        requires
            old(self).wf(),
        ensures
            final(self).wf(),
            wrote(old(self)@, final(self)@, ext8_mem_bytes(0xBE, dst, base, offset)),
    {
        let ghost s0 = self@;
        let h = [rex_rr_byte(dst, base), 0x0F, 0xBE];
        self.emit_bytes(h.as_slice());
        let ghost s1 = self@;
        self.emit_mem_modrm(dst, base, offset);
        proof {
            lemma_wrote_concat(s0, s1, self@, h@, mem_modrm_bytes(dst, base, offset));
            assert(h@ + mem_modrm_bytes(dst, base, offset) =~= ext8_mem_bytes(0xBE, dst, base, offset));
        }
    }

    /// `movzx dst, byte [base + offset]` (zero-extend a byte).
    pub fn emit_movzx_r32_mem8(&mut self, dst: Reg, base: Reg, offset: i32)
        requires
            old(self).wf(),
        ensures
            final(self).wf(),
            wrote(old(self)@, final(self)@, ext8_mem_bytes(0xB6, dst, base, offset)),
    {
        let ghost s0 = self@;
        let h = [rex_rr_byte(dst, base), 0x0F, 0xB6];
        self.emit_bytes(h.as_slice());
        let ghost s1 = self@;
        self.emit_mem_modrm(dst, base, offset);
        proof {
            lemma_wrote_concat(s0, s1, self@, h@, mem_modrm_bytes(dst, base, offset));
            assert(h@ + mem_modrm_bytes(dst, base, offset) =~= ext8_mem_bytes(0xB6, dst, base, offset));
        }
    }

    /// `mov dst, [base + offset_reg]` (64-bit load; `offset_reg` holds a byte offset).
    pub fn emit_mem_load_u64(&mut self, dst: Reg, base: Reg, offset_reg: Reg)
        requires
            old(self).wf(),
            !(base == Reg::Rsp && offset_reg == Reg::Rsp),
        ensures
            final(self).wf(),
            wrote(old(self)@, final(self)@, indexed_bytes(0x8B, dst, base, offset_reg)),
    {
        let b = indexed_vec(0x8B, dst, base, offset_reg);
        self.emit_vec(b);
    }

    /// `mov [base + offset_reg], src` (64-bit store).
    pub fn emit_mem_store_u64(&mut self, src: Reg, base: Reg, offset_reg: Reg)
        requires
            old(self).wf(),
            !(base == Reg::Rsp && offset_reg == Reg::Rsp),
        ensures
            final(self).wf(),
            wrote(old(self)@, final(self)@, indexed_bytes(0x89, src, base, offset_reg)),
    {
        let b = indexed_vec(0x89, src, base, offset_reg);
        self.emit_vec(b);
    }

    /// `ret` (near return).
    pub fn emit_ret(&mut self)
        requires
            old(self).wf(),
        ensures
            final(self).wf(),
            wrote(old(self)@, final(self)@, seq![0xC3u8]),
    {
        self.emit_u8(0xC3);
    }

    /// `jmp rel32` (relative to the end of the instruction).
    pub fn emit_jmp_rel32(&mut self, rel: i32)
        requires
            old(self).wf(),
        ensures
            final(self).wf(),
            wrote(old(self)@, final(self)@, branch_bytes(seq![0xE9u8], rel)),
    {
        let mut b: Vec<u8> = Vec::new();
        b.push(0xE9);
        push_le32(&mut b, rel as u32);
        assert(b@ =~= branch_bytes(seq![0xE9u8], rel));
        self.emit_vec(b);
    }

    /// `jz rel32` (jump if zero / equal).
    pub fn emit_jz_rel32(&mut self, rel: i32)
        requires
            old(self).wf(),
        ensures
            final(self).wf(),
            wrote(old(self)@, final(self)@, branch_bytes(seq![0x0Fu8, 0x84u8], rel)),
    {
        let mut b: Vec<u8> = Vec::new();
        b.push(0x0F);
        b.push(0x84);
        push_le32(&mut b, rel as u32);
        assert(b@ =~= branch_bytes(seq![0x0Fu8, 0x84u8], rel));
        self.emit_vec(b);
    }

    /// `jnz rel32` (jump if not zero).
    pub fn emit_jnz_rel32(&mut self, rel: i32)
        requires
            old(self).wf(),
        ensures
            final(self).wf(),
            wrote(old(self)@, final(self)@, branch_bytes(seq![0x0Fu8, 0x85u8], rel)),
    {
        let mut b: Vec<u8> = Vec::new();
        b.push(0x0F);
        b.push(0x85);
        push_le32(&mut b, rel as u32);
        assert(b@ =~= branch_bytes(seq![0x0Fu8, 0x85u8], rel));
        self.emit_vec(b);
    }

    /// `test reg, reg`.
    pub fn emit_test_rr(&mut self, reg: Reg)
        requires
            old(self).wf(),
        ensures
            final(self).wf(),
            wrote(old(self)@, final(self)@, test_bytes(reg)),
    {
        let b = [rex_rr_byte(reg, reg), 0x85, modrm_byte(3, reg.enc(), reg.enc())];
        assert(b@ =~= test_bytes(reg));
        self.emit_bytes(b.as_slice());
    }

    /// `cmp reg, imm32`.
    fn emit_compare_ri32(&mut self, reg: Reg, imm: i32)
        requires
            old(self).wf(),
        ensures
            final(self).wf(),
            wrote(old(self)@, final(self)@, compare_ri32_bytes(reg, imm)),
    {
        let mut b: Vec<u8> = Vec::new();
        b.push(if reg.needs_rex() { 0x49 } else { 0x48 });
        b.push(0x81);
        b.push(0xF8 + reg.enc());
        push_le32(&mut b, imm as u32);
        assert(b@ =~= compare_ri32_bytes(reg, imm));
        self.emit_vec(b);
    }

    /// `cmp reg, imm32`.
    pub fn emit_cmp_ri32(&mut self, reg: Reg, imm: i32)
        requires
            old(self).wf(),
        ensures
            final(self).wf(),
            wrote(old(self)@, final(self)@, compare_ri32_bytes(reg, imm)),
    {
        self.emit_compare_ri32(reg, imm);
    }

    /// `call reg` (indirect call through a register).
    pub fn emit_call_r(&mut self, reg: Reg)
        requires
            old(self).wf(),
        ensures
            final(self).wf(),
            wrote(old(self)@, final(self)@, call_r_bytes(reg)),
    {
        let mut b: Vec<u8> = Vec::new();
        if reg.needs_rex() {
            b.push(0x41);
        }
        b.push(0xFF);
        b.push(0xD0 + reg.enc());
        assert(b@ =~= call_r_bytes(reg));
        self.emit_vec(b);
    }
}


/// The rel32 field a patch writes: the distance from the end of the branch
/// to its target.
pub open spec fn rel_of(instr_end: usize, target_pos: usize) -> i32 {
    ((target_pos as i64) - (instr_end as i64)) as i32
}

impl CodeBuf {
    /// Emit four zero bytes to be patched later; returns their position.
    pub fn emit_rel32_placeholder(&mut self) -> (pos: usize)
        requires
            old(self).wf(),
        ensures
            final(self).wf(),
            pos == old(self)@.cursor,
            wrote(old(self)@, final(self)@, le32(0)),
    {
        let pos = self.cursor;
        self.emit_u32(0);
        pos
    }

    /// Overwrite the four bytes at `patch_pos` with the little-endian
    /// distance from `instr_end` to `target_pos`; nothing happens when they
    /// would not lie within the buffer. The cursor does not move.
    pub fn patch_rel32(&mut self, patch_pos: usize, instr_end: usize, target_pos: usize)
        requires
            old(self).wf(),
            patch_pos + 4 <= usize::MAX,
            i64::MIN <= (target_pos as i64) - (instr_end as i64) <= i64::MAX,
        ensures
            final(self).wf(),
            final(self)@.cursor == old(self)@.cursor,
            final(self)@.bytes == if patch_pos + 4 <= old(self)@.bytes.len() {
                old(self)@.bytes.take(patch_pos as int) + le32(rel_of(instr_end, target_pos) as u32)
                    + old(self)@.bytes.skip(patch_pos + 4)
            } else {
                old(self)@.bytes
            },
    {
        let rel = ((target_pos as i64) - (instr_end as i64)) as i32;
        let u = rel as u32;
        if patch_pos + 4 <= self.buf.len() {
            self.buf.set(patch_pos, (u % 256) as u8);
            self.buf.set(patch_pos + 1, ((u / 256) % 256) as u8);
            self.buf.set(patch_pos + 2, ((u / 65536) % 256) as u8);
            self.buf.set(patch_pos + 3, (u / 16777216) as u8);
            assert(self@.bytes =~= old(self)@.bytes.take(patch_pos as int) + le32(rel_of(instr_end,
                target_pos) as u32) + old(self)@.bytes.skip(patch_pos + 4));
        }
    }

    /// Standard System-V prologue (see `prologue_bytes`).
    pub fn emit_prologue(&mut self)
        requires
            old(self).wf(),
        ensures
            final(self).wf(),
            wrote(old(self)@, final(self)@, prologue_bytes()),
    {
        let ghost s0 = self@;
        self.emit_push(Reg::Rbp);
        let ghost s1 = self@;
        self.emit_mov_rr(Reg::Rbp, Reg::Rsp);
        let ghost s2 = self@;
        self.emit_push(Reg::Rbx);
        let ghost s3 = self@;
        self.emit_push(Reg::R12);
        let ghost s4 = self@;
        self.emit_push(Reg::R13);
        let ghost s5 = self@;
        self.emit_push(Reg::R14);
        let ghost s6 = self@;
        self.emit_push(Reg::R15);
        let ghost s7 = self@;
        self.emit_sub_rsp_i8(8);
        let ghost s8 = self@;
        proof {
            lemma_wrote_concat(s0, s1, s2, push_bytes(Reg::Rbp), mov_rr_bytes(Reg::Rbp, Reg::Rsp));
            lemma_wrote_concat(s0, s2, s3, push_bytes(Reg::Rbp) + mov_rr_bytes(Reg::Rbp, Reg::Rsp), push_bytes(Reg::Rbx));
            lemma_wrote_concat(s0, s3, s4, push_bytes(Reg::Rbp) + mov_rr_bytes(Reg::Rbp, Reg::Rsp) + push_bytes(Reg::Rbx), push_bytes(Reg::R12));
            lemma_wrote_concat(s0, s4, s5, push_bytes(Reg::Rbp) + mov_rr_bytes(Reg::Rbp, Reg::Rsp) + push_bytes(Reg::Rbx) + push_bytes(Reg::R12), push_bytes(Reg::R13));
            lemma_wrote_concat(s0, s5, s6, push_bytes(Reg::Rbp) + mov_rr_bytes(Reg::Rbp, Reg::Rsp) + push_bytes(Reg::Rbx) + push_bytes(Reg::R12) + push_bytes(Reg::R13), push_bytes(Reg::R14));
            lemma_wrote_concat(s0, s6, s7, push_bytes(Reg::Rbp) + mov_rr_bytes(Reg::Rbp, Reg::Rsp) + push_bytes(Reg::Rbx) + push_bytes(Reg::R12) + push_bytes(Reg::R13) + push_bytes(Reg::R14), push_bytes(Reg::R15));
            lemma_wrote_concat(s0, s7, s8, push_bytes(Reg::Rbp) + mov_rr_bytes(Reg::Rbp, Reg::Rsp) + push_bytes(Reg::Rbx) + push_bytes(Reg::R12) + push_bytes(Reg::R13) + push_bytes(Reg::R14) + push_bytes(Reg::R15), rsp_imm_bytes(0xEC, 8));
        }
    }

    /// Standard System-V epilogue, the mirror of the prologue, ending in
    /// `ret` (see `epilogue_bytes`).
    pub fn emit_epilogue(&mut self)
        requires
            old(self).wf(),
        ensures
            final(self).wf(),
            wrote(old(self)@, final(self)@, epilogue_bytes()),
    {
        let ghost s0 = self@;
        self.emit_add_rsp_i8(8);
        let ghost s1 = self@;
        self.emit_pop(Reg::R15);
        let ghost s2 = self@;
        self.emit_pop(Reg::R14);
        let ghost s3 = self@;
        self.emit_pop(Reg::R13);
        let ghost s4 = self@;
        self.emit_pop(Reg::R12);
        let ghost s5 = self@;
        self.emit_pop(Reg::Rbx);
        let ghost s6 = self@;
        self.emit_pop(Reg::Rbp);
        let ghost s7 = self@;
        self.emit_ret();
        let ghost s8 = self@;
        proof {
            lemma_wrote_concat(s0, s1, s2, rsp_imm_bytes(0xC4, 8), pop_bytes(Reg::R15));
            lemma_wrote_concat(s0, s2, s3, rsp_imm_bytes(0xC4, 8) + pop_bytes(Reg::R15), pop_bytes(Reg::R14));
            lemma_wrote_concat(s0, s3, s4, rsp_imm_bytes(0xC4, 8) + pop_bytes(Reg::R15) + pop_bytes(Reg::R14), pop_bytes(Reg::R13));
            lemma_wrote_concat(s0, s4, s5, rsp_imm_bytes(0xC4, 8) + pop_bytes(Reg::R15) + pop_bytes(Reg::R14) + pop_bytes(Reg::R13), pop_bytes(Reg::R12));
            lemma_wrote_concat(s0, s5, s6, rsp_imm_bytes(0xC4, 8) + pop_bytes(Reg::R15) + pop_bytes(Reg::R14) + pop_bytes(Reg::R13) + pop_bytes(Reg::R12), pop_bytes(Reg::Rbx));
            lemma_wrote_concat(s0, s6, s7, rsp_imm_bytes(0xC4, 8) + pop_bytes(Reg::R15) + pop_bytes(Reg::R14) + pop_bytes(Reg::R13) + pop_bytes(Reg::R12) + pop_bytes(Reg::Rbx), pop_bytes(Reg::Rbp));
            lemma_wrote_concat(s0, s7, s8, rsp_imm_bytes(0xC4, 8) + pop_bytes(Reg::R15) + pop_bytes(Reg::R14) + pop_bytes(Reg::R13) + pop_bytes(Reg::R12) + pop_bytes(Reg::Rbx) + pop_bytes(Reg::Rbp), seq![0xC3u8]);
        }
    }
}


/// The register-to-register operations the compiler emits, as the x86
/// manual names them.
pub enum X86Op {
    Add,
    Sub,
    Imul,
    And,
    Or,
    Xor,
    Shl,
    Shr,
    Sar,
    Mov,
}

/// An x86-64 instruction on two 64-bit registers, decoded as the x86 manual
/// gives its encodings: the operation, the register that receives the
/// result (and is the left operand), and the other operand's register (RCX,
/// number 1, whose low byte CL is the count, for a shift by CL).
///
/// REX.W prefix `0100 1R0B`; for `op r/m, reg` forms (`01`, `29`, `21`,
/// `09`, `31`) the destination is the r/m field, for `op reg, r/m` forms
/// (`03`, `2B`, `23`, `0B`, `33`, `0F AF`, and `8B`/`89` for `mov`) the
/// reg field; `D3 /4`, `/5`,
/// `/7` shift the r/m register left, right with zeros, and right with the
/// sign bit.
pub open spec fn x86_decode(code: Seq<u8>) -> Option<(X86Op, nat, nat)> {
    if code.len() >= 3 && 0x48 <= code[0] <= 0x4F {
        let r: nat = (code[0] as nat / 4) % 2;
        let b: nat = code[0] as nat % 2;
        let m: u8 = if code.len() == 4 { code[3] } else { code[2] };
        let reg: nat = (m as nat / 8) % 8 + 8 * r;
        let rm: nat = m as nat % 8 + 8 * b;
        let opc = code[1];
        if m < 0xC0 {
            None
        } else if code.len() == 4 {
            if opc == 0x0F && code[2] == 0xAF { Some((X86Op::Imul, reg, rm)) } else { None }
        } else if code.len() != 3 {
            None
        } else if opc == 0x03 {
            Some((X86Op::Add, reg, rm))
        } else if opc == 0x01 {
            Some((X86Op::Add, rm, reg))
        } else if opc == 0x2B {
            Some((X86Op::Sub, reg, rm))
        } else if opc == 0x29 {
            Some((X86Op::Sub, rm, reg))
        } else if opc == 0x23 {
            Some((X86Op::And, reg, rm))
        } else if opc == 0x21 {
            Some((X86Op::And, rm, reg))
        } else if opc == 0x0B {
            Some((X86Op::Or, reg, rm))
        } else if opc == 0x09 {
            Some((X86Op::Or, rm, reg))
        } else if opc == 0x33 {
            Some((X86Op::Xor, reg, rm))
        } else if opc == 0x31 {
            Some((X86Op::Xor, rm, reg))
        } else if opc == 0x8B {
            Some((X86Op::Mov, reg, rm))
        } else if opc == 0x89 {
            Some((X86Op::Mov, rm, reg))
        } else if opc == 0xD3 {
            let ext = (m as nat / 8) % 8;
            if ext == 4 {
                Some((X86Op::Shl, rm, 1))
            } else if ext == 5 {
                Some((X86Op::Shr, rm, 1))
            } else if ext == 7 {
                Some((X86Op::Sar, rm, 1))
            } else {
                None
            }
        } else {
            None
        }
    } else {
        None
    }
}

/// The register-to-register encoders produce, for any registers, the
/// instruction they are named for: `03` adds, `2B` subtracts the source
/// from the destination, `23`/`0B`/`33` and/or/xor, `0F AF` multiplies,
/// and `D3 /4`, `/5`, `/7` shift left, right with zeros and right with the
/// sign bit by CL.
#[verifier::rlimit(40)]
pub proof fn lemma_rr_encodings_decode(dst: Reg, src: Reg)
    ensures
        x86_decode(alu_rr_bytes(0x03, dst, src)) == Some((X86Op::Add, reg_index(dst) as nat, reg_index(src) as nat)),
        x86_decode(alu_rr_bytes(0x2B, dst, src)) == Some((X86Op::Sub, reg_index(dst) as nat, reg_index(src) as nat)),
        x86_decode(alu_rr_bytes(0x23, dst, src)) == Some((X86Op::And, reg_index(dst) as nat, reg_index(src) as nat)),
        x86_decode(alu_rr_bytes(0x0B, dst, src)) == Some((X86Op::Or, reg_index(dst) as nat, reg_index(src) as nat)),
        x86_decode(alu_rr_bytes(0x33, dst, src)) == Some((X86Op::Xor, reg_index(dst) as nat, reg_index(src) as nat)),
        x86_decode(imul_bytes(dst, src)) == Some((X86Op::Imul, reg_index(dst) as nat, reg_index(src) as nat)),
        x86_decode(shift_cl_bytes(0xE0, dst)) == Some((X86Op::Shl, reg_index(dst) as nat, 1nat)),
        x86_decode(shift_cl_bytes(0xE8, dst)) == Some((X86Op::Shr, reg_index(dst) as nat, 1nat)),
        x86_decode(shift_cl_bytes(0xF8, dst)) == Some((X86Op::Sar, reg_index(dst) as nat, 1nat)),
{
    lemma_rr_fields(dst, src);
    lemma_rr_fields(Reg::Rcx, dst);
    lemma_shift_field(dst, 0xE0);
    lemma_shift_field(dst, 0xE8);
    lemma_shift_field(dst, 0xF8);
}

/// The fields a decoder reads back from a REX prefix and a register-direct
/// ModRM byte are the registers they were built from.
proof fn lemma_rr_fields(reg: Reg, rm: Reg)
    ensures
        0x48 <= rex_rr(reg, rm) <= 0x4F,
        modrm_rr(reg, rm) >= 0xC0,
        (modrm_rr(reg, rm) as nat / 8) % 8 + 8 * ((rex_rr(reg, rm) as nat / 4) % 2) == reg_index(reg),
        modrm_rr(reg, rm) as nat % 8 + 8 * (rex_rr(reg, rm) as nat % 2) == reg_index(rm),
{
    let d = reg_index(reg) as nat;
    let t = reg_index(rm) as nat;
    assert(d < 16 && t < 16);
    let rex: nat = 0x48 + (if d >= 8 { 4nat } else { 0 }) + (if t >= 8 { 1nat } else { 0 });
    let m: nat = 192 + (d % 8) * 8 + t % 8;
    assert(rex_rr(reg, rm) as nat == rex);
    assert(modrm_rr(reg, rm) as nat == m);
    assert((m / 8) % 8 == d % 8 && m % 8 == t % 8) by (nonlinear_arith)
        requires
            m == 192 + (d % 8) * 8 + t % 8,
    ;
    assert((rex / 4) % 2 == (if d >= 8 { 1nat } else { 0 }) && rex % 2 == (if t >= 8 { 1nat } else { 0 }));
}

/// The ModRM byte of a shift by CL names its operation in the reg field and
/// its register in the r/m field.
proof fn lemma_shift_field(r: Reg, ext: u8)
    requires
        ext == 0xE0 || ext == 0xE8 || ext == 0xF8,
    ensures
        ((ext + reg_enc(r)) as u8) as nat / 8 % 8 == (ext as nat / 8) % 8,
        ((ext + reg_enc(r)) as u8) as nat % 8 == reg_enc(r),
        ((ext + reg_enc(r)) as u8) >= 0xC0,
{
    assert(reg_enc(r) < 8);
}


/// `mov_rr_bytes(dst, src)` copies `src` into `dst`, for any registers.
pub proof fn lemma_mov_encoding_decodes(dst: Reg, src: Reg)
    ensures
        x86_decode(mov_rr_bytes(dst, src)) == Some((X86Op::Mov, reg_index(dst) as nat, reg_index(src) as nat)),
{
    lemma_rr_fields(src, dst);
}

/// A one-byte `push r` (`50+r`) or `pop r` (`58+r`), with a `41` prefix
/// for R8–R15, decoded as the x86 manual gives it: whether it pushes, and
/// the register.
pub open spec fn x86_stack_decode(code: Seq<u8>) -> Option<(bool, nat)> {
    let (hi, op) = if code.len() == 2 && code[0] == 0x41 {
        (8nat, code[1])
    } else if code.len() == 1 {
        (0nat, code[0])
    } else {
        (0nat, 0u8)
    };
    if (code.len() == 1 || (code.len() == 2 && code[0] == 0x41)) && 0x50 <= op <= 0x5F {
        Some((op < 0x58, hi + (op as nat % 8)))
    } else {
        None
    }
}

/// `push_bytes` pushes and `pop_bytes` pops the register they are given,
/// any of the sixteen.
pub proof fn lemma_stack_encodings_decode(r: Reg)
    ensures
        x86_stack_decode(push_bytes(r)) == Some((true, reg_index(r) as nat)),
        x86_stack_decode(pop_bytes(r)) == Some((false, reg_index(r) as nat)),
{
    assert(reg_index(r) < 16);
    assert(reg_enc(r) as nat == reg_index(r) as nat % 8);
}

} // verus!
