//! The JIT compiler for straight-line WASM bodies: constants, locals,
//! integer arithmetic, `drop`, `nop` and `return`; anything else is left to
//! the interpreter.
//!
//! Generated code follows the System V AMD64 convention: RDI, RSI and RDX
//! carry the linear-memory, globals and locals bases, which the code keeps
//! in R15, R14 and R13; R12 holds the stack pointer at entry, so that a
//! return can drop whatever the body left on the operand stack, which is
//! the machine stack itself. Local `i` lives at `[R13 + 8 * i]`.
use vstd::prelude::*;
use crate::jit::emit::{CodeBuf, Reg, X86Op, x86_decode, lemma_rr_encodings_decode, x86_stack_decode,
    lemma_stack_encodings_decode, lemma_mov_encoding_decodes, wrote, lemma_wrote_concat, put, fit, prologue_bytes,
    epilogue_bytes, mov_rr_bytes, mov_ri64_bytes, mov_ri32_bytes, push_bytes, pop_bytes, mem_bytes,
    alu_rr_bytes, imul_bytes, shift_cl_bytes, rsp_imm_bytes};
use crate::leb128::{read_u32_leb128, read_i32_leb128, read_i64_leb128, uleb32_decode, sleb32_decode,
    sleb64_decode};
use crate::wasm::opcode::{OP_I32_CONST, OP_I64_CONST, OP_LOCAL_GET, OP_LOCAL_SET, OP_LOCAL_TEE,
    OP_I32_ADD, OP_I32_SUB, OP_I32_MUL, OP_I32_AND, OP_I32_OR, OP_I32_XOR, OP_I32_SHL, OP_I32_SHR_U,
    OP_I32_SHR_S, OP_DROP, OP_RETURN, OP_END, OP_NOP};

verus! {

/// The code that returns from a compiled function: with one result, pop it
/// into RAX; restore RSP from R12; with none, clear RAX; then the epilogue.
pub open spec fn ret_bytes(rc: usize) -> Seq<u8> {
    (if rc > 0 { pop_bytes(Reg::Rax) } else { Seq::empty() }) + mov_rr_bytes(Reg::Rsp, Reg::R12) + (if rc
        == 0 { mov_ri32_bytes(Reg::Rax, 0) } else { Seq::empty() }) + epilogue_bytes()
}

/// Moving the three arguments into R15, R14, R13 and saving RSP in R12.
pub open spec fn setup_bytes() -> Seq<u8> {
    mov_rr_bytes(Reg::R15, Reg::Rdi) + mov_rr_bytes(Reg::R14, Reg::Rsi) + mov_rr_bytes(Reg::R13, Reg::Rdx)
        + mov_rr_bytes(Reg::R12, Reg::Rsp)
}

/// Whether `op` is one of the binary integer operations compiled here.
pub open spec fn is_binop(op: u8) -> bool {
    op == OP_I32_ADD || op == OP_I32_SUB || op == OP_I32_MUL || op == OP_I32_AND || op == OP_I32_OR
        || op == OP_I32_XOR || op == OP_I32_SHL || op == OP_I32_SHR_U || op == OP_I32_SHR_S
}

/// The instruction combining RAX (left operand) with RCX (right operand).
pub open spec fn binop_core(op: u8) -> Seq<u8> {
    if op == OP_I32_ADD {
        alu_rr_bytes(0x03, Reg::Rax, Reg::Rcx)
    } else if op == OP_I32_SUB {
        alu_rr_bytes(0x2B, Reg::Rax, Reg::Rcx)
    } else if op == OP_I32_MUL {
        imul_bytes(Reg::Rax, Reg::Rcx)
    } else if op == OP_I32_AND {
        alu_rr_bytes(0x23, Reg::Rax, Reg::Rcx)
    } else if op == OP_I32_OR {
        alu_rr_bytes(0x0B, Reg::Rax, Reg::Rcx)
    } else if op == OP_I32_XOR {
        alu_rr_bytes(0x33, Reg::Rax, Reg::Rcx)
    } else if op == OP_I32_SHL {
        shift_cl_bytes(0xE0, Reg::Rax)
    } else if op == OP_I32_SHR_U {
        shift_cl_bytes(0xE8, Reg::Rax)
    } else {
        shift_cl_bytes(0xF8, Reg::Rax)
    }
}

/// A binary operation on the operand stack: pop the right operand into
/// RCX and the left into RAX, combine, push RAX.
pub open spec fn binop_bytes(op: u8) -> Seq<u8> {
    pop_bytes(Reg::Rcx) + pop_bytes(Reg::Rax) + binop_core(op) + push_bytes(Reg::Rax)
}

/// The displacement of local `idx` from the locals base.
pub open spec fn local_off(idx: u32) -> i32 {
    (idx * 8) as i32
}

/// Pushing a 64-bit constant through RAX.
pub open spec fn push_const_bytes(v: u64) -> Seq<u8> {
    mov_ri64_bytes(Reg::Rax, v) + push_bytes(Reg::Rax)
}

/// `local.get`: load the local into RAX and push it.
pub open spec fn local_get_bytes(idx: u32) -> Seq<u8> {
    mem_bytes(0x8B, Reg::Rax, Reg::R13, local_off(idx)) + push_bytes(Reg::Rax)
}

/// `local.set`: pop into RAX and store it in the local.
pub open spec fn local_set_bytes(idx: u32) -> Seq<u8> {
    pop_bytes(Reg::Rax) + mem_bytes(0x89, Reg::Rax, Reg::R13, local_off(idx))
}

/// `local.tee`: like `local.set`, but the value stays on the stack.
pub open spec fn local_tee_bytes(idx: u32) -> Seq<u8> {
    pop_bytes(Reg::Rax) + push_bytes(Reg::Rax) + mem_bytes(0x89, Reg::Rax, Reg::R13, local_off(idx))
}

/// An offset into `body`, with any offset past the end taken as the end.
pub open spec fn adv(body: Seq<u8>, j: int) -> int {
    if j > body.len() { body.len() as int } else { j }
}

/// Compiling `body` from offset `ip` on: whether every instruction there
/// is supported, and the code emitted. An unsupported instruction, a
/// truncated immediate or an `end` before the last byte stops compilation
/// with failure (what was emitted before it stays); an explicit `return`,
/// the final `end`, or running off the end of the body emits the return
/// sequence and succeeds.
pub open spec fn jit_from(body: Seq<u8>, ip: int, rc: usize) -> (bool, Seq<u8>)
    decreases body.len() - ip,
{
    if ip < 0 || ip >= body.len() {
        (true, ret_bytes(rc))
    } else {
        let op = body[ip];
        let imm = body.skip(ip + 1);
        if op == OP_I32_CONST {
            match sleb32_decode(imm) {
                None => (false, Seq::empty()),
                Some((v, sz)) => {
                    let t = jit_from(body, adv(body, ip + 1 + sz), rc);
                    (t.0, push_const_bytes(v as i64 as u64) + t.1)
                },
            }
        } else if op == OP_I64_CONST {
            match sleb64_decode(imm) {
                None => (false, Seq::empty()),
                Some((v, sz)) => {
                    let t = jit_from(body, adv(body, ip + 1 + sz), rc);
                    (t.0, push_const_bytes(v as u64) + t.1)
                },
            }
        } else if op == OP_LOCAL_GET || op == OP_LOCAL_SET || op == OP_LOCAL_TEE {
            match uleb32_decode(imm) {
                None => (false, Seq::empty()),
                Some((idx, sz)) => {
                    let t = jit_from(body, adv(body, ip + 1 + sz), rc);
                    let code = if op == OP_LOCAL_GET {
                        local_get_bytes(idx)
                    } else if op == OP_LOCAL_SET {
                        local_set_bytes(idx)
                    } else {
                        local_tee_bytes(idx)
                    };
                    (t.0, code + t.1)
                },
            }
        } else if is_binop(op) {
            let t = jit_from(body, ip + 1, rc);
            (t.0, binop_bytes(op) + t.1)
        } else if op == OP_DROP {
            let t = jit_from(body, ip + 1, rc);
            (t.0, rsp_imm_bytes(0xC4, 8) + t.1)
        } else if op == OP_NOP {
            jit_from(body, ip + 1, rc)
        } else if op == OP_RETURN {
            (true, ret_bytes(rc))
        } else if op == OP_END {
            if ip + 1 == body.len() {
                (true, ret_bytes(rc))
            } else {
                (false, Seq::empty())
            }
        } else {
            (false, Seq::empty())
        }
    }
}

/// What compiling a body with `rc` results does: more than one result is
/// refused with nothing emitted; else the prologue, the register setup and
/// the compiled body (`jit_from`).
pub open spec fn jit_output(body: Seq<u8>, rc: usize) -> (bool, Seq<u8>) {
    if rc > 1 {
        (false, Seq::empty())
    } else {
        let t = jit_from(body, 0, rc);
        (t.0, prologue_bytes() + setup_bytes() + t.1)
    }
}

fn emit_push_const(buf: &mut CodeBuf, v: u64)
    requires
        old(buf).wf(),
    ensures
        final(buf).wf(),
        wrote(old(buf)@, final(buf)@, push_const_bytes(v)),
{
    let ghost s0 = buf@;
    buf.emit_mov_ri64(Reg::Rax, v);
    let ghost s1 = buf@;
    buf.emit_push(Reg::Rax);
    proof {
        lemma_wrote_concat(s0, s1, buf@, mov_ri64_bytes(Reg::Rax, v), push_bytes(Reg::Rax));
    }
}

fn emit_local_op(buf: &mut CodeBuf, op: u8, idx: u32)
    requires
        old(buf).wf(),
    ensures
        final(buf).wf(),
        wrote(old(buf)@, final(buf)@, if op == OP_LOCAL_GET {
            local_get_bytes(idx)
        } else if op == OP_LOCAL_SET {
            local_set_bytes(idx)
        } else {
            local_tee_bytes(idx)
        }),
{
    let offset = ((idx as u64) * 8) as i32;
    assert(offset == local_off(idx));
    let ghost s0 = buf@;
    if op == OP_LOCAL_GET {
        buf.emit_load_mem(Reg::Rax, Reg::R13, offset);
        let ghost s1 = buf@;
        buf.emit_push(Reg::Rax);
        proof {
            lemma_wrote_concat(s0, s1, buf@, mem_bytes(0x8B, Reg::Rax, Reg::R13, offset), push_bytes(
                Reg::Rax));
        }
    } else if op == OP_LOCAL_SET {
        buf.emit_pop(Reg::Rax);
        let ghost s1 = buf@;
        buf.emit_store_mem(Reg::Rax, Reg::R13, offset);
        proof {
            lemma_wrote_concat(s0, s1, buf@, pop_bytes(Reg::Rax), mem_bytes(0x89, Reg::Rax, Reg::R13,
                offset));
        }
    } else {
        buf.emit_pop(Reg::Rax);
        let ghost s1 = buf@;
        buf.emit_push(Reg::Rax);
        let ghost s2 = buf@;
        buf.emit_store_mem(Reg::Rax, Reg::R13, offset);
        proof {
            lemma_wrote_concat(s0, s1, s2, pop_bytes(Reg::Rax), push_bytes(Reg::Rax));
            lemma_wrote_concat(s0, s2, buf@, pop_bytes(Reg::Rax) + push_bytes(Reg::Rax), mem_bytes(0x89,
                Reg::Rax, Reg::R13, offset));
        }
    }
}

fn emit_binop(buf: &mut CodeBuf, op: u8)
    requires
        old(buf).wf(),
        is_binop(op),
    ensures
        final(buf).wf(),
        wrote(old(buf)@, final(buf)@, binop_bytes(op)),
{
    let ghost s0 = buf@;
    buf.emit_pop(Reg::Rcx);
    let ghost s1 = buf@;
    buf.emit_pop(Reg::Rax);
    let ghost s2 = buf@;
    if op == OP_I32_ADD {
        buf.emit_add_rr(Reg::Rax, Reg::Rcx);
    } else if op == OP_I32_SUB {
        buf.emit_sub_rr(Reg::Rax, Reg::Rcx);
    } else if op == OP_I32_MUL {
        buf.emit_imul_rr(Reg::Rax, Reg::Rcx);
    } else if op == OP_I32_AND {
        buf.emit_and_rr(Reg::Rax, Reg::Rcx);
    } else if op == OP_I32_OR {
        buf.emit_or_rr(Reg::Rax, Reg::Rcx);
    } else if op == OP_I32_XOR {
        buf.emit_xor_rr(Reg::Rax, Reg::Rcx);
    } else if op == OP_I32_SHL {
        buf.emit_shl_rcx(Reg::Rax);
    } else if op == OP_I32_SHR_U {
        buf.emit_shr_rcx(Reg::Rax);
    } else {
        buf.emit_sar_rcx(Reg::Rax);
    }
    let ghost s3 = buf@;
    buf.emit_push(Reg::Rax);
    proof {
        lemma_wrote_concat(s0, s1, s2, pop_bytes(Reg::Rcx), pop_bytes(Reg::Rax));
        lemma_wrote_concat(s0, s2, s3, pop_bytes(Reg::Rcx) + pop_bytes(Reg::Rax), binop_core(op));
        lemma_wrote_concat(s0, s3, buf@, pop_bytes(Reg::Rcx) + pop_bytes(Reg::Rax) + binop_core(op),
            push_bytes(Reg::Rax));
    }
}

/// Emit the return sequence (see `ret_bytes`).
fn emit_return(buf: &mut CodeBuf, result_count: usize)
    requires
        old(buf).wf(),
    ensures
        final(buf).wf(),
        wrote(old(buf)@, final(buf)@, ret_bytes(result_count)),
{
    let ghost s0 = buf@;
    if result_count > 0 {
        buf.emit_pop(Reg::Rax);
    } else {
        assert(buf@.bytes =~= put(s0.bytes, s0.cursor, Seq::empty()));
    }
    let ghost p1 = if result_count > 0 { pop_bytes(Reg::Rax) } else { Seq::<u8>::empty() };
    let ghost s1 = buf@;
    buf.emit_mov_rr(Reg::Rsp, Reg::R12);
    let ghost s2 = buf@;
    if result_count == 0 {
        buf.emit_mov_ri32(Reg::Rax, 0);
    } else {
        assert(buf@.bytes =~= put(s2.bytes, s2.cursor, Seq::empty()));
    }
    let ghost p3 = if result_count == 0 { mov_ri32_bytes(Reg::Rax, 0) } else { Seq::<u8>::empty() };
    let ghost s3 = buf@;
    buf.emit_epilogue();
    proof {
        lemma_wrote_concat(s0, s1, s2, p1, mov_rr_bytes(Reg::Rsp, Reg::R12));
        lemma_wrote_concat(s0, s2, s3, p1 + mov_rr_bytes(Reg::Rsp, Reg::R12), p3);
        lemma_wrote_concat(s0, s3, buf@, p1 + mov_rr_bytes(Reg::Rsp, Reg::R12) + p3, epilogue_bytes());
    }
}

fn emit_setup(buf: &mut CodeBuf)
    requires
        old(buf).wf(),
    ensures
        final(buf).wf(),
        wrote(old(buf)@, final(buf)@, prologue_bytes() + setup_bytes()),
{
    let ghost s0 = buf@;
    buf.emit_prologue();
    let ghost s1 = buf@;
    buf.emit_mov_rr(Reg::R15, Reg::Rdi);
    let ghost s2 = buf@;
    buf.emit_mov_rr(Reg::R14, Reg::Rsi);
    let ghost s3 = buf@;
    buf.emit_mov_rr(Reg::R13, Reg::Rdx);
    let ghost s4 = buf@;
    buf.emit_mov_rr(Reg::R12, Reg::Rsp);
    proof {
        let a = prologue_bytes();
        let b = mov_rr_bytes(Reg::R15, Reg::Rdi);
        let c = mov_rr_bytes(Reg::R14, Reg::Rsi);
        let d = mov_rr_bytes(Reg::R13, Reg::Rdx);
        let e = mov_rr_bytes(Reg::R12, Reg::Rsp);
        lemma_wrote_concat(s0, s1, s2, a, b);
        lemma_wrote_concat(s0, s2, s3, a + b, c);
        lemma_wrote_concat(s0, s3, s4, a + b + c, d);
        lemma_wrote_concat(s0, s4, buf@, a + b + c + d, e);
        assert(a + b + c + d + e =~= a + setup_bytes());
    }
}


/// JIT-compile a WASM function body (the bytecode after the local
/// declarations) for a function with `result_count` results into `buf`.
/// Returns `true` when every instruction was supported (see
/// `jit_output`); on `false` the caller falls back to the interpreter.
pub fn jit_compile_body(body: &[u8], _locals_count: usize, result_count: usize, buf: &mut CodeBuf) -> (ok: bool)
    requires
        old(buf).wf(),
    ensures
        final(buf).wf(),
        ok == jit_output(body@, result_count).0,
        wrote(old(buf)@, final(buf)@, jit_output(body@, result_count).1),
{
    if result_count > 1 {
        assert(buf@.bytes =~= put(old(buf)@.bytes, old(buf)@.cursor, Seq::empty()));
        return false;
    }
    emit_setup(buf);
    let ghost head = prologue_bytes() + setup_bytes();
    let ghost mut done: Seq<u8> = Seq::empty();
    let mut ip: usize = 0;
    assert(head + done =~= head);
    assert(done + jit_from(body@, 0, result_count).1 =~= jit_from(body@, 0, result_count).1);
    while ip < body.len()
        invariant
            buf.wf(),
            old(buf).wf(),
            result_count <= 1,
            ip <= body@.len(),
            head == prologue_bytes() + setup_bytes(),
            wrote(old(buf)@, buf@, head + done),
            jit_from(body@, 0, result_count) == (jit_from(body@, ip as int, result_count).0, done
                + jit_from(body@, ip as int, result_count).1),
        decreases body@.len() - ip,
    {
        let ghost before = buf@;
        let ghost rest = jit_from(body@, ip as int, result_count);
        let op = body[ip];
        let imm = vstd::slice::slice_subrange(body, ip + 1, body.len());
        assert(imm@ =~= body@.skip(ip + 1));
        let ghost piece: Seq<u8>;
        if op == OP_I32_CONST {
            let (val, sz) = match read_i32_leb128(imm) {
                Some(d) => d,
                None => {
                    assert(done + Seq::<u8>::empty() =~= done);
                    return false;
                },
            };
            emit_push_const(buf, val as i64 as u64);
            proof {
                piece = push_const_bytes(val as i64 as u64);
            }
            ip = ip + 1 + sz;
        } else if op == OP_I64_CONST {
            let (val, sz) = match read_i64_leb128(imm) {
                Some(d) => d,
                None => {
                    assert(done + Seq::<u8>::empty() =~= done);
                    return false;
                },
            };
            emit_push_const(buf, val as u64);
            proof {
                piece = push_const_bytes(val as u64);
            }
            ip = ip + 1 + sz;
        } else if op == OP_LOCAL_GET || op == OP_LOCAL_SET || op == OP_LOCAL_TEE {
            let (idx, sz) = match read_u32_leb128(imm) {
                Some(d) => d,
                None => {
                    assert(done + Seq::<u8>::empty() =~= done);
                    return false;
                },
            };
            emit_local_op(buf, op, idx);
            proof {
                piece = if op == OP_LOCAL_GET {
                    local_get_bytes(idx)
                } else if op == OP_LOCAL_SET {
                    local_set_bytes(idx)
                } else {
                    local_tee_bytes(idx)
                };
            }
            ip = ip + 1 + sz;
        } else if op == OP_I32_ADD || op == OP_I32_SUB || op == OP_I32_MUL || op == OP_I32_AND || op
            == OP_I32_OR || op == OP_I32_XOR || op == OP_I32_SHL || op == OP_I32_SHR_U || op
            == OP_I32_SHR_S {
            emit_binop(buf, op);
            proof {
                piece = binop_bytes(op);
            }
            ip = ip + 1;
        } else if op == OP_DROP {
            buf.emit_add_rsp_i8(8);
            proof {
                piece = rsp_imm_bytes(0xC4, 8);
            }
            ip = ip + 1;
        } else if op == OP_RETURN {
            emit_return(buf, result_count);
            proof {
                lemma_wrote_concat(old(buf)@, before, buf@, head + done, ret_bytes(result_count));
                assert(head + done + ret_bytes(result_count) =~= head + (done + ret_bytes(result_count)));
            }
            return true;
        } else if op == OP_END {
            ip = ip + 1;
            if ip == body.len() {
                emit_return(buf, result_count);
                proof {
                    lemma_wrote_concat(old(buf)@, before, buf@, head + done, ret_bytes(result_count));
                    assert(head + done + ret_bytes(result_count) =~= head + (done + ret_bytes(
                        result_count)));
                }
                return true;
            }
            assert(done + Seq::<u8>::empty() =~= done);
            return false;
        } else if op == OP_NOP {
            proof {
                piece = Seq::empty();
                assert(buf@.bytes =~= put(before.bytes, before.cursor, piece));
            }
            ip = ip + 1;
        } else {
            assert(done + Seq::<u8>::empty() =~= done);
            return false;
        }
        proof {
            lemma_wrote_concat(old(buf)@, before, buf@, head + done, piece);
            assert(head + done + piece =~= head + (done + piece));
            let next = jit_from(body@, ip as int, result_count);
            assert(rest == (next.0, piece + next.1));
            assert(done + (piece + next.1) =~= done + piece + next.1);
            done = done + piece;
        }
    }
    let ghost before = buf@;
    emit_return(buf, result_count);
    proof {
        lemma_wrote_concat(old(buf)@, before, buf@, head + done, ret_bytes(result_count));
        assert(head + done + ret_bytes(result_count) =~= head + (done + ret_bytes(result_count)));
    }
    true
}


/// The instruction compiled for each wasm binary operator is, decoded as
/// x86, that operator with RAX (the left operand, which receives the result)
/// and RCX (the right operand, the count for shifts): `i32.add` adds,
/// `i32.sub` subtracts the right from the left, `i32.mul` multiplies,
/// `i32.and`/`or`/`xor` combine bits, `i32.shl` shifts left, `i32.shr_u`
/// shifts right bringing in zeros and `i32.shr_s` shifts right copying the
/// sign bit.
pub proof fn lemma_binop_code_decodes()
    ensures
        x86_decode(binop_core(OP_I32_ADD)) == Some((X86Op::Add, 0nat, 1nat)),
        x86_decode(binop_core(OP_I32_SUB)) == Some((X86Op::Sub, 0nat, 1nat)),
        x86_decode(binop_core(OP_I32_MUL)) == Some((X86Op::Imul, 0nat, 1nat)),
        x86_decode(binop_core(OP_I32_AND)) == Some((X86Op::And, 0nat, 1nat)),
        x86_decode(binop_core(OP_I32_OR)) == Some((X86Op::Or, 0nat, 1nat)),
        x86_decode(binop_core(OP_I32_XOR)) == Some((X86Op::Xor, 0nat, 1nat)),
        x86_decode(binop_core(OP_I32_SHL)) == Some((X86Op::Shl, 0nat, 1nat)),
        x86_decode(binop_core(OP_I32_SHR_U)) == Some((X86Op::Shr, 0nat, 1nat)),
        x86_decode(binop_core(OP_I32_SHR_S)) == Some((X86Op::Sar, 0nat, 1nat)),
{
    lemma_rr_encodings_decode(Reg::Rax, Reg::Rcx);
}

/// A compiled binary operator takes its right operand (the top of the
/// operand stack) into RCX first, then its left operand into RAX, and
/// pushes the result from RAX after the operation.
pub proof fn lemma_binop_stack_order(op: u8)
    requires
        is_binop(op),
    ensures
        ({
            let c = binop_bytes(op);
            &&& x86_stack_decode(c.subrange(0, 1)) == Some((false, 1nat))
            &&& x86_stack_decode(c.subrange(1, 2)) == Some((false, 0nat))
            &&& c.subrange(2, c.len() - 1) == binop_core(op)
            &&& x86_stack_decode(c.subrange(c.len() - 1, c.len() as int)) == Some((true, 0nat))
        }),
{
    lemma_stack_encodings_decode(Reg::Rcx);
    lemma_stack_encodings_decode(Reg::Rax);
    let c = binop_bytes(op);
    let n = binop_core(op).len();
    assert(pop_bytes(Reg::Rcx).len() == 1 && pop_bytes(Reg::Rax).len() == 1 && push_bytes(Reg::Rax).len() == 1);
    assert(c.subrange(0, 1) =~= pop_bytes(Reg::Rcx));
    assert(c.subrange(1, 2) =~= pop_bytes(Reg::Rax));
    assert(c.subrange(2, c.len() - 1) =~= binop_core(op));
    assert(c.subrange(c.len() - 1, c.len() as int) =~= push_bytes(Reg::Rax));
}

/// The setup keeps the three arguments (RDI, RSI, RDX in the System V
/// calling convention) in R15, R14 and R13, and the stack pointer in R12.
pub proof fn lemma_setup_moves()
    ensures
        x86_decode(setup_bytes().subrange(0, 3)) == Some((X86Op::Mov, 15nat, 7nat)),
        x86_decode(setup_bytes().subrange(3, 6)) == Some((X86Op::Mov, 14nat, 6nat)),
        x86_decode(setup_bytes().subrange(6, 9)) == Some((X86Op::Mov, 13nat, 2nat)),
        x86_decode(setup_bytes().subrange(9, 12)) == Some((X86Op::Mov, 12nat, 4nat)),
{
    lemma_mov_encoding_decodes(Reg::R15, Reg::Rdi);
    lemma_mov_encoding_decodes(Reg::R14, Reg::Rsi);
    lemma_mov_encoding_decodes(Reg::R13, Reg::Rdx);
    lemma_mov_encoding_decodes(Reg::R12, Reg::Rsp);
    let s = setup_bytes();
    assert(s.subrange(0, 3) =~= mov_rr_bytes(Reg::R15, Reg::Rdi));
    assert(s.subrange(3, 6) =~= mov_rr_bytes(Reg::R14, Reg::Rsi));
    assert(s.subrange(6, 9) =~= mov_rr_bytes(Reg::R13, Reg::Rdx));
    assert(s.subrange(9, 12) =~= mov_rr_bytes(Reg::R12, Reg::Rsp));
}
} // verus!
