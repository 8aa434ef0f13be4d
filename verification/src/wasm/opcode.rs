//! WebAssembly opcode bytes.
use vstd::prelude::*;

verus! {

pub const OP_UNREACHABLE: u8 = 0x00;
pub const OP_NOP: u8 = 0x01;
pub const OP_BLOCK: u8 = 0x02;
pub const OP_LOOP: u8 = 0x03;
pub const OP_IF: u8 = 0x04;
pub const OP_ELSE: u8 = 0x05;
pub const OP_END: u8 = 0x0B;
pub const OP_BR: u8 = 0x0C;
pub const OP_BR_IF: u8 = 0x0D;
pub const OP_BR_TABLE: u8 = 0x0E;
pub const OP_RETURN: u8 = 0x0F;
pub const OP_CALL: u8 = 0x10;
pub const OP_CALL_INDIRECT: u8 = 0x11;
pub const OP_DROP: u8 = 0x1A;
pub const OP_SELECT: u8 = 0x1B;
pub const OP_LOCAL_GET: u8 = 0x20;
pub const OP_LOCAL_SET: u8 = 0x21;
pub const OP_LOCAL_TEE: u8 = 0x22;
pub const OP_GLOBAL_GET: u8 = 0x23;
pub const OP_GLOBAL_SET: u8 = 0x24;
pub const OP_I32_LOAD: u8 = 0x28;
pub const OP_I32_LOAD8_U: u8 = 0x2D;
pub const OP_I32_STORE: u8 = 0x36;
pub const OP_I32_STORE8: u8 = 0x3A;
pub const OP_MEMORY_SIZE: u8 = 0x3F;
pub const OP_MEMORY_GROW: u8 = 0x40;
pub const OP_I32_CONST: u8 = 0x41;
pub const OP_I32_EQZ: u8 = 0x45;
pub const OP_I32_EQ: u8 = 0x46;
pub const OP_I32_NE: u8 = 0x47;
pub const OP_I32_LT_S: u8 = 0x48;
pub const OP_I32_LT_U: u8 = 0x49;
pub const OP_I32_GT_S: u8 = 0x4A;
pub const OP_I32_GT_U: u8 = 0x4B;
pub const OP_I32_LE_S: u8 = 0x4C;
pub const OP_I32_LE_U: u8 = 0x4D;
pub const OP_I32_GE_S: u8 = 0x4E;
pub const OP_I32_GE_U: u8 = 0x4F;
pub const OP_I32_CLZ: u8 = 0x67;
pub const OP_I32_CTZ: u8 = 0x68;
pub const OP_I32_POPCNT: u8 = 0x69;
pub const OP_I32_ADD: u8 = 0x6A;
pub const OP_I32_SUB: u8 = 0x6B;
pub const OP_I32_MUL: u8 = 0x6C;
pub const OP_I32_DIV_S: u8 = 0x6D;
pub const OP_I32_DIV_U: u8 = 0x6E;
pub const OP_I32_REM_S: u8 = 0x6F;
pub const OP_I32_REM_U: u8 = 0x70;
pub const OP_I32_AND: u8 = 0x71;
pub const OP_I32_OR: u8 = 0x72;
pub const OP_I32_XOR: u8 = 0x73;
pub const OP_I32_SHL: u8 = 0x74;
pub const OP_I32_SHR_S: u8 = 0x75;
pub const OP_I32_SHR_U: u8 = 0x76;
pub const OP_I32_ROTL: u8 = 0x77;
pub const OP_I32_ROTR: u8 = 0x78;
pub const OP_I64_CONST: u8 = 0x42;
pub const OP_I64_EQZ: u8 = 0x50;
pub const OP_I64_EQ: u8 = 0x51;
pub const OP_I64_NE: u8 = 0x52;
pub const OP_I64_LT_S: u8 = 0x53;
pub const OP_I64_LT_U: u8 = 0x54;
pub const OP_I64_GT_S: u8 = 0x55;
pub const OP_I64_GT_U: u8 = 0x56;
pub const OP_I64_LE_S: u8 = 0x57;
pub const OP_I64_LE_U: u8 = 0x58;
pub const OP_I64_GE_S: u8 = 0x59;
pub const OP_I64_GE_U: u8 = 0x5A;
pub const OP_I64_LOAD: u8 = 0x29;
pub const OP_I64_STORE: u8 = 0x37;
pub const OP_I64_CLZ: u8 = 0x79;
pub const OP_I64_CTZ: u8 = 0x7A;
pub const OP_I64_POPCNT: u8 = 0x7B;
pub const OP_I64_ADD: u8 = 0x7C;
pub const OP_I64_SUB: u8 = 0x7D;
pub const OP_I64_MUL: u8 = 0x7E;
pub const OP_I64_AND: u8 = 0x83;
pub const OP_I64_OR: u8 = 0x84;
pub const OP_I64_XOR: u8 = 0x85;
pub const OP_I64_SHL: u8 = 0x86;
pub const OP_I64_SHR_S: u8 = 0x87;
pub const OP_I64_SHR_U: u8 = 0x88;
pub const OP_I64_ROTL: u8 = 0x89;
pub const OP_I64_ROTR: u8 = 0x8A;
pub const OP_I32_LOAD8_S: u8 = 0x2C;
pub const OP_I32_LOAD16_S: u8 = 0x2E;
pub const OP_I32_LOAD16_U: u8 = 0x2F;
pub const OP_I64_LOAD8_S: u8 = 0x30;
pub const OP_I64_LOAD8_U: u8 = 0x31;
pub const OP_I64_LOAD16_S: u8 = 0x32;
pub const OP_I64_LOAD16_U: u8 = 0x33;
pub const OP_I64_LOAD32_S: u8 = 0x34;
pub const OP_I64_LOAD32_U: u8 = 0x35;
pub const OP_I32_STORE16: u8 = 0x3B;
pub const OP_I64_STORE8: u8 = 0x3C;
pub const OP_I64_STORE16: u8 = 0x3D;
pub const OP_I64_STORE32: u8 = 0x3E;
pub const OP_I64_DIV_S: u8 = 0x7F;
pub const OP_I64_DIV_U: u8 = 0x80;
pub const OP_I64_REM_S: u8 = 0x81;
pub const OP_I64_REM_U: u8 = 0x82;
pub const OP_I32_WRAP_I64: u8 = 0xA7;
pub const OP_I64_EXTEND_I32_S: u8 = 0xAC;
pub const OP_I64_EXTEND_I32_U: u8 = 0xAD;
pub const OP_I32_EXTEND8_S: u8 = 0xC0;
pub const OP_I32_EXTEND16_S: u8 = 0xC1;
pub const OP_I64_EXTEND8_S: u8 = 0xC2;
pub const OP_I64_EXTEND16_S: u8 = 0xC3;
pub const OP_I64_EXTEND32_S: u8 = 0xC4;

} // verus!
