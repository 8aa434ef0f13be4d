use vstd::prelude::*;

pub mod text;
pub mod fs;
pub mod wat;
pub mod wat_lex;
pub mod wat_parse;
pub mod bytes;
pub mod leb128;
pub mod net;
pub mod jit;
pub mod wasm;
pub mod keyboard;
pub mod shell;
pub mod commands;
pub mod vga;
pub mod virtq;
pub mod shared;

verus! {
} // verus!
