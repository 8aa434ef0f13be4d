//! Code generation for x86-64: the instruction emitter, the compiler from
//! straight-line WASM bodies, and the arena that hands out code space.
pub mod emit;
pub mod compile;
pub mod arena;
