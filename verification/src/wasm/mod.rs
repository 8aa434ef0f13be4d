//! The WebAssembly subsystem: binary loader, interpreter and engine.
pub mod opcode;
pub mod loader;
pub mod scan;
pub mod numeric;
pub mod sections;
pub mod interp;
pub mod engine;
pub mod task;
pub mod host;
pub mod instance;
