//! File storage: block devices, the WasmFS flat filesystem, and the table
//! of named files that the shell and the engine read.
pub mod block;
pub mod wasmfs;
pub mod table;
pub mod fat;
pub mod pool;
