use vstd::prelude::*;

verus! {

/// Errors shared between the kernel and the programs it runs.
#[derive(Debug, Clone, Copy, PartialEq, Eq, Structural)]
pub enum Error {
    InvalidInput,
    FileNotFound,
    RuntimeError,
}

} // verus!
