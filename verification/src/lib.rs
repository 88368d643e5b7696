//! Looking into the memory of another process: the map of its regions and
//! what each is used for, the backends that read and write its memory, and
//! the search for values in it.

use vstd::prelude::*;

pub mod text;
pub mod value;
pub mod number;
pub mod process;
pub mod memory;
pub mod searcher;

verus! {

/// The ways in which the memory of a process can be reached.
#[derive(Debug)]
pub enum MemoryMethod {
    /// Through the memory file of the process.
    Proc,
    /// Through the tracing facility, a word at a time.
    Ptrace,
    /// By copying between the address spaces of the two processes.
    ProcessVmRead,
}

} // verus!
