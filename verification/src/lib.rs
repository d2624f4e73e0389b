//! Static linker for eBPF relocatable objects targeting a wBPF device.
//!
//! The library parses ELF64 relocatable objects (machine `EM_BPF`) into a
//! function-level instruction representation, resolves relocations and
//! pseudo-calls, performs call-graph dead-code elimination, injects
//! callee-saved register spills, and emits a single executable image whose
//! `call`/`exit` instructions have been rewritten to the target's
//! single-instruction jump ABI.

pub mod device_api;
pub mod disasm;
pub mod elf;
pub mod error;
pub mod image;
pub mod local_linker;
pub mod global_linker;
pub mod reach;
pub mod insn;
pub mod tables;

use vstd::prelude::*;

verus! {

} // verus!
