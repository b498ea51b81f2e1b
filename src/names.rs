//! The names shared by every emitted script: the player that holds all
//! scores, the reserved objectives, and the names of the runtime scripts.
use vstd::prelude::*;

verus! {

/// The fake player whose scores hold all machine state.
pub const PREFIX: &'static str = "MCVM_Memory";

/// Objective holding the memory index used by `load`, `store` and `swap`.
pub const MEM_POINTER: &'static str = "Pointer";

/// Objective holding the frame base added to every memory address.
pub const MEM_OFFSET: &'static str = "Offset";

/// Objective holding the id of the next block to run.
pub const PROGRAM_COUNTER: &'static str = "Pc";

pub const REG_R0: &'static str = "R0";

pub const REG_R1: &'static str = "R1";

pub const REG_R2: &'static str = "R2";

pub const REG_R3: &'static str = "R3";

/// Prefix of the objective of each memory cell, followed by its index.
pub const MEM_CELL: &'static str = "Mem";

pub const FUNC_LOAD: &'static str = "load";

pub const FUNC_STORE: &'static str = "store";

pub const FUNC_SWAP: &'static str = "swap";

pub const FUNC_EXEC: &'static str = "exec";

pub const FUNC_INIT: &'static str = "init";

/// Name of the entry block, the one label that is not mangled.
pub const MAIN: &'static str = "main";

/// Script that the block dispatcher runs for an id that names no block.
pub const NONEXISTENCE: &'static str = "nonexistence";

} // verus!
