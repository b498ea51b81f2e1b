//! A compiler from the MAS assembly dialect to scoreboard-driven command
//! scripts: a parser, a dispatch-tree generator, the memory module built on
//! it, and the lowering of MAS functions into linked blocks.
use vstd::prelude::*;

pub mod command;
pub mod ctx;
pub mod dispatch;
pub mod generate;
pub mod laws;
pub mod mas;
pub mod memory;
pub mod names;
pub mod parse;
pub mod print;
pub mod round_trip;
pub mod text;

verus! {

} // verus!
