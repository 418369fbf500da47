use vstd::prelude::*;

pub mod debugger;
pub mod decode;
pub mod machine;
pub mod permutations;
pub mod text;
pub mod vm;

pub use debugger::Debugger;
pub use machine::VmError;
pub use permutations::Permutator;
pub use vm::Input;
pub use vm::LineFeed;
pub use vm::Output;
pub use vm::Program;
pub use vm::StackEntry;

pub use decode::Mode;
pub use decode::Operation;
pub use decode::modes;
pub use decode::modes3;
pub use decode::op;

verus! {

/// The fundamental type of an Intcode program, used for both addresses and
/// values, since one can easily become the other.
pub type Int = i64;

} // verus!
