//! Command-line options as plain data; parsing itself is done by the caller.

use vstd::prelude::*;

verus! {

/// Strategy used by the branch predictor of the execution engine.
#[derive(Clone, Copy, Debug, PartialEq, Eq, Structural)]
pub enum BranchPredictorStrategy {
    AT,
    NT,
    BTFNT,
    BPB,
}

/// The options a simulation run was started with.
#[derive(Clone, Debug)]
pub struct Args {
    /// input file
    pub elf_file: String,
    /// verbose output
    pub verbose: bool,
    /// single step
    pub is_single_stop: bool,
    /// dump memory and register trace
    pub dump_history: bool,
    /// branch prediction strategy
    pub strategy: Option<BranchPredictorStrategy>,
}

} // verus!
