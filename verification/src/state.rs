//! The execution state of a running program: instruction pointer, data
//! pointer and the fixed-size byte arena.

use vstd::prelude::*;

verus! {

/// Number of cells in the memory arena.
pub const ARENA_SIZE: usize = 30000;

/// Instruction pointer, data pointer and memory of one run.
#[derive(Debug, Copy, Clone)]
pub struct ProgramState {
    pub ip: usize,
    pub dp: usize,
    pub memory: [u8; 30000],
}

impl ProgramState {
    /// A fresh state: both pointers at zero and every cell zero.
    pub fn new() -> (state: Self)
        ensures
            state.ip == 0,
            state.dp == 0,
            state.memory@ == Seq::new(ARENA_SIZE as nat, |i: int| 0u8),
    {
        Self { ip: 0, dp: 0, memory: [0u8; 30000] }
    }

    /// Whether `pos` addresses a cell of the arena.
    #[must_use]
    pub fn is_valid_dp_location(&self, pos: usize) -> (valid: bool)
        ensures
            valid == (pos < ARENA_SIZE),
    {
        pos < ARENA_SIZE
    }
}

impl Default for ProgramState {
    fn default() -> (state: Self)
        ensures
            state.ip == 0,
            state.dp == 0,
            state.memory@ == Seq::new(ARENA_SIZE as nat, |i: int| 0u8),
    {
        Self::new()
    }
}

} // verus!
