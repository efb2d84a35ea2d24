//! What every interpreter of the language offers.

use crate::semantics::Status;
use vstd::prelude::*;

verus! {

/// An interpreter that runs one program against one machine state, reading
/// from a buffer of input bytes and writing to a buffer of output bytes.
pub trait BFExecuter {
    /// The interpreter is in a state that its methods can work on.
    spec fn valid(&self) -> bool;

    /// How many instructions have been dispatched, as far as a `usize` can
    /// count.
    spec fn dispatched(&self) -> int;

    /// Where the run stands.
    spec fn standing(&self) -> Status;

    /// Dispatches up to `budget` instructions, and fewer if the run halts,
    /// faults or has to wait for input before that.
    fn execute(&mut self, budget: usize)
        requires
            old(self).valid(),
        ensures
            final(self).valid(),
            final(self).dispatched() >= old(self).dispatched(),
            final(self).dispatched() <= old(self).dispatched() + budget,
            old(self).standing() != Status::Running ==> final(self).standing() == old(
                self,
            ).standing(),
    ;

    /// Reads the next byte of input into the current cell; faults if there
    /// is none.
    fn read_char(&mut self)
        requires
            old(self).valid(),
        ensures
            final(self).valid(),
            final(self).dispatched() == old(self).dispatched(),
    ;

    /// Writes the current cell to the output.
    fn write_char(&mut self)
        requires
            old(self).valid(),
        ensures
            final(self).valid(),
            final(self).dispatched() == old(self).dispatched(),
            final(self).standing() == old(self).standing(),
    ;

    /// The number of instructions dispatched so far.
    fn instruction_count(&mut self) -> (count: usize)
        requires
            old(self).valid(),
        ensures
            final(self).valid(),
            count == old(self).dispatched(),
            final(self).dispatched() == old(self).dispatched(),
            final(self).standing() == old(self).standing(),
    ;

    /// Puts the machine back into the state in which a run begins. The count
    /// of instructions goes on.
    fn reset_machine_state(&mut self)
        requires
            old(self).valid(),
        ensures
            final(self).valid(),
            final(self).dispatched() == old(self).dispatched(),
            final(self).standing() != Status::Faulted,
    ;
}

} // verus!
