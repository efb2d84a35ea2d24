//! The execution engine: a fetch-execute loop over a finished opcode
//! sequence.

use crate::bf_executor::BFExecuter;
use crate::channel::Channel;
use crate::opcodes::Opcode;
use crate::semantics::{
    advanced, dispatched, effect, faulted, initial_run, lemma_run_fixed, repeated, run_for,
    run_valid, scan_end, starved, step_of, tape_of, with_tape, wrap_byte, Run, ScanEnd, Status,
};
use crate::state::{ProgramState, ARENA_SIZE};
use vstd::prelude::*;

verus! {

/// An interpreter for compiled programs.
pub struct BFOpcodeInterpreter {
    program: Vec<Opcode>,
    /// Instruction pointer, data pointer and arena.
    pub machine: ProgramState,
    io: Channel,
    inst_evaluated: usize,
    status: Status,
}

impl View for BFOpcodeInterpreter {
    type V = Run;

    closed spec fn view(&self) -> Run {
        Run {
            ip: self.machine.ip as int,
            dp: self.machine.dp as int,
            memory: self.machine.memory@,
            unread: self.io@.unread,
            closed: self.io@.closed,
            written: self.io@.written,
            count: self.inst_evaluated as int,
            status: self.status,
        }
    }
}

/// The cell of `byte` after `delta` has been added to it.
fn changed_cell(byte: u8, delta: i32) -> (out: u8)
    ensures
        out == wrap_byte(byte + delta),
{
    let lifted: u64 = (byte as i64 + delta as i64 + 0x1_0000_0000) as u64;
    (lifted % 256) as u8
}

/// The cell that holds `value`.
fn cell_of(value: i32) -> (out: u8)
    ensures
        out == wrap_byte(value as int),
{
    changed_cell(0, value)
}

/// The cell of `byte` after `factor` times `cell` has been added to it.
fn multiplied_cell(byte: u8, factor: i32, cell: u8) -> (out: u8)
    ensures
        out == wrap_byte(byte + wrap_byte(factor as int) * cell),
{
    let by: u8 = cell_of(factor);
    assert(by * cell <= 255 * 255) by (nonlinear_arith)
        requires
            by <= 255,
            cell <= 255,
    ;
    let sum: u32 = byte as u32 + by as u32 * cell as u32;
    (sum % 256) as u8
}

impl BFOpcodeInterpreter {
    /// The program that the interpreter runs.
    pub closed spec fn program(&self) -> Seq<Opcode> {
        self.program@
    }

    /// The interpreter holds a state that its program can be in.
    pub closed spec fn wf(&self) -> bool {
        &&& run_valid(self.program@.len(), self@)
        &&& self.io.wf()
    }

    /// An interpreter at the start of a run of `program_source`, with no
    /// input yet and more to come.
    pub fn new(program_source: Vec<Opcode>) -> (interpreter: Self)
        ensures
            interpreter.wf(),
            interpreter.valid(),
            interpreter.program() == program_source@,
            interpreter@ == initial_run(program_source@.len(), Seq::empty(), false),
    {
        let status = if program_source.len() == 0 {
            Status::Halted
        } else {
            Status::Running
        };
        Self {
            program: program_source,
            machine: ProgramState::new(),
            io: Channel::new(),
            inst_evaluated: 0,
            status,
        }
    }

    /// An interpreter at the start of a run of `program_source` on the
    /// given input and no more.
    pub fn with_input(program_source: Vec<Opcode>, input: Vec<u8>) -> (interpreter: Self)
        ensures
            interpreter.wf(),
            interpreter.valid(),
            interpreter.program() == program_source@,
            interpreter@ == initial_run(program_source@.len(), input@, true),
    {
        let status = if program_source.len() == 0 {
            Status::Halted
        } else {
            Status::Running
        };
        Self {
            program: program_source,
            machine: ProgramState::new(),
            io: Channel::with_input(input),
            inst_evaluated: 0,
            status,
        }
    }

    /// Hands the interpreter more input, unless its input has been closed.
    pub fn feed(&mut self, bytes: &Vec<u8>)
        requires
            old(self).wf(),
        ensures
            final(self).wf(),
            final(self).program() == old(self).program(),
            final(self)@ == if old(self)@.closed {
                old(self)@
            } else {
                Run { unread: old(self)@.unread + bytes@, ..old(self)@ }
            },
    {
        self.io.feed(bytes);
    }

    /// Tells the interpreter that no more input will come.
    pub fn close_input(&mut self)
        requires
            old(self).wf(),
        ensures
            final(self).wf(),
            final(self).program() == old(self).program(),
            final(self)@ == (Run { closed: true, ..old(self)@ }),
    {
        self.io.close();
    }

    /// Tells the interpreter that reading or writing has failed outside: a
    /// run that was running faults.
    pub fn fail_io(&mut self)
        requires
            old(self).wf(),
        ensures
            final(self).wf(),
            final(self).program() == old(self).program(),
            final(self)@ == if old(self)@.status == Status::Running {
                faulted(old(self)@)
            } else {
                old(self)@
            },
    {
        if self.status == Status::Running {
            self.status = Status::Faulted;
        }
    }

    /// Hands out the bytes written since the last call, and forgets them.
    pub fn take_output(&mut self) -> (bytes: Vec<u8>)
        requires
            old(self).wf(),
        ensures
            final(self).wf(),
            final(self).program() == old(self).program(),
            bytes@ == old(self)@.written,
            final(self)@ == (Run { written: Seq::empty(), ..old(self)@ }),
    {
        self.io.take_output()
    }

    /// The bytes written and not yet handed out.
    pub fn output(&self) -> (bytes: &Vec<u8>)
        ensures
            bytes@ == self@.written,
    {
        self.io.output()
    }

    /// Where the run stands.
    pub fn status(&self) -> (status: Status)
        ensures
            status == self@.status,
    {
        self.status
    }

    /// The machine state of the run.
    pub fn machine_state(&self) -> (state: &ProgramState)
        ensures
            state.ip == self@.ip,
            state.dp == self@.dp,
            state.memory@ == self@.memory,
    {
        &self.machine
    }

    /// What is done after each dispatch: the instruction pointer moves on,
    /// the count grows, and the run halts at the end of the program.
    fn advance(&mut self)
        requires
            old(self).wf(),
            old(self)@.ip < old(self).program().len(),
        ensures
            final(self).wf(),
            final(self).program() == old(self).program(),
            final(self)@ == advanced(old(self).program().len(), old(self)@),
    {
        let len = self.program.len();
        self.machine.ip = self.machine.ip + 1;
        if self.inst_evaluated < usize::MAX {
            self.inst_evaluated = self.inst_evaluated + 1;
        }
        self.status = if self.machine.ip >= len {
            Status::Halted
        } else {
            Status::Running
        };
    }

    /// Reads one byte `count` times into the current cell, if the bytes have
    /// arrived or no more will arrive.
    fn read_many(&mut self, count: usize)
        requires
            old(self).wf(),
            old(self)@.status == Status::Running,
        ensures
            final(self).wf(),
            final(self).program() == old(self).program(),
            final(self)@ == dispatched(
                old(self).program().len(),
                old(self)@,
                effect(Opcode::ReadChar { count }, tape_of(old(self)@)),
            ),
    {
        if count == 0 {
            assert(self@ == with_tape(self@, tape_of(self@)));
            self.advance();
        } else if self.io.available() >= count {
            match self.io.read(count) {
                Some(last) => {
                    self.machine.memory[self.machine.dp] = last;
                },
                None => {},
            }
            self.advance();
        } else if self.io.is_closed() {
            self.status = Status::Faulted;
        }
    }

    /// Whether the run waits for input that has not arrived.
    pub fn needs_input(&self) -> (waiting: bool)
        requires
            self.wf(),
        ensures
            waiting == starved(self.program(), self@),
    {
        if self.status != Status::Running || self.io.is_closed() {
            return false;
        }
        match self.program[self.machine.ip] {
            Opcode::ReadChar { count } => self.io.available() < count,
            _ => false,
        }
    }

    /// Moves the data pointer by `step` until it rests on a zero cell.
    /// Returns whether the scan has come to an end, in rest or in a fault.
    fn scan(&mut self, step: i32) -> (ended: bool)
        requires
            old(self).wf(),
            old(self)@.status == Status::Running,
        ensures
            final(self).wf(),
            final(self).program() == old(self).program(),
            match scan_end(old(self)@.memory, old(self)@.dp, step as int) {
                ScanEnd::At(dp) => ended && final(self)@ == (Run { dp, ..old(self)@ }),
                ScanEnd::Outside => ended && final(self)@ == faulted(old(self)@),
                ScanEnd::Never => !ended && final(self)@ == old(self)@,
            },
    {
        if step == 0 {
            return self.machine.memory[self.machine.dp] == 0;
        }
        let ghost start = self@;
        let start_dp = self.machine.dp;
        loop
            invariant
                self.wf(),
                step != 0,
                self.program@ == old(self).program@,
                self@ == (Run { dp: self@.dp, ..start }),
                start == old(self)@,
                start_dp == start.dp,
                start_dp < ARENA_SIZE,
                scan_end(self@.memory, self@.dp, step as int) == scan_end(
                    start.memory,
                    start.dp,
                    step as int,
                ),
            decreases
                (if step > 0 {
                    ARENA_SIZE - self@.dp
                } else {
                    self@.dp
                }),
        {
            if self.machine.memory[self.machine.dp] == 0 {
                return true;
            }
            let next: i64 = self.machine.dp as i64 + step as i64;
            if next < 0 || next >= ARENA_SIZE as i64 {
                self.machine.dp = start_dp;
                self.status = Status::Faulted;
                return true;
            }
            self.machine.dp = next as usize;
        }
    }

    /// Dispatches the next opcode, if the run is running and has the input
    /// that the opcode asks for.
    pub fn step(&mut self)
        requires
            old(self).wf(),
        ensures
            final(self).wf(),
            final(self).program() == old(self).program(),
            final(self)@ == step_of(old(self).program(), old(self)@),
    {
        if self.status != Status::Running {
            return ;
        }
        let dp = self.machine.dp;
        let cell = self.machine.memory[dp];
        match self.program[self.machine.ip] {
            Opcode::Change { delta } => {
                self.machine.memory[dp] = changed_cell(cell, delta);
                self.advance();
            },
            Opcode::Move { delta } => {
                let next: i64 = dp as i64 + delta as i64;
                if next < 0 || next >= ARENA_SIZE as i64 {
                    self.status = Status::Faulted;
                } else {
                    self.machine.dp = next as usize;
                    self.advance();
                }
            },
            Opcode::PutChar { count } => {
                self.io.write(cell, count);
                self.advance();
            },
            Opcode::ReadChar { count } => {
                self.read_many(count);
            },
            Opcode::JumpIfZero { target } => {
                if cell == 0 {
                    if target < self.program.len() {
                        self.machine.ip = target;
                        self.advance();
                    } else {
                        self.status = Status::Faulted;
                    }
                } else {
                    self.advance();
                }
            },
            Opcode::JumpIfNonZero { target } => {
                if cell != 0 {
                    if target < self.program.len() {
                        self.machine.ip = target;
                        self.advance();
                    } else {
                        self.status = Status::Faulted;
                    }
                } else {
                    self.advance();
                }
            },
            Opcode::SetTo { value } => {
                self.machine.memory[dp] = cell_of(value);
                self.advance();
            },
            Opcode::ScanBy { step } => {
                let ended = self.scan(step);
                if ended && self.status == Status::Running {
                    self.advance();
                }
            },
            Opcode::Multi { offset, factor } => {
                let wanted: i64 = dp as i64 + offset as i64;
                let at: i64 = if wanted < 0 {
                    0
                } else {
                    wanted
                };
                if at >= ARENA_SIZE as i64 {
                    self.status = Status::Faulted;
                } else {
                    let at = at as usize;
                    let byte = self.machine.memory[at];
                    self.machine.memory[at] = multiplied_cell(byte, factor, cell);
                    self.advance();
                }
            },
        }
    }
}

impl BFExecuter for BFOpcodeInterpreter {
    open spec fn valid(&self) -> bool {
        self.wf()
    }

    open spec fn dispatched(&self) -> int {
        self@.count
    }

    open spec fn standing(&self) -> Status {
        self@.status
    }

    /// Runs on for up to `budget` dispatches. Returns early when the run
    /// waits for input.
    fn execute(&mut self, budget: usize)
        ensures
            final(self).program() == old(self).program(),
            final(self)@ == run_for(old(self).program(), old(self)@, budget as nat),
    {
        let mut left: usize = budget;
        while left > 0 && self.status == Status::Running
            invariant
                self.wf(),
                left <= budget,
                self.program@ == old(self).program@,
                run_for(self.program@, self@, left as nat) == run_for(
                    old(self).program@,
                    old(self)@,
                    budget as nat,
                ),
                old(self).inst_evaluated <= self.inst_evaluated <= old(self).inst_evaluated + (
                budget - left),
            decreases left,
        {
            if self.needs_input() {
                proof {
                    lemma_run_fixed(self.program@, self@, left as nat);
                    lemma_run_fixed(self.program@, self@, 0);
                }
                left = 0;
            } else {
                self.step();
                left -= 1;
            }
        }
    }

    fn read_char(&mut self)
        ensures
            final(self).program() == old(self).program(),
            final(self)@ == if old(self)@.unread.len() > 0 {
                Run {
                    memory: old(self)@.memory.update(old(self)@.dp, old(self)@.unread[0]),
                    unread: old(self)@.unread.skip(1),
                    ..old(self)@
                }
            } else if old(self)@.status == Status::Running {
                faulted(old(self)@)
            } else {
                old(self)@
            },
    {
        match self.io.read(1) {
            Some(byte) => {
                self.machine.memory[self.machine.dp] = byte;
            },
            None => {
                assert(self@.unread == old(self)@.unread);
                if self.status == Status::Running {
                    self.status = Status::Faulted;
                }
            },
        }
    }

    fn write_char(&mut self)
        ensures
            final(self).program() == old(self).program(),
            final(self)@ == (Run {
                written: old(self)@.written.push(old(self)@.memory[old(self)@.dp]),
                ..old(self)@
            }),
    {
        let byte = self.machine.memory[self.machine.dp];
        self.io.write(byte, 1);
        assert(old(self)@.written + repeated(byte, 1) == old(self)@.written.push(byte));
    }

    fn instruction_count(&mut self) -> (count: usize)
        ensures
            count == old(self)@.count,
            final(self).program() == old(self).program(),
            final(self)@ == old(self)@,
    {
        self.inst_evaluated
    }

    fn reset_machine_state(&mut self)
        ensures
            final(self).program() == old(self).program(),
            final(self)@ == (Run {
                unread: old(self)@.unread,
                closed: old(self)@.closed,
                written: old(self)@.written,
                count: old(self)@.count,
                ..initial_run(old(self).program().len(), Seq::empty(), false)
            }),
    {
        self.machine = ProgramState::new();
        self.status = if self.program.len() == 0 {
            Status::Halted
        } else {
            Status::Running
        };
    }
}

} // verus!
