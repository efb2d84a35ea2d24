//! A direct interpreter of source text, without compilation.

use crate::bf_executor::BFExecuter;
use crate::channel::Channel;
use crate::opcodes::Opcode;
use crate::semantics::{
    advanced, dispatched, effect, faulted, initial_run, jumped, repeated, run_valid, tape_of,
    with_tape, Run, Status,
};
use crate::source_utils::text_chars;
use crate::state::ProgramState;
use vstd::prelude::*;

verus! {

/// An interpreter that dispatches the characters of a program one by one and
/// finds the partner of a bracket by counting.
pub struct BFSimpleInterpreter {
    program: Vec<char>,
    machine: ProgramState,
    io: Channel,
    inst_evaluated: usize,
    status: Status,
}

impl View for BFSimpleInterpreter {
    type V = Run;

    closed spec fn view(&self) -> Run {
        Run {
            ip: self.machine.ip as int,
            dp: self.machine.dp as int,
            memory: self.machine.memory@,
            unread: self.io@.unread,
            closed: self.io@.closed,
            written: self.io@.written,
            count: self.inst_evaluated as int,
            status: self.status,
        }
    }
}

/// Scanning right from `pos` with `pending` opens to close: the index of the
/// close that closes the last of them, if there is one.
pub open spec fn close_from(text: Seq<char>, pos: int, pending: int) -> Option<int>
    decreases text.len() - pos,
{
    if pos < 0 || pos >= text.len() {
        None
    } else if text[pos] == '[' {
        close_from(text, pos + 1, pending + 1)
    } else if text[pos] == ']' {
        if pending == 1 {
            Some(pos)
        } else {
            close_from(text, pos + 1, pending - 1)
        }
    } else {
        close_from(text, pos + 1, pending)
    }
}

/// Scanning left from `pos` with `pending` closes to open: the index of the
/// open that opens the last of them, if there is one.
pub open spec fn open_from(text: Seq<char>, pos: int, pending: int) -> Option<int>
    decreases pos + 1,
{
    if pos < 0 || pos >= text.len() {
        None
    } else if text[pos] == ']' {
        open_from(text, pos - 1, pending + 1)
    } else if text[pos] == '[' {
        if pending == 1 {
            Some(pos)
        } else {
            open_from(text, pos - 1, pending - 1)
        }
    } else {
        open_from(text, pos - 1, pending)
    }
}

/// The close that belongs to the open at `at`.
pub open spec fn matching_close(text: Seq<char>, at: int) -> Option<int> {
    close_from(text, at + 1, 1)
}

/// The open that belongs to the close at `at`.
pub open spec fn matching_open(text: Seq<char>, at: int) -> Option<int> {
    open_from(text, at - 1, 1)
}

/// A jump to the partner of a bracket, or a fault where there is none.
pub open spec fn jumped_to(len: nat, run: Run, partner: Option<int>) -> Run {
    match partner {
        Some(target) => jumped(len, run, target),
        None => faulted(run),
    }
}

/// The opcode that does what an instruction character other than a bracket
/// does.
pub open spec fn plain_opcode(c: char) -> Option<Opcode> {
    if c == '+' {
        Some(Opcode::Change { delta: 1 })
    } else if c == '-' {
        Some(Opcode::Change { delta: -1i32 })
    } else if c == '>' {
        Some(Opcode::Move { delta: 1 })
    } else if c == '<' {
        Some(Opcode::Move { delta: -1i32 })
    } else if c == ',' {
        Some(Opcode::ReadChar { count: 1 })
    } else if c == '.' {
        Some(Opcode::PutChar { count: 1 })
    } else {
        None
    }
}

/// One dispatch of the character at the instruction pointer. A bracket jumps
/// to its partner where an opcode would jump; any other instruction does
/// what its opcode does; a character that is no instruction is dispatched
/// and does nothing.
pub open spec fn simple_step_of(program: Seq<char>, run: Run) -> Run {
    if run.status != Status::Running {
        run
    } else {
        let len = program.len();
        let c = program[run.ip];
        if c == '[' {
            if run.memory[run.dp] == 0 {
                jumped_to(len, run, matching_close(program, run.ip))
            } else {
                advanced(len, run)
            }
        } else if c == ']' {
            if run.memory[run.dp] != 0 {
                jumped_to(len, run, matching_open(program, run.ip))
            } else {
                advanced(len, run)
            }
        } else {
            match plain_opcode(c) {
                Some(op) => dispatched(len, run, effect(op, tape_of(run))),
                None => advanced(len, run),
            }
        }
    }
}

/// The state after up to `budget` dispatches.
pub open spec fn simple_run_for(program: Seq<char>, run: Run, budget: nat) -> Run
    decreases budget,
{
    if budget == 0 || run.status != Status::Running {
        run
    } else {
        simple_run_for(program, simple_step_of(program, run), (budget - 1) as nat)
    }
}

/// Whether the run waits for input: the next instruction reads, nothing has
/// arrived, and more may arrive.
pub open spec fn simple_starved(program: Seq<char>, run: Run) -> bool {
    &&& run.status == Status::Running
    &&& !run.closed
    &&& program[run.ip] == ','
    &&& run.unread.len() == 0
}

/// A state that a dispatch does not change is not changed by any number of
/// dispatches.
pub proof fn lemma_simple_run_fixed(program: Seq<char>, run: Run, budget: nat)
    requires
        simple_step_of(program, run) == run,
    ensures
        simple_run_for(program, run, budget) == run,
    decreases budget,
{
    if budget > 0 && run.status == Status::Running {
        lemma_simple_run_fixed(program, run, (budget - 1) as nat);
    }
}

impl BFSimpleInterpreter {
    /// The program that the interpreter runs.
    pub closed spec fn program(&self) -> Seq<char> {
        self.program@
    }

    /// The interpreter holds a state that its program can be in.
    pub closed spec fn wf(&self) -> bool {
        &&& run_valid(self.program@.len(), self@)
        &&& self.io.wf()
    }

    /// An interpreter at the start of a run of `program`, with no input yet
    /// and more to come.
    pub fn new(program: String) -> (interpreter: Self)
        ensures
            interpreter.wf(),
            interpreter.valid(),
            interpreter.program() == program@,
            interpreter@ == initial_run(program@.len(), Seq::empty(), false),
    {
        let chars = text_chars(program.as_str());
        let status = if chars.len() == 0 {
            Status::Halted
        } else {
            Status::Running
        };
        Self {
            program: chars,
            machine: ProgramState::new(),
            io: Channel::new(),
            inst_evaluated: 0,
            status,
        }
    }

    /// An interpreter at the start of a run of `program` on the given input
    /// and no more.
    pub fn with_input(program: String, input: Vec<u8>) -> (interpreter: Self)
        ensures
            interpreter.wf(),
            interpreter.valid(),
            interpreter.program() == program@,
            interpreter@ == initial_run(program@.len(), input@, true),
    {
        let chars = text_chars(program.as_str());
        let status = if chars.len() == 0 {
            Status::Halted
        } else {
            Status::Running
        };
        Self {
            program: chars,
            machine: ProgramState::new(),
            io: Channel::with_input(input),
            inst_evaluated: 0,
            status,
        }
    }

    /// Hands the interpreter more input, unless its input has been closed.
    pub fn feed(&mut self, bytes: &Vec<u8>)
        requires
            old(self).wf(),
        ensures
            final(self).wf(),
            final(self).program() == old(self).program(),
            final(self)@ == if old(self)@.closed {
                old(self)@
            } else {
                Run { unread: old(self)@.unread + bytes@, ..old(self)@ }
            },
    {
        self.io.feed(bytes);
    }

    /// Tells the interpreter that no more input will come.
    pub fn close_input(&mut self)
        requires
            old(self).wf(),
        ensures
            final(self).wf(),
            final(self).program() == old(self).program(),
            final(self)@ == (Run { closed: true, ..old(self)@ }),
    {
        self.io.close();
    }

    /// Tells the interpreter that reading or writing has failed outside: a
    /// run that was running faults.
    pub fn fail_io(&mut self)
        requires
            old(self).wf(),
        ensures
            final(self).wf(),
            final(self).program() == old(self).program(),
            final(self)@ == if old(self)@.status == Status::Running {
                faulted(old(self)@)
            } else {
                old(self)@
            },
    {
        if self.status == Status::Running {
            self.status = Status::Faulted;
        }
    }

    /// Hands out the bytes written since the last call, and forgets them.
    pub fn take_output(&mut self) -> (bytes: Vec<u8>)
        requires
            old(self).wf(),
        ensures
            final(self).wf(),
            final(self).program() == old(self).program(),
            bytes@ == old(self)@.written,
            final(self)@ == (Run { written: Seq::empty(), ..old(self)@ }),
    {
        self.io.take_output()
    }

    /// The bytes written and not yet handed out.
    pub fn output(&self) -> (bytes: &Vec<u8>)
        ensures
            bytes@ == self@.written,
    {
        self.io.output()
    }

    /// Where the run stands.
    pub fn status(&self) -> (status: Status)
        ensures
            status == self@.status,
    {
        self.status
    }

    /// The machine state of the run.
    pub fn machine_state(&self) -> (state: &ProgramState)
        ensures
            state.ip == self@.ip,
            state.dp == self@.dp,
            state.memory@ == self@.memory,
    {
        &self.machine
    }

    /// What is done after each dispatch: the instruction pointer moves on,
    /// the count grows, and the run halts at the end of the program.
    fn advance(&mut self)
        requires
            old(self).wf(),
            old(self)@.ip < old(self).program().len(),
        ensures
            final(self).wf(),
            final(self).program() == old(self).program(),
            final(self)@ == advanced(old(self).program().len(), old(self)@),
    {
        let len = self.program.len();
        self.machine.ip = self.machine.ip + 1;
        if self.inst_evaluated < usize::MAX {
            self.inst_evaluated = self.inst_evaluated + 1;
        }
        self.status = if self.machine.ip >= len {
            Status::Halted
        } else {
            Status::Running
        };
    }

    /// Reads one byte `count` times into the current cell, if the bytes have
    /// arrived or no more will arrive.
    fn read_many(&mut self, count: usize)
        requires
            old(self).wf(),
            old(self)@.status == Status::Running,
        ensures
            final(self).wf(),
            final(self).program() == old(self).program(),
            final(self)@ == dispatched(
                old(self).program().len(),
                old(self)@,
                effect(Opcode::ReadChar { count }, tape_of(old(self)@)),
            ),
    {
        if count == 0 {
            assert(self@ == with_tape(self@, tape_of(self@)));
            self.advance();
        } else if self.io.available() >= count {
            match self.io.read(count) {
                Some(last) => {
                    self.machine.memory[self.machine.dp] = last;
                },
                None => {},
            }
            self.advance();
        } else if self.io.is_closed() {
            self.status = Status::Faulted;
        }
    }

    /// Whether the run waits for input that has not arrived.
    pub fn needs_input(&self) -> (waiting: bool)
        requires
            self.wf(),
        ensures
            waiting == simple_starved(self.program(), self@),
    {
        self.status == Status::Running && !self.io.is_closed() && self.program[self.machine.ip]
            == ',' && self.io.available() == 0
    }

    /// The close that belongs to the open at `at`, found by counting.
    fn find_close(&self, at: usize) -> (found: Option<usize>)
        requires
            at < self.program().len(),
        ensures
            match found {
                Some(index) => matching_close(self.program(), at as int) == Some(index as int)
                    && at < index < self.program().len(),
                None => matching_close(self.program(), at as int) is None,
            },
    {
        let len = self.program.len();
        let mut depth: usize = 1;
        let mut pos: usize = at + 1;
        while pos < len
            invariant
                len == self.program.len(),
                at < pos <= len,
                1 <= depth <= pos - at,
                close_from(self.program@, pos as int, depth as int) == matching_close(
                    self.program@,
                    at as int,
                ),
            decreases len - pos,
        {
            let c = self.program[pos];
            if c == '[' {
                depth += 1;
            } else if c == ']' {
                if depth == 1 {
                    return Some(pos);
                }
                depth -= 1;
            }
            pos += 1;
        }
        None
    }

    /// The open that belongs to the close at `at`, found by counting.
    fn find_open(&self, at: usize) -> (found: Option<usize>)
        requires
            at < self.program().len(),
        ensures
            match found {
                Some(index) => matching_open(self.program(), at as int) == Some(index as int)
                    && index < at,
                None => matching_open(self.program(), at as int) is None,
            },
    {
        let mut depth: usize = 1;
        let mut pos: usize = at;
        while pos > 0
            invariant
                pos <= at < self.program.len(),
                1 <= depth <= at - pos + 1,
                open_from(self.program@, pos - 1, depth as int) == matching_open(
                    self.program@,
                    at as int,
                ),
            decreases pos,
        {
            pos -= 1;
            let c = self.program[pos];
            if c == ']' {
                depth += 1;
            } else if c == '[' {
                if depth == 1 {
                    return Some(pos);
                }
                depth -= 1;
            }
        }
        None
    }

    /// Dispatches the next character, if the run is running and has the
    /// input that the character asks for.
    pub fn step(&mut self)
        requires
            old(self).wf(),
        ensures
            final(self).wf(),
            final(self).program() == old(self).program(),
            final(self)@ == simple_step_of(old(self).program(), old(self)@),
    {
        if self.status != Status::Running {
            return ;
        }
        let dp = self.machine.dp;
        let cell = self.machine.memory[dp];
        let curr = self.program[self.machine.ip];
        if curr == '+' {
            self.machine.memory[dp] = if cell == 255 {
                0
            } else {
                cell + 1
            };
            self.advance();
        } else if curr == '-' {
            self.machine.memory[dp] = if cell == 0 {
                255
            } else {
                cell - 1
            };
            self.advance();
        } else if curr == '>' {
            if !self.machine.is_valid_dp_location(dp + 1) {
                self.status = Status::Faulted;
            } else {
                self.machine.dp = dp + 1;
                self.advance();
            }
        } else if curr == '<' {
            if dp == 0 {
                self.status = Status::Faulted;
            } else {
                self.machine.dp = dp - 1;
                self.advance();
            }
        } else if curr == ',' {
            self.read_many(1);
        } else if curr == '.' {
            self.io.write(cell, 1);
            self.advance();
        } else if curr == '[' {
            if cell == 0 {
                match self.find_close(self.machine.ip) {
                    Some(target) => {
                        self.machine.ip = target;
                        self.advance();
                    },
                    None => {
                        self.status = Status::Faulted;
                    },
                }
            } else {
                self.advance();
            }
        } else if curr == ']' {
            if cell != 0 {
                match self.find_open(self.machine.ip) {
                    Some(target) => {
                        self.machine.ip = target;
                        self.advance();
                    },
                    None => {
                        self.status = Status::Faulted;
                    },
                }
            } else {
                self.advance();
            }
        } else {
            self.advance();
        }
    }
}

impl BFExecuter for BFSimpleInterpreter {
    open spec fn valid(&self) -> bool {
        self.wf()
    }

    open spec fn dispatched(&self) -> int {
        self@.count
    }

    open spec fn standing(&self) -> Status {
        self@.status
    }

    /// Runs on for up to `budget` dispatches. Returns early when the run
    /// waits for input.
    fn execute(&mut self, budget: usize)
        ensures
            final(self).program() == old(self).program(),
            final(self)@ == simple_run_for(old(self).program(), old(self)@, budget as nat),
    {
        let mut left: usize = budget;
        while left > 0 && self.status == Status::Running
            invariant
                self.wf(),
                left <= budget,
                self.program@ == old(self).program@,
                simple_run_for(self.program@, self@, left as nat) == simple_run_for(
                    old(self).program@,
                    old(self)@,
                    budget as nat,
                ),
                old(self).inst_evaluated <= self.inst_evaluated <= old(self).inst_evaluated + (
                budget - left),
            decreases left,
        {
            if self.needs_input() {
                proof {
                    lemma_simple_run_fixed(self.program@, self@, left as nat);
                    lemma_simple_run_fixed(self.program@, self@, 0);
                }
                left = 0;
            } else {
                self.step();
                left -= 1;
            }
        }
    }

    fn read_char(&mut self)
        ensures
            final(self).program() == old(self).program(),
            final(self)@ == if old(self)@.unread.len() > 0 {
                Run {
                    memory: old(self)@.memory.update(old(self)@.dp, old(self)@.unread[0]),
                    unread: old(self)@.unread.skip(1),
                    ..old(self)@
                }
            } else if old(self)@.status == Status::Running {
                faulted(old(self)@)
            } else {
                old(self)@
            },
    {
        match self.io.read(1) {
            Some(byte) => {
                self.machine.memory[self.machine.dp] = byte;
            },
            None => {
                assert(self@.unread == old(self)@.unread);
                if self.status == Status::Running {
                    self.status = Status::Faulted;
                }
            },
        }
    }

    fn write_char(&mut self)
        ensures
            final(self).program() == old(self).program(),
            final(self)@ == (Run {
                written: old(self)@.written.push(old(self)@.memory[old(self)@.dp]),
                ..old(self)@
            }),
    {
        let byte = self.machine.memory[self.machine.dp];
        self.io.write(byte, 1);
        assert(old(self)@.written + repeated(byte, 1) == old(self)@.written.push(byte));
    }

    fn instruction_count(&mut self) -> (count: usize)
        ensures
            count == old(self)@.count,
            final(self).program() == old(self).program(),
            final(self)@ == old(self)@,
    {
        self.inst_evaluated
    }

    fn reset_machine_state(&mut self)
        ensures
            final(self).program() == old(self).program(),
            final(self)@ == (Run {
                unread: old(self)@.unread,
                closed: old(self)@.closed,
                written: old(self)@.written,
                count: old(self)@.count,
                ..initial_run(old(self).program().len(), Seq::empty(), false)
            }),
    {
        self.machine = ProgramState::new();
        self.status = if self.program.len() == 0 {
            Status::Halted
        } else {
            Status::Running
        };
    }
}

} // verus!
