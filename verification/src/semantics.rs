//! What running a program means: the state of a run as plain values, and the
//! step that one dispatch takes it through.

use crate::opcodes::Opcode;
use crate::state::ARENA_SIZE;
use vstd::prelude::*;

verus! {

/// Where a run stands.
#[derive(Debug, Copy, Clone, PartialEq, Eq, Structural)]
pub enum Status {
    /// The next opcode can be dispatched.
    Running,
    /// The instruction pointer has reached the end of the program.
    Halted,
    /// The run has failed and cannot go on.
    Faulted,
}

/// The state of a run.
pub struct Run {
    /// Index of the next opcode.
    pub ip: int,
    /// Index of the current cell.
    pub dp: int,
    /// The cells of the arena.
    pub memory: Seq<u8>,
    /// The bytes that have arrived and have not been read.
    pub unread: Seq<u8>,
    /// Whether no more bytes will arrive.
    pub closed: bool,
    /// The bytes written so far.
    pub written: Seq<u8>,
    /// How many opcodes have been dispatched, as far as a `usize` can count.
    pub count: int,
    /// Where the run stands.
    pub status: Status,
}

/// The value of a cell after arithmetic: cells wrap modulo 256.
pub open spec fn wrap_byte(x: int) -> u8 {
    (x % 256) as u8
}

/// An arena in which every cell is zero.
pub open spec fn zeroed_arena() -> Seq<u8> {
    Seq::new(ARENA_SIZE as nat, |i: int| 0u8)
}

/// Whether `dp` addresses a cell of the arena.
pub open spec fn in_arena(dp: int) -> bool {
    0 <= dp < ARENA_SIZE
}

/// The state in which a run over `len` opcodes begins: both pointers at
/// zero, all cells zero, nothing read or written. A run over no opcodes has
/// halted before it begins.
pub open spec fn initial_run(len: nat, unread: Seq<u8>, closed: bool) -> Run {
    Run {
        ip: 0,
        dp: 0,
        memory: zeroed_arena(),
        unread,
        closed,
        written: Seq::empty(),
        count: 0,
        status: if len == 0 {
            Status::Halted
        } else {
            Status::Running
        },
    }
}

/// A state that a machine can be in while it runs a program of `len`
/// instructions.
pub open spec fn run_valid(len: nat, run: Run) -> bool {
    &&& run.memory.len() == ARENA_SIZE
    &&& in_arena(run.dp)
    &&& 0 <= run.ip <= len
    &&& 0 <= run.count <= usize::MAX
    &&& run.status == Status::Running ==> run.ip < len
}

/// Where a scan that starts at `dp` comes to rest.
pub enum ScanEnd {
    /// On the zero cell at this index.
    At(int),
    /// Nowhere: it left the arena first.
    Outside,
    /// Nowhere: its step is zero and the cell it stands on is not.
    Never,
}

/// How far a scan from `dp` is from the edge of the arena that it moves
/// towards.
pub open spec fn scan_room(dp: int, step: int) -> int {
    if step > 0 {
        ARENA_SIZE - dp
    } else {
        dp
    }
}

/// Moves by `step` from `dp` until the cell is zero.
pub open spec fn scan_end(memory: Seq<u8>, dp: int, step: int) -> ScanEnd
    decreases scan_room(dp, step),
{
    if !in_arena(dp) {
        ScanEnd::Outside
    } else if memory[dp] == 0 {
        ScanEnd::At(dp)
    } else if step == 0 {
        ScanEnd::Never
    } else if !in_arena(dp + step) {
        ScanEnd::Outside
    } else {
        scan_end(memory, dp + step, step)
    }
}

/// The cell that a `Multi` adds to: `offset` away from `dp`, but never below
/// the first cell.
pub open spec fn multi_target(dp: int, offset: int) -> int {
    if dp + offset < 0 {
        0
    } else {
        dp + offset
    }
}

/// `count` copies of `byte`.
pub open spec fn repeated(byte: u8, count: nat) -> Seq<u8> {
    Seq::new(count, |i: int| byte)
}

/// What a program works on: the arena with its data pointer, and the two
/// streams of bytes.
pub struct Tape {
    /// Index of the current cell.
    pub dp: int,
    /// The cells of the arena.
    pub memory: Seq<u8>,
    /// The bytes that have arrived and have not been read.
    pub unread: Seq<u8>,
    /// Whether no more bytes will arrive.
    pub closed: bool,
    /// The bytes written so far.
    pub written: Seq<u8>,
}

/// The tape of a run.
pub open spec fn tape_of(run: Run) -> Tape {
    Tape {
        dp: run.dp,
        memory: run.memory,
        unread: run.unread,
        closed: run.closed,
        written: run.written,
    }
}

/// The run with another tape.
pub open spec fn with_tape(run: Run, tape: Tape) -> Run {
    Run {
        dp: tape.dp,
        memory: tape.memory,
        unread: tape.unread,
        closed: tape.closed,
        written: tape.written,
        ..run
    }
}

/// A tape with a whole arena and the data pointer inside it.
pub open spec fn tape_ok(tape: Tape) -> bool {
    tape.memory.len() == ARENA_SIZE && in_arena(tape.dp)
}

/// The current cell.
pub open spec fn cell(tape: Tape) -> u8 {
    tape.memory[tape.dp]
}

/// What one opcode other than a bracket does to the tape.
pub enum Effect {
    /// It leaves this tape.
    Next(Tape),
    /// It fails: the data pointer would leave the arena, or input has run out.
    Fault,
    /// It fails: a `Multi` would add to a cell beyond the arena.
    Overrun,
    /// It does not come to an end: it waits for input, or scans in place.
    Stuck,
}

/// The effect of an opcode other than a bracket.
///
/// A `ReadChar` reads one byte `count` times, so that the cell holds the last
/// of them; with fewer bytes than that it waits if more may arrive, and fails
/// if not. A `Multi` whose target would lie before the first cell adds to the
/// first cell.
pub open spec fn effect(op: Opcode, tape: Tape) -> Effect {
    match op {
        Opcode::Change { delta } => Effect::Next(
            Tape { memory: tape.memory.update(tape.dp, wrap_byte(cell(tape) + delta)), ..tape },
        ),
        Opcode::Move { delta } => if in_arena(tape.dp + delta) {
            Effect::Next(Tape { dp: tape.dp + delta, ..tape })
        } else {
            Effect::Fault
        },
        Opcode::PutChar { count } => Effect::Next(
            Tape { written: tape.written + repeated(cell(tape), count as nat), ..tape },
        ),
        Opcode::ReadChar { count } => if count == 0 {
            Effect::Next(tape)
        } else if tape.unread.len() >= count {
            Effect::Next(
                Tape {
                    memory: tape.memory.update(tape.dp, tape.unread[count - 1]),
                    unread: tape.unread.skip(count as int),
                    ..tape
                },
            )
        } else if !tape.closed {
            Effect::Stuck
        } else {
            Effect::Fault
        },
        Opcode::SetTo { value } => Effect::Next(
            Tape { memory: tape.memory.update(tape.dp, wrap_byte(value as int)), ..tape },
        ),
        Opcode::ScanBy { step } => match scan_end(tape.memory, tape.dp, step as int) {
            ScanEnd::At(dp) => Effect::Next(Tape { dp, ..tape }),
            ScanEnd::Outside => Effect::Fault,
            ScanEnd::Never => Effect::Stuck,
        },
        Opcode::Multi { offset, factor } => {
            let at = multi_target(tape.dp, offset as int);
            if at < ARENA_SIZE {
                Effect::Next(
                    Tape {
                        memory: tape.memory.update(
                            at,
                            wrap_byte(tape.memory[at] + wrap_byte(factor as int) * cell(tape)),
                        ),
                        ..tape
                    },
                )
            } else {
                Effect::Overrun
            }
        },
        _ => Effect::Next(tape),
    }
}

/// The state after an instruction of a program of `len` instructions has
/// been dispatched: the instruction pointer moves on by one, the count grows
/// by one, and the run halts if that was the last instruction.
pub open spec fn advanced(len: nat, run: Run) -> Run {
    Run {
        ip: run.ip + 1,
        count: if run.count < usize::MAX {
            run.count + 1
        } else {
            run.count
        },
        status: if run.ip + 1 >= len {
            Status::Halted
        } else {
            Status::Running
        },
        ..run
    }
}

/// The state after a fault: nothing but the status changes.
pub open spec fn faulted(run: Run) -> Run {
    Run { status: Status::Faulted, ..run }
}

/// A jump that is taken: to `target`, or into a fault if the program has no
/// such index.
pub open spec fn jumped(len: nat, run: Run, target: int) -> Run {
    if 0 <= target < len {
        advanced(len, Run { ip: target, ..run })
    } else {
        faulted(run)
    }
}

/// The state after the dispatch of an instruction with the given effect: the
/// new tape and the next instruction, a fault, or the same state if the
/// instruction does not come to an end.
pub open spec fn dispatched(len: nat, run: Run, effect: Effect) -> Run {
    match effect {
        Effect::Next(tape) => advanced(len, with_tape(run, tape)),
        Effect::Stuck => run,
        _ => faulted(run),
    }
}

/// Whether the run waits for input: the next opcode reads more bytes than
/// have arrived, and more may arrive.
pub open spec fn starved(program: Seq<Opcode>, run: Run) -> bool {
    &&& run.status == Status::Running
    &&& !run.closed
    &&& program[run.ip] matches Opcode::ReadChar { count }
    &&& run.unread.len() < count
}

/// One dispatch. A run that is not running stays as it is, and so does one
/// that waits for input or stands on a scan that never ends. The target of a
/// jump is the index of the partner, and the dispatch that jumps there moves
/// on by one from it like every other.
pub open spec fn step_of(program: Seq<Opcode>, run: Run) -> Run {
    if run.status != Status::Running {
        run
    } else {
        match program[run.ip] {
            Opcode::JumpIfZero { target } => if run.memory[run.dp] == 0 {
                jumped(program.len(), run, target as int)
            } else {
                advanced(program.len(), run)
            },
            Opcode::JumpIfNonZero { target } => if run.memory[run.dp] != 0 {
                jumped(program.len(), run, target as int)
            } else {
                advanced(program.len(), run)
            },
            op => dispatched(program.len(), run, effect(op, tape_of(run))),
        }
    }
}

/// The state after up to `budget` dispatches.
pub open spec fn run_for(program: Seq<Opcode>, run: Run, budget: nat) -> Run
    decreases budget,
{
    if budget == 0 || run.status != Status::Running {
        run
    } else {
        run_for(program, step_of(program, run), (budget - 1) as nat)
    }
}

/// An opcode leaves a whole tape whole.
pub proof fn lemma_effect_ok(op: Opcode, tape: Tape)
    requires
        tape_ok(tape),
    ensures
        effect(op, tape) matches Effect::Next(after) ==> tape_ok(after),
{
    match op {
        Opcode::ScanBy { step } => {
            lemma_scan_end_in_arena(tape.memory, tape.dp, step as int);
        },
        _ => {},
    }
}

/// A dispatch leaves a valid state valid.
pub proof fn lemma_step_valid(program: Seq<Opcode>, run: Run)
    requires
        run_valid(program.len(), run),
    ensures
        run_valid(program.len(), step_of(program, run)),
{
    if run.status == Status::Running {
        match program[run.ip] {
            Opcode::ScanBy { step } => {
                lemma_scan_end_in_arena(run.memory, run.dp, step as int);
            },
            _ => {},
        }
    }
}

/// A scan comes to rest inside the arena, on a zero cell.
pub proof fn lemma_scan_end_in_arena(memory: Seq<u8>, dp: int, step: int)
    ensures
        scan_end(memory, dp, step) matches ScanEnd::At(rest) ==> in_arena(rest) && memory[rest]
            == 0,
    decreases scan_room(dp, step),
{
    if in_arena(dp) && memory[dp] != 0 && step != 0 && in_arena(dp + step) {
        lemma_scan_end_in_arena(memory, dp + step, step);
    }
}

/// Any number of dispatches leaves a valid state valid.
pub proof fn lemma_run_valid(program: Seq<Opcode>, run: Run, budget: nat)
    requires
        run_valid(program.len(), run),
    ensures
        run_valid(program.len(), run_for(program, run, budget)),
    decreases budget,
{
    if budget > 0 && run.status == Status::Running {
        lemma_step_valid(program, run);
        lemma_run_valid(program, step_of(program, run), (budget - 1) as nat);
    }
}

/// A state that a dispatch does not change is not changed by any number of
/// dispatches.
pub proof fn lemma_run_fixed(program: Seq<Opcode>, run: Run, budget: nat)
    requires
        step_of(program, run) == run,
    ensures
        run_for(program, run, budget) == run,
    decreases budget,
{
    if budget > 0 && run.status == Status::Running {
        lemma_run_fixed(program, run, (budget - 1) as nat);
    }
}

/// Dispatches can be taken in two lots.
pub proof fn lemma_run_split(program: Seq<Opcode>, run: Run, first: nat, then: nat)
    ensures
        run_for(program, run_for(program, run, first), then) == run_for(
            program,
            run,
            first + then,
        ),
    decreases first,
{
    if run.status != Status::Running {
        lemma_run_stopped(program, run, then);
        lemma_run_stopped(program, run, first + then);
    } else if first > 0 {
        lemma_run_split(program, step_of(program, run), (first - 1) as nat, then);
    }
}

/// A run that is not running stays as it is.
pub proof fn lemma_run_stopped(program: Seq<Opcode>, run: Run, budget: nat)
    requires
        run.status != Status::Running,
    ensures
        run_for(program, run, budget) == run,
{
}

/// A `Move` that would take the data pointer out of the arena faults: the
/// pointer neither wraps round nor stops at the edge, and nothing else
/// changes, however long the run is continued.
pub proof fn lemma_move_outside_faults(program: Seq<Opcode>, run: Run, budget: nat)
    requires
        run.status == Status::Running,
        0 <= run.ip < program.len(),
        program[run.ip] matches Opcode::Move { delta } && !in_arena(run.dp + delta),
        budget > 0,
    ensures
        run_for(program, run, budget) == faulted(run),
{
    lemma_run_stopped(program, faulted(run), (budget - 1) as nat);
}

/// A scan that would take the data pointer out of the arena faults, and
/// leaves the pointer where the scan began.
pub proof fn lemma_scan_outside_faults(program: Seq<Opcode>, run: Run, budget: nat)
    requires
        run.status == Status::Running,
        0 <= run.ip < program.len(),
        program[run.ip] matches Opcode::ScanBy { step } && scan_end(
            run.memory,
            run.dp,
            step as int,
        ) == ScanEnd::Outside,
        budget > 0,
    ensures
        run_for(program, run, budget) == faulted(run),
{
    lemma_run_stopped(program, faulted(run), (budget - 1) as nat);
}

/// A program without opcodes has halted before it begins: nothing is
/// dispatched, every cell is zero, and nothing is read or written.
pub proof fn lemma_empty_program_halts(input: Seq<u8>, closed: bool, budget: nat)
    ensures
        run_for(Seq::empty(), initial_run(0, input, closed), budget) == (Run {
            ip: 0,
            dp: 0,
            memory: zeroed_arena(),
            unread: input,
            closed,
            written: Seq::empty(),
            count: 0,
            status: Status::Halted,
        }),
{
}

} // verus!
