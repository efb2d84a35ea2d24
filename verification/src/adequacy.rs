//! The machine and the structure agree: on a program whose jump targets are
//! resolved, what the dispatches of the machine arrive at is what the
//! program means by its structure.

use crate::brackets::{balanced, depth, first_return, matched};
use crate::opcodes::Opcode;
use crate::pairing::{lemma_first_return_unique, lemma_matched_open};
use crate::refinement::{lemma_balanced_loop, lemma_balanced_step, lemma_depth_subrange};
use crate::semantics::{
    cell, effect, lemma_run_fixed, lemma_run_split, lemma_run_stopped, lemma_scan_end_in_arena,
    multi_target, run_for, run_valid, step_of, tape_of, Effect, Run, Status, Tape,
};
use crate::state::ARENA_SIZE;
use crate::structure::{eval, eval_loop, loop_end, Outcome};
use vstd::prelude::*;

verus! {

/// The run stands before the instruction at `ip` of a program of `len`
/// instructions: running, or halted if that is the end.
pub open spec fn standing_at(len: nat, run: Run, ip: int) -> bool {
    run.ip == ip && run.status == if ip < len {
        Status::Running
    } else {
        Status::Halted
    }
}

/// The run has faulted at a `Multi` that would add to a cell beyond the
/// arena.
pub open spec fn overrun(program: Seq<Opcode>, run: Run) -> bool {
    &&& run.status == Status::Faulted
    &&& 0 <= run.ip < program.len()
    &&& program[run.ip] matches Opcode::Multi { offset, .. }
    &&& multi_target(run.dp, offset as int) >= ARENA_SIZE
}

/// What a number of dispatches arrive at is what the opcodes from `lo` up to
/// `hi` do by their structure: an end at `hi`, a fault, or no end yet.
#[verifier::opaque]
pub open spec fn arrives(
    program: Seq<Opcode>,
    run: Run,
    hi: int,
    meaning: Option<Outcome>,
    steps: nat,
    fuel: nat,
) -> bool {
    match meaning {
        Some(Outcome::Done(tape)) => {
            &&& standing_at(program.len(), run_for(program, run, steps), hi)
            &&& tape_of(run_for(program, run, steps)) == tape
            &&& run_valid(program.len(), run_for(program, run, steps))
        },
        Some(Outcome::Overrun) => overrun(program, run_for(program, run, steps)),
        Some(Outcome::Fault) => run_for(program, run, steps).status == Status::Faulted,
        None => run_for(program, run, fuel).status == Status::Running,
    }
}

/// The dispatch of an opcode other than a bracket does to the tape what the
/// opcode does.
pub proof fn lemma_step_simple(program: Seq<Opcode>, run: Run)
    requires
        run_valid(program.len(), run),
        run.status == Status::Running,
        !program[run.ip].is_bracket(),
    ensures
        match effect(program[run.ip], tape_of(run)) {
            Effect::Next(tape) => {
                &&& standing_at(program.len(), step_of(program, run), run.ip + 1)
                &&& tape_of(step_of(program, run)) == tape
                &&& run_valid(program.len(), step_of(program, run))
            },
            Effect::Stuck => step_of(program, run) == run,
            Effect::Overrun => overrun(program, step_of(program, run)),
            Effect::Fault => step_of(program, run).status == Status::Faulted,
        },
{
    match program[run.ip] {
        Opcode::ScanBy { step } => {
            lemma_scan_end_in_arena(run.memory, run.dp, step as int);
        },
        _ => {},
    }
}

/// A run that is still running after some dispatches was running after
/// fewer.
pub proof fn lemma_still_running(program: Seq<Opcode>, run: Run, fewer: nat, more: nat)
    requires
        fewer <= more,
        run_for(program, run, more).status == Status::Running,
    ensures
        run_for(program, run, fewer).status == Status::Running,
{
    lemma_run_split(program, run, fewer, (more - fewer) as nat);
    if run_for(program, run, fewer).status != Status::Running {
        lemma_run_stopped(program, run_for(program, run, fewer), (more - fewer) as nat);
    }
}

/// One dispatch and then some are some more dispatches.
proof fn lemma_run_first(program: Seq<Opcode>, run: Run, then: nat)
    requires
        run.status == Status::Running,
    ensures
        run_for(program, run, then + 1) == run_for(program, step_of(program, run), then),
{
}

/// A run that stands at the end of a part has arrived there.
proof fn lemma_arrived(program: Seq<Opcode>, run: Run, hi: int, fuel: nat)
    requires
        run_valid(program.len(), run),
        standing_at(program.len(), run, hi),
    ensures
        arrives(program, run, hi, Some(Outcome::Done(tape_of(run))), 0, fuel),
{
    reveal(arrives);
}

/// Where a run that arrives at an end stands, and what it holds.
proof fn lemma_arrival(
    program: Seq<Opcode>,
    run: Run,
    hi: int,
    tape: Tape,
    steps: nat,
    fuel: nat,
)
    requires
        arrives(program, run, hi, Some(Outcome::Done(tape)), steps, fuel),
    ensures
        standing_at(program.len(), run_for(program, run, steps), hi),
        tape_of(run_for(program, run, steps)) == tape,
        run_valid(program.len(), run_for(program, run, steps)),
{
    reveal(arrives);
}

/// A run that a dispatch does not change has no end.
proof fn lemma_arrives_never(program: Seq<Opcode>, run: Run, hi: int, fuel: nat)
    requires
        run.status == Status::Running,
        fuel == 0 || step_of(program, run) == run,
    ensures
        arrives(program, run, hi, None, 0, fuel),
{
    reveal(arrives);
    if fuel > 0 {
        lemma_run_fixed(program, run, fuel);
    }
}

/// A run whose next dispatch faults arrives at the fault.
proof fn lemma_arrives_fault(program: Seq<Opcode>, run: Run, hi: int, fuel: nat)
    requires
        run.status == Status::Running,
    ensures
        step_of(program, run).status == Status::Faulted ==> arrives(
            program,
            run,
            hi,
            Some(Outcome::Fault),
            1,
            fuel,
        ),
        overrun(program, step_of(program, run)) ==> arrives(
            program,
            run,
            hi,
            Some(Outcome::Overrun),
            1,
            fuel,
        ),
{
    reveal(arrives);
    lemma_run_first(program, run, 0);
}

/// After an arrival at the first step, the arrival of the whole.
proof fn lemma_arrives_after_step(
    program: Seq<Opcode>,
    run: Run,
    hi: int,
    meaning: Option<Outcome>,
    steps: nat,
    fuel: nat,
)
    requires
        run.status == Status::Running,
        arrives(program, step_of(program, run), hi, meaning, steps, fuel),
    ensures
        arrives(program, run, hi, meaning, steps + 1, fuel),
{
    reveal(arrives);
    lemma_run_first(program, run, steps);
    if meaning is None {
        if fuel > 0 {
            lemma_run_first(program, run, (fuel - 1) as nat);
            lemma_still_running(program, step_of(program, run), (fuel - 1) as nat, fuel);
        }
    }
}

/// After an arrival at the end of a first part, the arrival of the whole.
proof fn lemma_arrives_after_part(
    program: Seq<Opcode>,
    run: Run,
    first: nat,
    hi: int,
    meaning: Option<Outcome>,
    steps: nat,
    fuel: nat,
)
    requires
        arrives(program, run_for(program, run, first), hi, meaning, steps, fuel),
    ensures
        arrives(program, run, hi, meaning, first + steps, fuel),
{
    reveal(arrives);
    lemma_run_split(program, run, first, steps);
    if meaning is None {
        lemma_run_split(program, run, first, fuel);
        lemma_still_running(program, run, fuel, first + fuel);
    }
}

/// An arrival with less fuel that is no loss of fuel is an arrival with more.
proof fn lemma_arrives_refuel(
    program: Seq<Opcode>,
    run: Run,
    hi: int,
    meaning: Option<Outcome>,
    steps: nat,
    less: nat,
    fuel: nat,
)
    requires
        arrives(program, run, hi, meaning, steps, less),
        meaning is Some,
    ensures
        arrives(program, run, hi, meaning, steps, fuel),
{
    reveal(arrives);
}

/// A run that goes round a loop once more and then has no end within the
/// fuel that is left had no end within the fuel before.
proof fn lemma_arrives_round_none(
    program: Seq<Opcode>,
    run: Run,
    once: nat,
    hi: int,
    fuel: nat,
)
    requires
        fuel > 0,
        run_for(program, run, once).status == Status::Running,
        arrives(
            program,
            step_of(program, run_for(program, run, once)),
            hi,
            None,
            0,
            (fuel - 1) as nat,
        ),
    ensures
        arrives(program, run, hi, None, 0, fuel),
{
    reveal(arrives);
    let at_close = run_for(program, run, once);
    lemma_run_first(program, at_close, (fuel - 1) as nat);
    lemma_run_split(program, run, once, fuel);
    lemma_still_running(program, run, fuel, once + fuel);
}

/// The dispatch of an open: into the body on a cell that is not zero, and
/// behind the close on a zero cell.
proof fn lemma_step_open(program: Seq<Opcode>, run: Run, c: int)
    requires
        run_valid(program.len(), run),
        run.status == Status::Running,
        program[run.ip] == (Opcode::JumpIfZero { target: c as usize }),
        run.ip < c < program.len(),
        program.len() <= usize::MAX,
    ensures
        standing_at(
            program.len(),
            step_of(program, run),
            if cell(tape_of(run)) == 0 {
                c + 1
            } else {
                run.ip + 1
            },
        ),
        tape_of(step_of(program, run)) == tape_of(run),
        run_valid(program.len(), step_of(program, run)),
{
}

/// The dispatch of a close: back into the body on a cell that is not zero,
/// and on behind the close on a zero cell.
proof fn lemma_step_close(program: Seq<Opcode>, run: Run, lo: int)
    requires
        run_valid(program.len(), run),
        run.status == Status::Running,
        program[run.ip] == (Opcode::JumpIfNonZero { target: lo as usize }),
        0 <= lo < run.ip,
        program.len() <= usize::MAX,
    ensures
        standing_at(
            program.len(),
            step_of(program, run),
            if cell(tape_of(run)) == 0 {
                run.ip + 1
            } else {
                lo + 1
            },
        ),
        tape_of(step_of(program, run)) == tape_of(run),
        run_valid(program.len(), step_of(program, run)),
{
}

/// Where the loop that a balanced part of a resolved program begins with
/// closes, and what stands there.
proof fn lemma_block_loop(program: Seq<Opcode>, lo: int, hi: int)
    requires
        matched(program),
        0 <= lo < hi <= program.len(),
        balanced(program.subrange(lo, hi)),
        program[lo].is_open(),
    ensures
        lo < lo + loop_end(program.subrange(lo, hi)) < hi,
        program[lo] == (Opcode::JumpIfZero {
            target: (lo + loop_end(program.subrange(lo, hi))) as usize,
        }),
        program[lo + loop_end(program.subrange(lo, hi))] == (Opcode::JumpIfNonZero {
            target: lo as usize,
        }),
        program.subrange(lo, hi).subrange(1, loop_end(program.subrange(lo, hi)))
            == program.subrange(lo + 1, lo + loop_end(program.subrange(lo, hi))),
        program.subrange(lo, hi).skip(loop_end(program.subrange(lo, hi)) + 1) == program.subrange(
            lo + loop_end(program.subrange(lo, hi)) + 1,
            hi,
        ),
        balanced(program.subrange(lo + 1, lo + loop_end(program.subrange(lo, hi)))),
        balanced(program.subrange(lo + loop_end(program.subrange(lo, hi)) + 1, hi)),
{
    let code = program.subrange(lo, hi);
    assert(code[0] == program[lo]);
    lemma_balanced_loop(code);
    lemma_matched_open(program, lo);
    let end = loop_end(code);
    let c = lo + end;
    let target = program[lo]->JumpIfZero_target as int;
    assert(first_return(program, lo + 1, depth(program, lo), c)) by {
        assert(code[end] == program[c]);
        lemma_depth_subrange(program, lo, hi, end + 1);
        assert forall|j: int| lo + 1 <= j <= c implies #[trigger] depth(program, j) > depth(
            program,
            lo,
        ) by {
            lemma_depth_subrange(program, lo, hi, j - lo);
            assert(depth(code, j - lo) > 0);
        }
    }
    lemma_first_return_unique(program, lo + 1, depth(program, lo), target, c);
    assert(code.subrange(1, end) == program.subrange(lo + 1, c));
    assert(code.skip(end + 1) == program.subrange(c + 1, hi));
}

/// What a part that begins with a loop means, by what the loop and the rest
/// mean.
proof fn lemma_eval_loop_first(code: Seq<Opcode>, tape: Tape, fuel: nat)
    requires
        code.len() > 0,
        code[0].is_open(),
        loop_end(code) < code.len(),
    ensures
        eval(code, tape, fuel) == if cell(tape) == 0 {
            eval(code.skip(loop_end(code) + 1), tape, fuel)
        } else {
            match eval_loop(code.subrange(1, loop_end(code)), tape, fuel) {
                Some(Outcome::Done(after)) => eval(code.skip(loop_end(code) + 1), after, fuel),
                other => other,
            }
        },
{
}

/// What a loop that has been entered means, by what its body means.
proof fn lemma_eval_loop_round(body: Seq<Opcode>, tape: Tape, fuel: nat)
    ensures
        eval_loop(body, tape, fuel) == match eval(body, tape, fuel) {
            Some(Outcome::Done(after)) => if cell(after) == 0 {
                Some(Outcome::Done(after))
            } else if fuel == 0 {
                None
            } else {
                eval_loop(body, after, (fuel - 1) as nat)
            },
            other => other,
        },
{
}

/// What a part that begins with an opcode other than a bracket means.
proof fn lemma_eval_simple_first(code: Seq<Opcode>, tape: Tape, fuel: nat)
    requires
        code.len() > 0,
        !code[0].is_bracket(),
    ensures
        eval(code, tape, fuel) == match effect(code[0], tape) {
            Effect::Next(after) => eval(code.skip(1), after, fuel),
            Effect::Fault => Some(Outcome::Fault),
            Effect::Overrun => Some(Outcome::Overrun),
            Effect::Stuck => None,
        },
{
}

/// The opcodes from `lo` up to `hi`, if balanced, take the machine where
/// their structure says.
pub proof fn lemma_block(program: Seq<Opcode>, lo: int, hi: int, run: Run, fuel: nat) -> (steps:
    nat)
    requires
        matched(program),
        program.len() <= usize::MAX,
        0 <= lo <= hi <= program.len(),
        balanced(program.subrange(lo, hi)),
        run_valid(program.len(), run),
        standing_at(program.len(), run, lo),
    ensures
        arrives(
            program,
            run,
            hi,
            eval(program.subrange(lo, hi), tape_of(run), fuel),
            steps,
            fuel,
        ),
    decreases fuel, hi - lo, 1nat,
{
    let code = program.subrange(lo, hi);
    let tape = tape_of(run);
    let meaning = eval(code, tape, fuel);
    if lo == hi {
        lemma_arrived(program, run, hi, fuel);
        0
    } else {
        assert(code[0] == program[lo]);
        lemma_balanced_step(code);
        let next = step_of(program, run);
        if code[0].is_open() {
            lemma_block_loop(program, lo, hi);
            let c = lo + loop_end(code);
            lemma_step_open(program, run, c);
            lemma_eval_loop_first(code, tape, fuel);
            if cell(tape) == 0 {
                let then = lemma_block(program, c + 1, hi, next, fuel);
                lemma_arrives_after_step(program, run, hi, meaning, then, fuel);
                then + 1
            } else {
                let rounds = lemma_loop_block(program, lo, c, next, fuel);
                let looped = eval_loop(program.subrange(lo + 1, c), tape, fuel);
                if let Some(Outcome::Done(after)) = looped {
                    lemma_arrival(program, next, c + 1, after, rounds, fuel);
                    let out = run_for(program, next, rounds);
                    let then = lemma_block(program, c + 1, hi, out, fuel);
                    lemma_arrives_after_part(program, next, rounds, hi, meaning, then, fuel);
                    lemma_arrives_after_step(program, run, hi, meaning, rounds + then, fuel);
                    rounds + then + 1
                } else {
                    lemma_loop_other(program, next, c + 1, hi, looped, rounds, fuel);
                    lemma_arrives_after_step(program, run, hi, meaning, rounds, fuel);
                    rounds + 1
                }
            }
        } else {
            lemma_step_simple(program, run);
            lemma_eval_simple_first(code, tape, fuel);
            match effect(code[0], tape) {
                Effect::Next(after) => {
                    assert(code.skip(1) == program.subrange(lo + 1, hi));
                    let then = lemma_block(program, lo + 1, hi, next, fuel);
                    lemma_arrives_after_step(program, run, hi, meaning, then, fuel);
                    then + 1
                },
                Effect::Stuck => {
                    lemma_arrives_never(program, run, hi, fuel);
                    0
                },
                _ => {
                    lemma_arrives_fault(program, run, hi, fuel);
                    1
                },
            }
        }
    }
}

/// An arrival that is no end does not depend on where the end would be.
proof fn lemma_loop_other(
    program: Seq<Opcode>,
    run: Run,
    from: int,
    hi: int,
    meaning: Option<Outcome>,
    steps: nat,
    fuel: nat,
)
    requires
        arrives(program, run, from, meaning, steps, fuel),
        !(meaning matches Some(Outcome::Done(_))),
    ensures
        arrives(program, run, hi, meaning, steps, fuel),
{
    reveal(arrives);
}

/// The body of a loop, entered, takes the machine round and round as its
/// structure says, and then behind the close.
pub proof fn lemma_loop_block(program: Seq<Opcode>, lo: int, c: int, run: Run, fuel: nat) -> (steps:
    nat)
    requires
        matched(program),
        program.len() <= usize::MAX,
        0 <= lo < c < program.len(),
        program[c] == (Opcode::JumpIfNonZero { target: lo as usize }),
        balanced(program.subrange(lo + 1, c)),
        run_valid(program.len(), run),
        standing_at(program.len(), run, lo + 1),
    ensures
        arrives(
            program,
            run,
            c + 1,
            eval_loop(program.subrange(lo + 1, c), tape_of(run), fuel),
            steps,
            fuel,
        ),
    decreases fuel, c - lo - 1, 2nat,
{
    let body = program.subrange(lo + 1, c);
    let tape = tape_of(run);
    let looped = eval_loop(body, tape, fuel);
    let once = lemma_block(program, lo + 1, c, run, fuel);
    lemma_eval_loop_round(body, tape, fuel);
    if let Some(Outcome::Done(after)) = eval(body, tape, fuel) {
        lemma_arrival(program, run, c, after, once, fuel);
        let at_close = run_for(program, run, once);
        let next = step_of(program, at_close);
        lemma_step_close(program, at_close, lo);
        if cell(after) == 0 {
            lemma_arrived(program, next, c + 1, fuel);
            lemma_arrives_after_step(program, at_close, c + 1, looped, 0, fuel);
            lemma_arrives_after_part(program, run, once, c + 1, looped, 1, fuel);
            once + 1
        } else if fuel == 0 {
            lemma_arrives_never(program, run, c + 1, fuel);
            0
        } else {
            let less = (fuel - 1) as nat;
            let more = lemma_loop_block(program, lo, c, next, less);
            if looped is None {
                lemma_loop_none(program, next, c + 1, more, less);
                lemma_arrives_round_none(program, run, once, c + 1, fuel);
                0
            } else {
                lemma_arrives_refuel(program, next, c + 1, looped, more, less, fuel);
                lemma_arrives_after_step(program, at_close, c + 1, looped, more, fuel);
                lemma_arrives_after_part(program, run, once, c + 1, looped, more + 1, fuel);
                once + more + 1
            }
        }
    } else {
        lemma_loop_other(program, run, c, c + 1, looped, once, fuel);
        once
    }
}

/// Having no end does not depend on a number of dispatches.
proof fn lemma_loop_none(program: Seq<Opcode>, run: Run, hi: int, steps: nat, fuel: nat)
    requires
        arrives(program, run, hi, None, steps, fuel),
    ensures
        arrives(program, run, hi, None, 0, fuel),
{
    reveal(arrives);
}

} // verus!
