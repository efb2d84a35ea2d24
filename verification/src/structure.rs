//! The meaning of a program by its structure: what a sequence of opcodes
//! does to the tape, with each loop taken as a whole. Jump targets play no
//! part in it.

use crate::opcodes::Opcode;
use crate::semantics::{cell, effect, lemma_effect_ok, tape_ok, Effect, Tape};
use vstd::prelude::*;

verus! {

/// How a piece of a program ends.
pub enum Outcome {
    /// At its end, with this tape.
    Done(Tape),
    /// In a fault.
    Fault,
    /// In the fault of a `Multi` that would add to a cell beyond the arena.
    Overrun,
}

/// Scanning right from `k` with `pending` opens to close: the index of the
/// close that closes the last of them, or the length if there is none.
pub open spec fn close_index(code: Seq<Opcode>, k: int, pending: int) -> int
    decreases code.len() - k,
{
    if k < 0 || k >= code.len() {
        code.len() as int
    } else if code[k].is_open() {
        close_index(code, k + 1, pending + 1)
    } else if code[k].is_close() {
        if pending <= 1 {
            k
        } else {
            close_index(code, k + 1, pending - 1)
        }
    } else {
        close_index(code, k + 1, pending)
    }
}

/// The index of the close of the loop that `code` begins with.
pub open spec fn loop_end(code: Seq<Opcode>) -> int {
    close_index(code, 1, 1)
}

/// The scan for a close ends between where it starts and the end.
pub proof fn lemma_close_index_bound(code: Seq<Opcode>, k: int, pending: int)
    requires
        0 <= k <= code.len(),
    ensures
        k <= close_index(code, k, pending) <= code.len(),
    decreases code.len() - k,
{
    if k < code.len() {
        lemma_close_index_bound(code, k + 1, pending + 1);
        lemma_close_index_bound(code, k + 1, pending - 1);
        lemma_close_index_bound(code, k + 1, pending);
    }
}

/// What `code` does to `tape`, if it comes to an end while no loop goes
/// round more than `fuel` times on end. A loop is skipped on a zero cell, and
/// else its body runs until it leaves a zero cell.
pub open spec fn eval(code: Seq<Opcode>, tape: Tape, fuel: nat) -> Option<Outcome>
    decreases fuel, code.len(), 1nat,
{
    if code.len() == 0 {
        Some(Outcome::Done(tape))
    } else if code[0].is_open() {
        let end = loop_end(code);
        proof {
            lemma_close_index_bound(code, 1, 1);
        }
        if end >= code.len() {
            Some(Outcome::Fault)
        } else if cell(tape) == 0 {
            eval(code.skip(end + 1), tape, fuel)
        } else {
            match eval_loop(code.subrange(1, end), tape, fuel) {
                Some(Outcome::Done(after)) => eval(code.skip(end + 1), after, fuel),
                other => other,
            }
        }
    } else if code[0].is_close() {
        Some(Outcome::Fault)
    } else {
        match effect(code[0], tape) {
            Effect::Next(after) => eval(code.skip(1), after, fuel),
            Effect::Fault => Some(Outcome::Fault),
            Effect::Overrun => Some(Outcome::Overrun),
            Effect::Stuck => None,
        }
    }
}

/// What a loop with the given body does once it has been entered: the body
/// runs, and runs again while it leaves a cell that is not zero.
pub open spec fn eval_loop(body: Seq<Opcode>, tape: Tape, fuel: nat) -> Option<Outcome>
    decreases fuel, body.len(), 2nat,
{
    match eval(body, tape, fuel) {
        Some(Outcome::Done(after)) => if cell(after) == 0 {
            Some(Outcome::Done(after))
        } else if fuel == 0 {
            None
        } else {
            eval_loop(body, after, (fuel - 1) as nat)
        },
        other => other,
    }
}

/// A piece of a program leaves a whole tape whole.
pub proof fn lemma_eval_ok(code: Seq<Opcode>, tape: Tape, fuel: nat)
    requires
        tape_ok(tape),
    ensures
        eval(code, tape, fuel) matches Some(Outcome::Done(after)) ==> tape_ok(after),
    decreases fuel, code.len(), 1nat,
{
    if code.len() == 0 {
    } else if code[0].is_open() {
        let end = loop_end(code);
        lemma_close_index_bound(code, 1, 1);
        if end >= code.len() {
        } else if cell(tape) == 0 {
            lemma_eval_ok(code.skip(end + 1), tape, fuel);
        } else {
            lemma_eval_loop_ok(code.subrange(1, end), tape, fuel);
            match eval_loop(code.subrange(1, end), tape, fuel) {
                Some(Outcome::Done(after)) => {
                    lemma_eval_ok(code.skip(end + 1), after, fuel);
                },
                _ => {},
            }
        }
    } else if code[0].is_close() {
    } else {
        lemma_effect_ok(code[0], tape);
        match effect(code[0], tape) {
            Effect::Next(after) => {
                lemma_eval_ok(code.skip(1), after, fuel);
            },
            _ => {},
        }
    }
}

/// A loop leaves a whole tape whole, on a zero cell.
pub proof fn lemma_eval_loop_ok(body: Seq<Opcode>, tape: Tape, fuel: nat)
    requires
        tape_ok(tape),
    ensures
        eval_loop(body, tape, fuel) matches Some(Outcome::Done(after)) ==> tape_ok(after) && cell(
            after,
        ) == 0,
    decreases fuel, body.len(), 2nat,
{
    lemma_eval_ok(body, tape, fuel);
    match eval(body, tape, fuel) {
        Some(Outcome::Done(after)) => {
            if cell(after) != 0 && fuel > 0 {
                lemma_eval_loop_ok(body, after, (fuel - 1) as nat);
            }
        },
        _ => {},
    }
}

} // verus!
