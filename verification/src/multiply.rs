//! Why a multiply-accumulate loop may be replaced by its reduction: what the
//! loop adds to each cell, round after round, is what the `Multi` opcodes add
//! at once.

use crate::brackets::{balanced, depth, first_return, lemma_depth_flat};
use crate::loops::{
    alternating, clear_body, counter_step, first_move, loop_rewrite, multiply_body,
    multiply_reduction, net_movement, simple_body, target_count, target_factor, target_multi,
    target_offset, target_ok,
};
use crate::opcodes::Opcode;
use crate::refinement::{lemma_close_index_is, refines, refines_at};
use crate::semantics::{
    cell, effect, in_arena, multi_target, tape_ok, wrap_byte, Effect, Tape,
};
use crate::state::ARENA_SIZE;
use crate::structure::{eval, eval_loop, Outcome};
use vstd::prelude::*;

verus! {

/// Two numbers that leave the same cell.
pub open spec fn same_cell(x: int, y: int) -> bool {
    (x - y) % 256 == 0
}

/// The product of two numbers.
pub open spec fn times(i: int, g: int) -> int {
    i * g
}

proof fn lemma_times_next(i: int, g: int)
    ensures
        times(i + 1, g) == times(i, g) + g,
        times(0, g) == 0,
        times(i, 0) == 0,
        times(i, 1) == i,
        times(i, -1) == -i,
        times(i, g) == times(g, i),
        times(i, -g) == -times(i, g),
{
    assert((i + 1) * g == i * g + g) by (nonlinear_arith);
    assert(i * g == g * i) by (nonlinear_arith);
    assert(i * (-g) == -(i * g)) by (nonlinear_arith);
}

/// Numbers that leave the same cell still do when both are multiplied by a
/// third.
proof fn lemma_same_cell_times(x: int, y: int, z: int)
    requires
        same_cell(x, y),
    ensures
        same_cell(times(x, z), times(y, z)),
{
    let q = (x - y) / 256;
    assert(x - y == 256 * q);
    assert(x * z - y * z == 256 * (q * z)) by (nonlinear_arith)
        requires
            x - y == 256 * q,
    ;
    assert((256 * (q * z)) % 256 == 0) by (nonlinear_arith);
}

/// The number of `Move` opcodes among the first `j` opcodes of an
/// alternating body.
spec fn moves_before(body: Seq<Opcode>, j: int) -> int {
    (j - first_move(body) + 1) / 2
}

proof fn lemma_movement_upto(body: Seq<Opcode>, j: int)
    requires
        alternating(body),
        0 <= j <= body.len(),
    ensures
        net_movement(body.take(j)) == target_offset(body, moves_before(body, j)),
    decreases j,
{
    if j > 0 {
        lemma_movement_upto(body, j - 1);
        assert(body.take(j).drop_last() == body.take(j - 1));
        assert(body.take(j).last() == body[j - 1]);
        let base = first_move(body);
        if (j - 1) % 2 == base {
            assert(body[j - 1] is Move);
            assert(moves_before(body, j) == moves_before(body, j - 1) + 1);
            assert(base + 2 * (moves_before(body, j) - 1) == j - 1);
        } else {
            assert(body[j - 1] is Change);
            assert(moves_before(body, j) == moves_before(body, j - 1));
        }
    }
}

/// A simple alternating body ends each round where it began: the moves up to
/// the last add up to zero.
pub proof fn lemma_last_offset(body: Seq<Opcode>)
    requires
        alternating(body),
        simple_body(body),
    ensures
        target_offset(body, target_count(body) + 1) == 0,
{
    lemma_movement_upto(body, body.len() as int);
    assert(body.take(body.len() as int) == body);
}

/// What the `k`-th target of an alternating body gains in one round.
pub open spec fn amount(body: Seq<Opcode>, k: int) -> int {
    body[first_move(body) + 2 * (k - 1) + 1]->Change_delta as int
}

/// What the cell `off` away from the counter gains in one round from the
/// first `k` targets.
pub open spec fn gain(body: Seq<Opcode>, k: int, off: int) -> int
    decreases k,
{
    if k <= 0 {
        0
    } else {
        gain(body, k - 1, off) + if target_offset(body, k) == off {
            amount(body, k)
        } else {
            0
        }
    }
}

/// The memory once the first `k` targets have gained their amounts, and the
/// counter at `p` has gained `extra`.
pub open spec fn after_pairs(body: Seq<Opcode>, k: int, memory: Seq<u8>, p: int, extra: int) -> Seq<
    u8,
> {
    Seq::new(
        memory.len(),
        |y: int|
            wrap_byte(
                memory[y] + gain(body, k, y - p) + if y == p {
                    extra
                } else {
                    0
                },
            ),
    )
}

/// The targets behind the `from`-th lie in the arena when the counter is at
/// `p`.
pub open spec fn targets_in(body: Seq<Opcode>, from: int, p: int) -> bool {
    forall|j: int|
        from < j <= target_count(body) ==> in_arena(p + #[trigger] target_offset(body, j))
}

/// No target is the counter, so the counter gains nothing from them.
proof fn lemma_gain_at_counter(body: Seq<Opcode>, k: int)
    requires
        multiply_body(body),
        0 <= k <= target_count(body),
    ensures
        gain(body, k, 0) == 0,
    decreases k,
{
    if k > 0 {
        lemma_gain_at_counter(body, k - 1);
        assert(target_ok(body, k));
    }
}

/// The tape in the middle of a round: behind the `k`-th target.
spec fn tape_after_pairs(body: Seq<Opcode>, k: int, start: Tape, extra: int) -> Tape {
    Tape {
        dp: start.dp + target_offset(body, k),
        memory: after_pairs(body, k, start.memory, start.dp, extra),
        ..start
    }
}

/// How a round ends: with every target and the counter changed, or in a
/// fault if a target lies outside the arena.
spec fn round_end(body: Seq<Opcode>, from: int, start: Tape) -> Option<Outcome> {
    if targets_in(body, from, start.dp) {
        Some(
            Outcome::Done(
                Tape {
                    memory: after_pairs(
                        body,
                        target_count(body),
                        start.memory,
                        start.dp,
                        counter_step(body),
                    ),
                    ..start
                },
            ),
        )
    } else {
        Some(Outcome::Fault)
    }
}

/// The opcodes of an alternating body by the target that they belong to.
proof fn lemma_pair_ops(body: Seq<Opcode>, k: int)
    requires
        alternating(body),
        0 <= k <= target_count(body),
    ensures
        first_move(body) == 0 || first_move(body) == 1,
        first_move(body) + 2 * k < body.len(),
        body[first_move(body) + 2 * k] is Move,
        target_offset(body, k + 1) == target_offset(body, k) + body[first_move(body) + 2
            * k]->Move_delta,
        k < target_count(body) ==> body[first_move(body) + 2 * k + 1] is Change,
        k == target_count(body) ==> if first_move(body) == 1 {
            body.len() == first_move(body) + 2 * k + 1 && body[0] is Change
        } else {
            body.len() == first_move(body) + 2 * k + 2 && body[body.len() - 1] is Change
        },
{
    let base = first_move(body);
    let at = base + 2 * k;
    assert(at % 2 == base);
    assert(body[at] is Move);
    if k < target_count(body) {
        assert((at + 1) % 2 != base);
        assert(body[at + 1] is Change);
    } else if base == 0 {
        assert((body.len() - 1) % 2 != base);
        assert(body[body.len() - 1] is Change);
    } else {
        assert(body[0] is Change);
    }
}

/// The memory behind the `k`-th target, once the next target has gained its
/// amount.
proof fn lemma_pair_memory(
    body: Seq<Opcode>,
    k: int,
    memory: Seq<u8>,
    p: int,
    extra: int,
    at: int,
    a: int,
)
    requires
        0 <= k,
        0 <= at < memory.len(),
        at == p + target_offset(body, k + 1),
        a == amount(body, k + 1),
        at == p ==> extra == 0,
    ensures
        after_pairs(body, k, memory, p, extra).update(
            at,
            wrap_byte(after_pairs(body, k, memory, p, extra)[at] + a),
        ) == after_pairs(body, k + 1, memory, p, extra),
{
    let before = after_pairs(body, k, memory, p, extra);
    let changed = before.update(at, wrap_byte(before[at] + a));
    let want = after_pairs(body, k + 1, memory, p, extra);
    assert forall|y: int| 0 <= y < memory.len() implies changed[y] == want[y] by {
        assert(gain(body, k + 1, y - p) == gain(body, k, y - p) + if target_offset(body, k + 1)
            == y - p {
            a
        } else {
            0
        });
    }
    assert(changed =~= want);
}

/// The memory behind the last target, once the counter has gained its step.
proof fn lemma_counter_memory(body: Seq<Opcode>, k: int, memory: Seq<u8>, p: int, step: int)
    requires
        0 <= p < memory.len(),
    ensures
        after_pairs(body, k, memory, p, 0).update(
            p,
            wrap_byte(after_pairs(body, k, memory, p, 0)[p] + step),
        ) == after_pairs(body, k, memory, p, step),
        after_pairs(body, 0, memory, p, 0) == memory,
        memory.update(p, wrap_byte(memory[p] + step)) == after_pairs(body, 0, memory, p, step),
{
    let before = after_pairs(body, k, memory, p, 0);
    assert(before.update(p, wrap_byte(before[p] + step)) =~= after_pairs(
        body,
        k,
        memory,
        p,
        step,
    ));
    assert(after_pairs(body, 0, memory, p, 0) =~= memory);
    assert(memory.update(p, wrap_byte(memory[p] + step)) =~= after_pairs(
        body,
        0,
        memory,
        p,
        step,
    ));
}

proof fn lemma_targets_in_step(body: Seq<Opcode>, k: int, p: int)
    requires
        0 <= k < target_count(body),
    ensures
        targets_in(body, k, p) == (in_arena(p + target_offset(body, k + 1)) && targets_in(
            body,
            k + 1,
            p,
        )),
{
    if in_arena(p + target_offset(body, k + 1)) && targets_in(body, k + 1, p) {
        assert forall|j: int| k < j <= target_count(body) implies in_arena(
            p + #[trigger] target_offset(body, j),
        ) by {}
    }
}

/// The last opcodes of a round: the move back to the counter, and the step
/// of the counter if the body ends with it.
proof fn lemma_walk_last(body: Seq<Opcode>, start: Tape, extra: int, fuel: nat)
    requires
        multiply_body(body),
        simple_body(body),
        tape_ok(start),
        extra == if first_move(body) == 1 {
            counter_step(body)
        } else {
            0
        },
        in_arena(start.dp + target_offset(body, target_count(body))),
    ensures
        eval(
            body.skip(first_move(body) + 2 * target_count(body)),
            tape_after_pairs(body, target_count(body), start, extra),
            fuel,
        ) == round_end(body, target_count(body), start),
{
    let n = target_count(body);
    let base = first_move(body);
    let p = start.dp;
    let cs = counter_step(body);
    let at = base + 2 * n;
    let code = body.skip(at);
    let here = tape_after_pairs(body, n, start, extra);
    lemma_pair_ops(body, n);
    lemma_last_offset(body);
    assert(code[0] == body[at]);
    let moved = Tape { dp: p, ..here };
    let rest = code.skip(1);
    assert(effect(code[0], here) == Effect::Next(moved));
    assert(targets_in(body, n, p));
    if base == 1 {
        assert(rest == Seq::<Opcode>::empty());
        assert(eval(rest, moved, fuel) == Some(Outcome::Done(moved)));
    } else {
        assert(rest == body.skip(at + 1));
        assert(rest[0] == body[at + 1]);
        assert(rest.skip(1) == Seq::<Opcode>::empty());
        let last = Tape { memory: after_pairs(body, n, start.memory, p, cs), ..start };
        lemma_counter_memory(body, n, start.memory, p, cs);
        assert(effect(rest[0], moved) == Effect::Next(last));
        assert(eval(rest.skip(1), last, fuel) == Some(Outcome::Done(last)));
        assert(eval(rest, moved, fuel) == Some(Outcome::Done(last)));
    }
}

/// The two opcodes of a target: the move to it, and the change of it.
proof fn lemma_walk_pair(body: Seq<Opcode>, k: int, start: Tape, extra: int, fuel: nat)
    requires
        multiply_body(body),
        tape_ok(start),
        0 <= k < target_count(body),
        in_arena(start.dp + target_offset(body, k)),
    ensures
        eval(
            body.skip(first_move(body) + 2 * k),
            tape_after_pairs(body, k, start, extra),
            fuel,
        ) == if in_arena(start.dp + target_offset(body, k + 1)) {
            eval(
                body.skip(first_move(body) + 2 * (k + 1)),
                tape_after_pairs(body, k + 1, start, extra),
                fuel,
            )
        } else {
            Some(Outcome::Fault)
        },
{
    let base = first_move(body);
    let p = start.dp;
    let at = base + 2 * k;
    let code = body.skip(at);
    let here = tape_after_pairs(body, k, start, extra);
    lemma_pair_ops(body, k);
    assert(code[0] == body[at]);
    let next_dp = p + target_offset(body, k + 1);
    let moved = Tape { dp: next_dp, ..here };
    let rest = code.skip(1);
    assert(rest == body.skip(at + 1));
    if in_arena(next_dp) {
        assert(effect(code[0], here) == Effect::Next(moved));
        assert(rest[0] == body[at + 1]);
        let a = amount(body, k + 1);
        let there = tape_after_pairs(body, k + 1, start, extra);
        assert(target_ok(body, k + 1));
        lemma_pair_memory(body, k, start.memory, p, extra, next_dp, a);
        assert(effect(rest[0], moved) == Effect::Next(there));
        assert(rest.skip(1) == body.skip(base + 2 * (k + 1)));
        assert(eval(rest, moved, fuel) == eval(rest.skip(1), there, fuel));
    } else {
        assert(effect(code[0], here) == Effect::Fault);
    }
}

proof fn lemma_walk(body: Seq<Opcode>, k: int, start: Tape, extra: int, fuel: nat)
    requires
        multiply_body(body),
        simple_body(body),
        tape_ok(start),
        0 <= k <= target_count(body),
        extra == if first_move(body) == 1 {
            counter_step(body)
        } else {
            0
        },
        in_arena(start.dp + target_offset(body, k)),
    ensures
        eval(
            body.skip(first_move(body) + 2 * k),
            tape_after_pairs(body, k, start, extra),
            fuel,
        ) == round_end(body, k, start),
    decreases target_count(body) - k,
{
    if k < target_count(body) {
        lemma_targets_in_step(body, k, start.dp);
        lemma_walk_pair(body, k, start, extra, fuel);
        if in_arena(start.dp + target_offset(body, k + 1)) {
            lemma_walk(body, k + 1, start, extra, fuel);
        }
    } else {
        lemma_walk_last(body, start, extra, fuel);
    }
}

/// One round of a multiply-accumulate body.
proof fn lemma_round(body: Seq<Opcode>, start: Tape, fuel: nat)
    requires
        multiply_body(body),
        simple_body(body),
        tape_ok(start),
    ensures
        eval(body, start, fuel) == round_end(body, 0, start),
{
    let cs = counter_step(body);
    let p = start.dp;
    lemma_pair_ops(body, 0);
    lemma_counter_memory(body, 0, start.memory, p, cs);
    if first_move(body) == 1 {
        let here = tape_after_pairs(body, 0, start, cs);
        assert(body[0] is Change);
        assert(effect(body[0], start) == Effect::Next(here));
        lemma_walk(body, 0, start, cs, fuel);
    } else {
        let here = tape_after_pairs(body, 0, start, 0);
        assert(here == start);
        assert(body.skip(0) == body);
        lemma_walk(body, 0, start, 0, fuel);
    }
}

/// What the cell `off` away from the counter gains in one round: from the
/// targets, and the step if it is the counter itself.
spec fn round_gain(body: Seq<Opcode>, off: int) -> int {
    gain(body, target_count(body), off) + if off == 0 {
        counter_step(body)
    } else {
        0
    }
}

/// The memory after `i` rounds.
spec fn after_rounds(body: Seq<Opcode>, i: int, memory: Seq<u8>, p: int) -> Seq<u8> {
    Seq::new(memory.len(), |y: int| wrap_byte(memory[y] + times(i, round_gain(body, y - p))))
}

/// A cell that wraps twice holds what it holds when it wraps once.
proof fn lemma_wrap_sum(c: int, a: int, b: int)
    ensures
        wrap_byte(wrap_byte(c + a) + b) == wrap_byte(c + a + b),
{
}

/// What a cell holds after one more round.
proof fn lemma_next_round_cell(held: int, i: int, g: int)
    ensures
        wrap_byte(wrap_byte(held + times(i, g)) + g) == wrap_byte(held + times(i + 1, g)),
{
    lemma_times_next(i, g);
    lemma_wrap_sum(held, times(i, g), g);
}

/// One more round after `i` rounds leaves the memory after `i + 1` rounds.
proof fn lemma_next_round(body: Seq<Opcode>, i: int, memory: Seq<u8>, p: int)
    ensures
        after_pairs(
            body,
            target_count(body),
            after_rounds(body, i, memory, p),
            p,
            counter_step(body),
        ) == after_rounds(body, i + 1, memory, p),
{
    let n = target_count(body);
    let before = after_rounds(body, i, memory, p);
    let after = after_pairs(body, n, before, p, counter_step(body));
    let want = after_rounds(body, i + 1, memory, p);
    assert(after.len() == want.len());
    assert forall|y: int| 0 <= y < memory.len() implies after[y] == want[y] by {
        let g = round_gain(body, y - p);
        assert(before[y] == wrap_byte(memory[y] + times(i, g)));
        assert(after[y] == wrap_byte(before[y] + g));
        lemma_next_round_cell(memory[y] as int, i, g);
    }
    assert(after =~= want);
}

/// No rounds leave the memory as it is.
proof fn lemma_no_round(body: Seq<Opcode>, memory: Seq<u8>, p: int)
    ensures
        after_rounds(body, 0, memory, p) == memory,
{
    assert forall|y: int| 0 <= y < memory.len() implies after_rounds(body, 0, memory, p)[y]
        == memory[y] by {
        lemma_times_next(0, round_gain(body, y - p));
    }
    assert(after_rounds(body, 0, memory, p) =~= memory);
}

/// What the cell `off` away from the counter gains from the first `k`
/// `Multi` opcodes of the reduction when the counter holds `counter`.
spec fn reduced_gain(body: Seq<Opcode>, k: int, off: int, counter: int) -> int
    decreases k,
{
    if k <= 0 {
        0
    } else {
        reduced_gain(body, k - 1, off, counter) + if target_offset(body, k) == off {
            times(wrap_byte(target_factor(body, k)) as int, counter)
        } else {
            0
        }
    }
}

/// The memory after the first `k` `Multi` opcodes of the reduction.
spec fn after_multis(body: Seq<Opcode>, k: int, memory: Seq<u8>, p: int) -> Seq<u8> {
    Seq::new(
        memory.len(),
        |y: int| wrap_byte(memory[y] + reduced_gain(body, k, y - p, memory[p] as int)),
    )
}

/// The memory that the reduction leaves.
spec fn reduced_memory(body: Seq<Opcode>, memory: Seq<u8>, p: int) -> Seq<u8> {
    after_multis(body, target_count(body), memory, p).update(p, 0u8)
}

proof fn lemma_reduced_gain_at_counter(body: Seq<Opcode>, k: int, counter: int)
    requires
        multiply_body(body),
        0 <= k <= target_count(body),
    ensures
        reduced_gain(body, k, 0, counter) == 0,
    decreases k,
{
    if k > 0 {
        lemma_reduced_gain_at_counter(body, k - 1, counter);
        assert(target_ok(body, k));
    }
}

/// What `i` rounds add to a cell is what the reduction adds to it, if `i`
/// leaves the cell that the counter counts down to zero from.
proof fn lemma_gains_agree(body: Seq<Opcode>, k: int, off: int, i: int, counter: int)
    requires
        multiply_body(body),
        0 <= k <= target_count(body),
        same_cell(i, times(-counter_step(body), counter)),
    ensures
        same_cell(times(i, gain(body, k, off)), reduced_gain(body, k, off, counter)),
    decreases k,
{
    if k <= 0 {
        lemma_times_next(i, 0);
    } else {
        lemma_gains_agree(body, k - 1, off, i, counter);
        let a = amount(body, k);
        let f = target_factor(body, k);
        let cs = counter_step(body);
        if target_offset(body, k) == off {
            assert(times(i, gain(body, k - 1, off) + a) == times(i, gain(body, k - 1, off))
                + times(i, a)) by (nonlinear_arith);
            lemma_same_cell_times(wrap_byte(f) as int, f, counter);
            lemma_same_cell_times(i, times(-cs, counter), a);
            assert(times(times(-cs, counter), a) == times(f, counter)) by (nonlinear_arith)
                requires
                    cs == 1 || cs == -1,
                    f == if cs == -1 {
                        a
                    } else {
                        -a
                    },
            ;
        }
    }
}

/// The memory behind the first `k` `Multi` opcodes, once the next has added
/// to its target.
proof fn lemma_multi_memory(body: Seq<Opcode>, k: int, memory: Seq<u8>, p: int, at: int)
    requires
        0 <= k,
        0 <= p < memory.len(),
        0 <= at < memory.len(),
        at == p + target_offset(body, k + 1),
    ensures
        after_multis(body, k, memory, p).update(
            at,
            wrap_byte(
                after_multis(body, k, memory, p)[at] + wrap_byte(target_factor(body, k + 1))
                    * memory[p],
            ),
        ) == after_multis(body, k + 1, memory, p),
{
    let before = after_multis(body, k, memory, p);
    let factor = target_factor(body, k + 1);
    let counter = memory[p] as int;
    let added = times(wrap_byte(factor) as int, counter);
    let changed = before.update(at, wrap_byte(before[at] + wrap_byte(factor) * memory[p]));
    let want = after_multis(body, k + 1, memory, p);
    assert(changed.len() == want.len());
    assert forall|y: int| 0 <= y < memory.len() implies changed[y] == want[y] by {
        let held = reduced_gain(body, k, y - p, counter);
        assert(reduced_gain(body, k + 1, y - p, counter) == held + if target_offset(body, k + 1)
            == y - p {
            added
        } else {
            0
        });
        if y == at {
            assert(before[y] == wrap_byte(memory[y] + held));
            lemma_wrap_sum(memory[y] as int, held, added);
        }
    }
    assert(changed =~= want);
}

/// The reduction of a loop whose targets lie in the arena.
proof fn lemma_multis(body: Seq<Opcode>, k: int, start: Tape, fuel: nat)
    requires
        multiply_body(body),
        tape_ok(start),
        0 <= k <= target_count(body),
        targets_in(body, 0, start.dp),
    ensures
        eval(
            multiply_reduction(body).skip(k),
            Tape { memory: after_multis(body, k, start.memory, start.dp), ..start },
            fuel,
        ) == Some(
            Outcome::Done(
                Tape { memory: reduced_memory(body, start.memory, start.dp), ..start },
            ),
        ),
    decreases target_count(body) - k,
{
    let n = target_count(body);
    let p = start.dp;
    let w = multiply_reduction(body);
    let code = w.skip(k);
    let here = Tape { memory: after_multis(body, k, start.memory, p), ..start };
    let counter = start.memory[p] as int;
    lemma_reduced_gain_at_counter(body, k, counter);
    assert(cell(here) == start.memory[p]);
    assert(code[0] == w[k]);
    if k < n {
        assert(w[k] == target_multi(body, k + 1));
        assert(target_ok(body, k + 1));
        let at = p + target_offset(body, k + 1);
        assert(in_arena(at));
        let there = Tape { memory: after_multis(body, k + 1, start.memory, p), ..start };
        lemma_multi_memory(body, k, start.memory, p, at);
        assert(effect(code[0], here) == Effect::Next(there));
        assert(code.skip(1) == w.skip(k + 1));
        lemma_multis(body, k + 1, start, fuel);
    } else {
        assert(w[k] == Opcode::SetTo { value: 0 });
        let last = Tape { memory: reduced_memory(body, start.memory, p), ..start };
        assert(effect(code[0], here) == Effect::Next(last));
        assert(code.skip(1) == Seq::<Opcode>::empty());
        assert(eval(code.skip(1), last, fuel) == Some(Outcome::Done(last)));
    }
}

/// The reduction of a loop that is not entered changes nothing, unless it
/// overruns.
proof fn lemma_multis_idle(body: Seq<Opcode>, k: int, start: Tape, fuel: nat)
    requires
        multiply_body(body),
        tape_ok(start),
        0 <= k <= target_count(body),
        cell(start) == 0,
    ensures
        eval(multiply_reduction(body).skip(k), start, fuel) == Some(Outcome::Done(start)) || eval(
            multiply_reduction(body).skip(k),
            start,
            fuel,
        ) == Some(Outcome::Overrun),
    decreases target_count(body) - k,
{
    let n = target_count(body);
    let w = multiply_reduction(body);
    let code = w.skip(k);
    assert(code[0] == w[k]);
    if k < n {
        assert(w[k] == target_multi(body, k + 1));
        assert(target_ok(body, k + 1));
        let at = multi_target(start.dp, target_offset(body, k + 1));
        if at < ARENA_SIZE {
            let factor = target_factor(body, k + 1);
            assert(wrap_byte(factor) * cell(start) == 0) by (nonlinear_arith)
                requires
                    cell(start) == 0,
            ;
            assert(start.memory.update(at, wrap_byte(start.memory[at] + 0)) =~= start.memory);
            assert(effect(code[0], start) == Effect::Next(start));
            assert(code.skip(1) == w.skip(k + 1));
            lemma_multis_idle(body, k + 1, start, fuel);
        } else {
            assert(effect(code[0], start) == Effect::Overrun);
        }
    } else {
        assert(w[k] == Opcode::SetTo { value: 0 });
        assert(start.memory.update(start.dp, 0u8) =~= start.memory);
        assert(effect(code[0], start) == Effect::Next(start));
        assert(code.skip(1) == Seq::<Opcode>::empty());
        assert(eval(code.skip(1), start, fuel) == Some(Outcome::Done(start)));
    }
}

/// The rounds of a loop leave what its reduction leaves.
proof fn lemma_rounds(body: Seq<Opcode>, start: Tape, i: int, fuel: nat)
    requires
        multiply_body(body),
        simple_body(body),
        tape_ok(start),
        0 <= i,
    ensures
        match eval_loop(
            body,
            Tape { memory: after_rounds(body, i, start.memory, start.dp), ..start },
            fuel,
        ) {
            Some(Outcome::Done(after)) => after == (Tape {
                memory: reduced_memory(body, start.memory, start.dp),
                ..start
            }) && targets_in(body, 0, start.dp),
            Some(Outcome::Overrun) => false,
            _ => true,
        },
    decreases fuel,
{
    let n = target_count(body);
    let p = start.dp;
    let cs = counter_step(body);
    let here = Tape { memory: after_rounds(body, i, start.memory, p), ..start };
    lemma_round(body, here, fuel);
    lemma_next_round(body, i, start.memory, p);
    if targets_in(body, 0, p) {
        let next = Tape { memory: after_rounds(body, i + 1, start.memory, p), ..start };
        assert(eval(body, here, fuel) == Some(Outcome::Done(next)));
        if cell(next) == 0 {
            let counter = start.memory[p] as int;
            lemma_gain_at_counter(body, n);
            lemma_times_next(i + 1, cs);
            lemma_times_next(counter, -cs);
            assert(same_cell(i + 1, times(-cs, counter))) by {
                assert(round_gain(body, 0) == cs);
                assert((counter + times(i + 1, cs)) % 256 == 0);
                lemma_times_next(-cs, counter);
            }
            let want = reduced_memory(body, start.memory, p);
            assert forall|y: int| 0 <= y < start.memory.len() implies next.memory[y]
                == want[y] by {
                if y != p {
                    lemma_gains_agree(body, n, y - p, i + 1, counter);
                }
            }
            assert(next.memory =~= want);
        } else if fuel > 0 {
            lemma_rounds(body, start, i + 1, (fuel - 1) as nat);
        }
    }
}

/// A loop around one step of the counter, once entered, zeroes the counter
/// and changes nothing else.
proof fn lemma_clear_rounds(step: i32, tape: Tape, fuel: nat)
    requires
        tape_ok(tape),
    ensures
        match eval_loop(seq![Opcode::Change { delta: step }], tape, fuel) {
            Some(Outcome::Done(after)) => after == (Tape {
                memory: tape.memory.update(tape.dp, 0u8),
                ..tape
            }),
            Some(Outcome::Overrun) => false,
            _ => true,
        },
    decreases fuel,
{
    let body = seq![Opcode::Change { delta: step }];
    assert(body.skip(1) == Seq::<Opcode>::empty());
    let next = Tape {
        memory: tape.memory.update(tape.dp, wrap_byte(cell(tape) + step)),
        ..tape
    };
    assert(effect(body[0], tape) == Effect::Next(next));
    assert(eval(body.skip(1), next, fuel) == Some(Outcome::Done(next)));
    assert(eval(body, tape, fuel) == Some(Outcome::Done(next)));
    if cell(next) == 0 {
        assert(next.memory =~= tape.memory.update(tape.dp, 0u8));
    } else if fuel > 0 {
        lemma_clear_rounds(step, next, (fuel - 1) as nat);
        assert(next.memory.update(tape.dp, 0u8) =~= tape.memory.update(tape.dp, 0u8));
    }
}

/// A loop around a body without brackets: where it closes, and what it does.
proof fn lemma_flat_loop(open: Opcode, body: Seq<Opcode>, close: Opcode, tape: Tape, fuel: nat)
    requires
        open.is_open(),
        close.is_close(),
        forall|k: int| 0 <= k < body.len() ==> !(#[trigger] body[k]).is_bracket(),
    ensures
        balanced(seq![open] + body + seq![close]),
        eval(seq![open] + body + seq![close], tape, fuel) == if cell(tape) == 0 {
            Some(Outcome::Done(tape))
        } else {
            eval_loop(body, tape, fuel)
        },
{
    let code = seq![open] + body + seq![close];
    let end: int = (body.len() + 1) as int;
    assert(depth(code, 0) == 0);
    assert(depth(code, 1) == depth(code, 0) + 1);
    assert forall|j: int| 1 <= j <= end implies #[trigger] depth(code, j) == 1 by {
        assert forall|b: int| 1 <= b < j implies !(#[trigger] code[b]).is_bracket() by {
            assert(code[b] == body[b - 1]);
        }
        lemma_depth_flat(code, 1, j);
    }
    assert(depth(code, end + 1) == depth(code, end) - 1);
    assert(first_return(code, 1, 0, end));
    lemma_close_index_is(code, 1, 1, end);
    assert(code.subrange(1, end) == body);
    assert(code.skip(end + 1) == Seq::<Opcode>::empty());
    assert forall|m: int| 0 <= m <= code.len() implies #[trigger] depth(code, m) >= 0 by {
        if 1 <= m <= end {
            assert(depth(code, m) == 1);
        }
    }
    if cell(tape) == 0 {
        assert(eval(code.skip(end + 1), tape, fuel) == Some(Outcome::Done(tape)));
    } else {
        match eval_loop(body, tape, fuel) {
            Some(Outcome::Done(after)) => {
                assert(eval(code.skip(end + 1), after, fuel) == Some(Outcome::Done(after)));
            },
            _ => {},
        }
    }
}

/// A loop that the catalogue of shapes holds may be replaced by what the
/// catalogue gives for it.
pub proof fn lemma_loop_rewrite_refines(open: Opcode, body: Seq<Opcode>, close: Opcode)
    requires
        open.is_open(),
        close.is_close(),
        loop_rewrite(body) is Some,
    ensures
        refines(seq![open] + body + seq![close], loop_rewrite(body)->Some_0),
        balanced(seq![open] + body + seq![close]),
{
    let code = seq![open] + body + seq![close];
    let w = loop_rewrite(body)->Some_0;
    assert forall|k: int| 0 <= k < body.len() implies !(#[trigger] body[k]).is_bracket() by {
        assert(body[k] is Move || body[k] is Change);
    }
    assert forall|tape: Tape, fuel: nat| tape_ok(tape) implies #[trigger] refines_at(
        code,
        w,
        tape,
        fuel,
    ) by {
        lemma_flat_loop(open, body, close, tape, fuel);
        if clear_body(body) {
            let clear = Opcode::SetTo { value: 0 };
            assert(w == seq![clear]);
            assert(w.skip(1) == Seq::<Opcode>::empty());
            let cleared = Tape { memory: tape.memory.update(tape.dp, 0u8), ..tape };
            assert(effect(w[0], tape) == Effect::Next(cleared));
            assert(eval(w.skip(1), cleared, fuel) == Some(Outcome::Done(cleared)));
            assert(eval(w, tape, fuel) == Some(Outcome::Done(cleared)));
            if cell(tape) == 0 {
                assert(cleared.memory =~= tape.memory);
            } else {
                assert(body == seq![Opcode::Change { delta: body[0]->Change_delta }]);
                lemma_clear_rounds(body[0]->Change_delta, tape, fuel);
            }
        } else {
            assert(w.skip(0) == w);
            if cell(tape) == 0 {
                lemma_multis_idle(body, 0, tape, fuel);
            } else {
                lemma_no_round(body, tape.memory, tape.dp);
                assert(tape == (Tape {
                    memory: after_rounds(body, 0, tape.memory, tape.dp),
                    ..tape
                }));
                lemma_rounds(body, tape, 0, fuel);
                if targets_in(body, 0, tape.dp) {
                    assert(after_multis(body, 0, tape.memory, tape.dp) =~= tape.memory);
                    lemma_multis(body, 0, tape, fuel);
                }
            }
        }
    }
    lemma_flat_loop(
        open,
        body,
        close,
        Tape {
            dp: 0,
            memory: Seq::empty(),
            unread: Seq::empty(),
            closed: true,
            written: Seq::empty(),
        },
        0,
    );
}

} // verus!
