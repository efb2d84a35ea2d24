//! Why the compiler may do what it does: each rewrite of each pass puts in
//! place of some opcodes others that may stand for them, and so the compiled
//! program runs as the tokenized one does.

use crate::adequacy::{arrives, lemma_block, overrun};
use crate::brackets::{
    balanced, depth, first_return, lemma_depth_flat, lemma_resolved_shape,
    lemma_same_shape_balanced, lemma_same_shape_weight, matched, resolved,
};
use crate::compiler::{compiled, round_of};
use crate::dead_store::{
    lemma_dead_stores_bounds, lemma_dead_stores_depth, lemma_dead_stores_len, store_step, stored,
    stores_fit, without_dead_stores,
};
use crate::folding::{
    arg_sum, fold, fold_fits, lemma_fold_bounds, lemma_fold_depth, lemma_fold_len, merged,
    merges, sum_fits,
};
use crate::loops::{
    closes_reducible, last_bracket, lemma_last_bracket, lemma_reduced_balanced,
    lemma_reduced_len, lemma_reduced_weight, lemma_rewrite_flat, loop_body, loop_rewrite,
    loops_reduced, reduced_prefix,
};
use crate::multiply::lemma_loop_rewrite_refines;
use crate::opcodes::{total_weight, Opcode};
use crate::pairing::lemma_resolved_matched;
use crate::refinement::{
    lemma_close_index_is, lemma_prefix_refines_append, lemma_prefix_refines_self,
    lemma_prefix_refines_tail, lemma_prefix_refines_trans, lemma_same_shape_refines,
    prefix_refines, refines, refines_at,
};
use crate::scanning::{
    ends_in_scan_body, lemma_with_scans_depth, lemma_with_scans_len, lemma_with_scans_weight,
    with_scans,
};
use crate::semantics::{
    cell, effect, initial_run, lemma_run_split, lemma_run_stopped, repeated, run_for, scan_end,
    tape_of, tape_ok, wrap_byte, Effect, Run, ScanEnd, Status, Tape,
};
use crate::source_utils::brackets_balanced;
use crate::structure::{eval, eval_loop, loop_end, Outcome};
use crate::tokenizer::{
    lemma_raw_tokens_balanced, lemma_raw_tokens_len, lemma_raw_tokens_weight, raw_tokens,
};
use vstd::prelude::*;

verus! {

/// How an opcode other than a bracket ends when it stands alone.
pub open spec fn outcome_of(op: Opcode, tape: Tape) -> Option<Outcome> {
    match effect(op, tape) {
        Effect::Next(after) => Some(Outcome::Done(after)),
        Effect::Fault => Some(Outcome::Fault),
        Effect::Overrun => Some(Outcome::Overrun),
        Effect::Stuck => None,
    }
}

/// A sequence without opcodes does nothing.
pub proof fn lemma_eval_none(tape: Tape, fuel: nat)
    ensures
        eval(Seq::<Opcode>::empty(), tape, fuel) == Some(Outcome::Done(tape)),
{
}

/// A sequence of one opcode other than a bracket does what the opcode does.
pub proof fn lemma_eval_one(op: Opcode, tape: Tape, fuel: nat)
    requires
        !op.is_bracket(),
    ensures
        eval(seq![op], tape, fuel) == outcome_of(op, tape),
{
    assert(seq![op].skip(1) == Seq::<Opcode>::empty());
    match effect(op, tape) {
        Effect::Next(after) => {
            lemma_eval_none(after, fuel);
        },
        _ => {},
    }
}

/// A sequence of two opcodes other than brackets does what the one does and
/// then what the other does.
pub proof fn lemma_eval_two(x: Opcode, op: Opcode, tape: Tape, fuel: nat)
    requires
        !x.is_bracket(),
        !op.is_bracket(),
    ensures
        eval(seq![x, op], tape, fuel) == match effect(x, tape) {
            Effect::Next(after) => outcome_of(op, after),
            Effect::Fault => Some(Outcome::Fault),
            Effect::Overrun => Some(Outcome::Overrun),
            Effect::Stuck => None,
        },
{
    assert(seq![x, op].skip(1) == seq![op]);
    match effect(x, tape) {
        Effect::Next(after) => {
            lemma_eval_one(op, after, fuel);
        },
        _ => {},
    }
}

/// A sequence without brackets is balanced.
pub proof fn lemma_flat_balanced(w: Seq<Opcode>)
    requires
        forall|k: int| 0 <= k < w.len() ==> !(#[trigger] w[k]).is_bracket(),
    ensures
        balanced(w),
{
    assert forall|n: int| 0 <= n <= w.len() implies #[trigger] depth(w, n) >= 0 by {
        lemma_depth_flat(w, 0, n);
    }
    lemma_depth_flat(w, 0, w.len() as int);
}

/// Two cells that hold sums of the same numbers hold the same.
pub proof fn lemma_wrap_twice(c: int, a: int, b: int)
    ensures
        wrap_byte(wrap_byte(c + a) + b) == wrap_byte(c + a + b),
{
}

/// What two opcodes other than brackets, one after the other, leave of a
/// tape, if both come to an end.
pub open spec fn after_two(x: Opcode, op: Opcode, tape: Tape) -> Option<Tape> {
    match effect(x, tape) {
        Effect::Next(mid) => match effect(op, mid) {
            Effect::Next(last) => Some(last),
            _ => None,
        },
        _ => None,
    }
}

/// Two opcodes other than brackets that together leave the tape that a third
/// leaves, where they come to an end, and that do not overrun, may be
/// replaced by the third.
proof fn lemma_two_for_one(x: Opcode, op: Opcode, one: Opcode)
    requires
        !x.is_bracket(),
        !op.is_bracket(),
        !one.is_bracket(),
        !(x is Multi),
        !(op is Multi),
        forall|tape: Tape|
            tape_ok(tape) ==> (#[trigger] after_two(x, op, tape) matches Some(last) ==> effect(
                one,
                tape,
            ) == Effect::Next(last)),
    ensures
        refines(seq![x, op], seq![one]),
{
    let two = seq![x, op];
    let single = seq![one];
    assert forall|tape: Tape, fuel: nat| tape_ok(tape) implies #[trigger] refines_at(
        two,
        single,
        tape,
        fuel,
    ) by {
        lemma_eval_two(x, op, tape, fuel);
        lemma_eval_one(one, tape, fuel);
        assert(after_two(x, op, tape) is Some ==> effect(one, tape) == Effect::Next(
            after_two(x, op, tape)->Some_0,
        ));
    }
}

/// Two opcodes other than brackets that together leave the tape as it was,
/// where they come to an end, and that do not overrun, may be dropped.
proof fn lemma_two_for_none(x: Opcode, op: Opcode)
    requires
        !x.is_bracket(),
        !op.is_bracket(),
        !(x is Multi),
        !(op is Multi),
        forall|tape: Tape|
            tape_ok(tape) ==> (#[trigger] after_two(x, op, tape) matches Some(last) ==> last
                == tape),
    ensures
        refines(seq![x, op], Seq::empty()),
{
    let two = seq![x, op];
    let none = Seq::<Opcode>::empty();
    assert forall|tape: Tape, fuel: nat| tape_ok(tape) implies #[trigger] refines_at(
        two,
        none,
        tape,
        fuel,
    ) by {
        lemma_eval_two(x, op, tape, fuel);
        lemma_eval_none(tape, fuel);
        assert(after_two(x, op, tape) is Some ==> after_two(x, op, tape)->Some_0 == tape);
    }
}

proof fn lemma_merge_change(a: i32, b: i32, tape: Tape)
    requires
        tape_ok(tape),
        i32::MIN <= a + b <= i32::MAX,
    ensures
        after_two(Opcode::Change { delta: a }, Opcode::Change { delta: b }, tape) == Some(
            Tape {
                memory: tape.memory.update(tape.dp, wrap_byte(cell(tape) + (a + b))),
                ..tape
            },
        ),
        a + b == 0 ==> tape.memory.update(tape.dp, wrap_byte(cell(tape) + (a + b)))
            == tape.memory,
{
    let mid = tape.memory.update(tape.dp, wrap_byte(cell(tape) + a));
    lemma_wrap_twice(cell(tape) as int, a as int, b as int);
    assert(mid.update(tape.dp, wrap_byte(mid[tape.dp] + b)) == tape.memory.update(
        tape.dp,
        wrap_byte(cell(tape) + (a + b)),
    ));
    if a + b == 0 {
        assert(tape.memory.update(tape.dp, wrap_byte(cell(tape) + 0)) == tape.memory);
    }
}

proof fn lemma_merge_put(a: usize, b: usize, tape: Tape)
    requires
        tape_ok(tape),
        a + b <= usize::MAX,
    ensures
        after_two(Opcode::PutChar { count: a }, Opcode::PutChar { count: b }, tape) == Some(
            Tape { written: tape.written + repeated(cell(tape), (a + b) as nat), ..tape },
        ),
        a + b == 0 ==> tape.written + repeated(cell(tape), (a + b) as nat) == tape.written,
{
    let c = cell(tape);
    assert(tape.written + repeated(c, a as nat) + repeated(c, b as nat) == tape.written
        + repeated(c, (a + b) as nat));
    if a + b == 0 {
        assert(tape.written + repeated(c, 0) == tape.written);
    }
}

proof fn lemma_merge_read(a: usize, b: usize, tape: Tape)
    requires
        tape_ok(tape),
        a + b <= usize::MAX,
    ensures
        after_two(Opcode::ReadChar { count: a }, Opcode::ReadChar { count: b }, tape) matches Some(
            last,
        ) ==> (if a + b == 0 {
            last == tape
        } else {
            effect(Opcode::ReadChar { count: (a + b) as usize }, tape) == Effect::Next(last)
        }),
{
    let x = Opcode::ReadChar { count: a };
    let op = Opcode::ReadChar { count: b };
    if let Effect::Next(mid) = effect(x, tape) {
        if let Effect::Next(last) = effect(op, mid) {
            if a > 0 && b > 0 {
                assert(tape.unread.skip(a as int).skip(b as int) == tape.unread.skip(a + b));
                assert(mid.memory.update(tape.dp, mid.unread[b - 1]) == tape.memory.update(
                    tape.dp,
                    tape.unread[a + b - 1],
                ));
            }
        }
    }
}

/// Two opcodes of one foldable kind do what the one with their sum does, and
/// nothing if their sum is zero.
pub proof fn lemma_merge_refines(x: Opcode, op: Opcode)
    requires
        merges(x, op),
        sum_fits(x, op),
    ensures
        arg_sum(x, op) != 0 ==> refines(seq![x, op], seq![merged(x, op)]),
        arg_sum(x, op) == 0 ==> refines(seq![x, op], Seq::empty()),
{
    let one = merged(x, op);
    match (x, op) {
        (Opcode::Change { delta: a }, Opcode::Change { delta: b }) => {
            assert forall|tape: Tape| tape_ok(tape) implies (#[trigger] after_two(
                x,
                op,
                tape,
            ) matches Some(last) ==> effect(one, tape) == Effect::Next(last) && (a + b == 0
                ==> last == tape)) by {
                lemma_merge_change(a, b, tape);
            }
        },
        (Opcode::Move { delta: a }, Opcode::Move { delta: b }) => {
            assert forall|tape: Tape| tape_ok(tape) implies (#[trigger] after_two(
                x,
                op,
                tape,
            ) matches Some(last) ==> effect(one, tape) == Effect::Next(last) && (a + b == 0
                ==> last == tape)) by {}
        },
        (Opcode::PutChar { count: a }, Opcode::PutChar { count: b }) => {
            assert forall|tape: Tape| tape_ok(tape) implies (#[trigger] after_two(
                x,
                op,
                tape,
            ) matches Some(last) ==> effect(one, tape) == Effect::Next(last) && (a + b == 0
                ==> last == tape)) by {
                lemma_merge_put(a, b, tape);
            }
        },
        (Opcode::ReadChar { count: a }, Opcode::ReadChar { count: b }) => {
            assert forall|tape: Tape| tape_ok(tape) implies (#[trigger] after_two(
                x,
                op,
                tape,
            ) matches Some(last) ==> (a + b != 0 ==> effect(one, tape) == Effect::Next(last)) && (a
                + b == 0 ==> last == tape)) by {
                lemma_merge_read(a, b, tape);
            }
        },
        _ => {},
    }
    if arg_sum(x, op) != 0 {
        lemma_two_for_one(x, op, one);
    } else {
        lemma_two_for_none(x, op);
    }
}

/// The folded form of a sequence may stand for it, whatever follows.
pub proof fn lemma_fold_refines(s: Seq<Opcode>)
    requires
        fold_fits(s),
    ensures
        prefix_refines(s, fold(s)),
    decreases s.len(),
{
    if s.len() == 0 {
        lemma_prefix_refines_self(s);
    } else {
        let front = s.drop_last();
        let op = s.last();
        lemma_fold_refines(front);
        let acc = fold(front);
        lemma_prefix_refines_append(front, acc, seq![op]);
        assert(front + seq![op] == s);
        if acc.len() > 0 && merges(acc.last(), op) {
            let x = acc.last();
            let kept = acc.drop_last();
            assert(acc + seq![op] == kept + seq![x, op]);
            lemma_merge_refines(x, op);
            lemma_flat_balanced(seq![x, op]);
            if arg_sum(x, op) == 0 {
                lemma_flat_balanced(Seq::<Opcode>::empty());
                lemma_prefix_refines_tail(kept, seq![x, op], Seq::empty());
                assert(kept + Seq::<Opcode>::empty() == kept);
            } else {
                lemma_flat_balanced(seq![merged(x, op)]);
                lemma_prefix_refines_tail(kept, seq![x, op], seq![merged(x, op)]);
                assert(kept + seq![merged(x, op)] == kept.push(merged(x, op)));
            }
            lemma_prefix_refines_trans(s, acc + seq![op], fold(s));
        } else {
            assert(acc + seq![op] == acc.push(op));
        }
    }
}

/// A write that the next opcode overwrites may go, and a change behind a
/// constant write may go into it.
pub proof fn lemma_store_refines(x: Opcode, op: Opcode)
    requires
        stored(x, op) is Some,
        x matches Opcode::SetTo { value } ==> (op matches Opcode::Change { delta } ==> i32::MIN
            <= value + delta <= i32::MAX),
    ensures
        refines(seq![x, op], seq![stored(x, op)->Some_0]),
        !x.is_bracket(),
        !op.is_bracket(),
        !stored(x, op)->Some_0.is_bracket(),
{
    let one = stored(x, op)->Some_0;
    assert forall|tape: Tape| tape_ok(tape) implies (#[trigger] after_two(
        x,
        op,
        tape,
    ) matches Some(last) ==> effect(one, tape) == Effect::Next(last)) by {
        match (x, op) {
            (Opcode::Change { delta }, Opcode::SetTo { value }) => {
                let mid = tape.memory.update(tape.dp, wrap_byte(cell(tape) + delta));
                assert(mid.update(tape.dp, wrap_byte(value as int)) == tape.memory.update(
                    tape.dp,
                    wrap_byte(value as int),
                ));
            },
            (Opcode::SetTo { value: first }, Opcode::SetTo { value }) => {
                let mid = tape.memory.update(tape.dp, wrap_byte(first as int));
                assert(mid.update(tape.dp, wrap_byte(value as int)) == tape.memory.update(
                    tape.dp,
                    wrap_byte(value as int),
                ));
            },
            (Opcode::SetTo { value }, Opcode::Change { delta }) => {
                let mid = tape.memory.update(tape.dp, wrap_byte(value as int));
                lemma_wrap_twice(0, value as int, delta as int);
                assert(mid.update(tape.dp, wrap_byte(mid[tape.dp] + delta)) == tape.memory.update(
                    tape.dp,
                    wrap_byte((value + delta) as int),
                ));
            },
            _ => {},
        }
    }
    lemma_two_for_one(x, op, one);
}

/// The sequence without its dead stores may stand for it, whatever follows.
pub proof fn lemma_dead_stores_refine(s: Seq<Opcode>)
    requires
        stores_fit(s),
    ensures
        prefix_refines(s, without_dead_stores(s)),
    decreases s.len(),
{
    if s.len() == 0 {
        lemma_prefix_refines_self(s);
    } else {
        let front = s.drop_last();
        let op = s.last();
        lemma_dead_stores_refine(front);
        let acc = without_dead_stores(front);
        lemma_prefix_refines_append(front, acc, seq![op]);
        assert(front + seq![op] == s);
        if acc.len() > 0 && stored(acc.last(), op) is Some {
            let x = acc.last();
            let kept = acc.drop_last();
            assert(acc + seq![op] == kept + seq![x, op]);
            let one = stored(x, op)->Some_0;
            lemma_store_refines(x, op);
            assert(store_step(acc, op) == kept + seq![one]);
            lemma_flat_balanced(seq![x, op]);
            lemma_flat_balanced(seq![one]);
            lemma_prefix_refines_tail(kept, seq![x, op], seq![one]);
            lemma_prefix_refines_trans(s, acc + seq![op], without_dead_stores(s));
        } else {
            assert(acc + seq![op] == acc.push(op));
        }
    }
}

/// A loop around one `Move`, once entered, ends where the scan by the same
/// step ends, and changes nothing but the data pointer.
proof fn lemma_scan_loop(step: i32, tape: Tape, fuel: nat)
    requires
        tape_ok(tape),
        cell(tape) != 0,
    ensures
        match eval_loop(seq![Opcode::Move { delta: step }], tape, fuel) {
            Some(Outcome::Done(after)) => scan_end(tape.memory, tape.dp, step as int)
                == ScanEnd::At(after.dp) && after == (Tape { dp: after.dp, ..tape }),
            Some(Outcome::Overrun) => false,
            _ => true,
        },
    decreases fuel,
{
    let body = seq![Opcode::Move { delta: step }];
    lemma_eval_one(body[0], tape, fuel);
    match eval(body, tape, fuel) {
        Some(Outcome::Done(after)) => {
            if cell(after) != 0 && fuel > 0 {
                lemma_scan_loop(step, after, (fuel - 1) as nat);
            }
        },
        _ => {},
    }
}

/// A loop around one `Move` does what the scan by the same step does.
pub proof fn lemma_scan_refines(open: Opcode, step: i32, close: Opcode)
    requires
        open.is_open(),
        close.is_close(),
    ensures
        refines(
            seq![open, Opcode::Move { delta: step }, close],
            seq![Opcode::ScanBy { step }],
        ),
        balanced(seq![open, Opcode::Move { delta: step }, close]),
{
    let code = seq![open, Opcode::Move { delta: step }, close];
    let scan = seq![Opcode::ScanBy { step }];
    reveal_with_fuel(depth, 4);
    assert(depth(code, 0) == 0);
    assert(depth(code, 1) == 1);
    assert(depth(code, 2) == 1);
    assert(depth(code, 3) == 0);
    assert(first_return(code, 1, 0, 2));
    lemma_close_index_is(code, 1, 1, 2);
    assert(code.subrange(1, 2) == seq![Opcode::Move { delta: step }]);
    assert(code.skip(3) == Seq::<Opcode>::empty());
    assert forall|tape: Tape, fuel: nat| tape_ok(tape) implies #[trigger] refines_at(
        code,
        scan,
        tape,
        fuel,
    ) by {
        lemma_eval_one(scan[0], tape, fuel);
        assert(loop_end(code) == 2);
        if cell(tape) == 0 {
            lemma_eval_none(tape, fuel);
            assert(eval(code, tape, fuel) == Some(Outcome::Done(tape)));
            assert(tape == (Tape { dp: tape.dp, ..tape }));
        } else {
            lemma_scan_loop(step, tape, fuel);
            match eval_loop(seq![Opcode::Move { delta: step }], tape, fuel) {
                Some(Outcome::Done(after)) => {
                    lemma_eval_none(after, fuel);
                    assert(eval(code, tape, fuel) == Some(Outcome::Done(after)));
                },
                _ => {},
            }
        }
    }
}

/// The sequence with its scan loops replaced may stand for it, whatever
/// follows.
pub proof fn lemma_scans_refine(s: Seq<Opcode>)
    ensures
        prefix_refines(s, with_scans(s)),
    decreases s.len(),
{
    if s.len() == 0 {
        lemma_prefix_refines_self(s);
    } else {
        let front = s.drop_last();
        let op = s.last();
        lemma_scans_refine(front);
        let acc = with_scans(front);
        lemma_prefix_refines_append(front, acc, seq![op]);
        assert(front + seq![op] == s);
        if op is JumpIfNonZero && ends_in_scan_body(acc) {
            let n = acc.len() as int;
            let kept = acc.take(n - 2);
            let step = acc[n - 1]->Move_delta;
            let window = seq![acc[n - 2], Opcode::Move { delta: step }, op];
            assert(acc + seq![op] == kept + window);
            lemma_scan_refines(acc[n - 2], step, op);
            lemma_flat_balanced(seq![Opcode::ScanBy { step }]);
            lemma_prefix_refines_tail(kept, window, seq![Opcode::ScanBy { step }]);
            assert(kept + seq![Opcode::ScanBy { step }] == kept.push(Opcode::ScanBy { step }));
            lemma_prefix_refines_trans(s, acc + seq![op], with_scans(s));
        } else {
            assert(acc + seq![op] == acc.push(op));
        }
    }
}

proof fn lemma_reduced_prefix_refines(p: Seq<Opcode>, n: int)
    requires
        0 <= n <= p.len(),
    ensures
        prefix_refines(p.take(n), reduced_prefix(p, n)),
    decreases n,
{
    if n <= 0 {
        lemma_prefix_refines_self(p.take(n));
    } else if closes_reducible(p, n - 1) {
        let i = last_bracket(p, n - 1);
        lemma_last_bracket(p, n - 1);
        lemma_reduced_prefix_refines(p, i);
        let body = loop_body(p, i, n - 1);
        let w = loop_rewrite(body)->Some_0;
        let whole = seq![p[i]] + body + seq![p[n - 1]];
        assert(p.take(n) == p.take(i) + whole);
        lemma_loop_rewrite_refines(p[i], body, p[n - 1]);
        lemma_rewrite_flat(body);
        lemma_flat_balanced(w);
        lemma_prefix_refines_tail(p.take(i), whole, w);
        lemma_prefix_refines_append(p.take(i), reduced_prefix(p, i), w);
        lemma_prefix_refines_trans(p.take(n), p.take(i) + w, reduced_prefix(p, n));
    } else {
        lemma_reduced_prefix_refines(p, n - 1);
        lemma_prefix_refines_append(p.take(n - 1), reduced_prefix(p, n - 1), seq![p[n - 1]]);
        assert(p.take(n) == p.take(n - 1) + seq![p[n - 1]]);
        assert(reduced_prefix(p, n) == reduced_prefix(p, n - 1) + seq![p[n - 1]]);
    }
}

/// The program with its reducible loops reduced may stand for it, whatever
/// follows.
pub proof fn lemma_loops_refine(p: Seq<Opcode>)
    ensures
        prefix_refines(p, loops_reduced(p)),
{
    lemma_reduced_prefix_refines(p, p.len() as int);
    assert(p.take(p.len() as int) == p);
}

/// A program with its jump targets resolved may stand for it, whatever
/// follows.
pub proof fn lemma_resolved_refines(p: Seq<Opcode>)
    requires
        p.len() <= usize::MAX,
    ensures
        prefix_refines(p, resolved(p)),
{
    lemma_resolved_shape(p);
    lemma_same_shape_flip(resolved(p), p);
    lemma_same_shape_refines(p, resolved(p));
}

/// Being of one shape goes both ways.
proof fn lemma_same_shape_flip(a: Seq<Opcode>, b: Seq<Opcode>)
    requires
        crate::brackets::same_shape(a, b),
    ensures
        crate::brackets::same_shape(b, a),
{
    assert forall|i: int| 0 <= i < b.len() implies {
        &&& (#[trigger] b[i]).is_open() == a[i].is_open()
        &&& b[i].is_close() == a[i].is_close()
        &&& !b[i].is_bracket() ==> b[i] == a[i]
    } by {
        assert(a[i].is_open() == b[i].is_open());
    }
}

/// What one round makes of a balanced program of bounded weight may stand
/// for it, whatever follows; it is balanced and weighs no more.
pub proof fn lemma_round_refines(s: Seq<Opcode>)
    requires
        balanced(s),
        total_weight(s) <= i32::MAX,
        s.len() <= usize::MAX,
    ensures
        prefix_refines(s, round_of(s)),
        balanced(round_of(s)),
        total_weight(round_of(s)) <= total_weight(s),
        round_of(s).len() <= s.len(),
{
    let stored = without_dead_stores(s);
    lemma_dead_stores_len(s);
    lemma_with_scans_len(stored);
    lemma_reduced_len(with_scans(stored));
    lemma_dead_stores_bounds(s);
    lemma_dead_stores_depth(s);
    lemma_dead_stores_refine(s);
    let scanned = with_scans(stored);
    lemma_with_scans_weight(stored);
    lemma_with_scans_depth(stored);
    lemma_scans_refine(stored);
    let reduced = loops_reduced(scanned);
    lemma_reduced_weight(scanned);
    lemma_reduced_balanced(scanned);
    lemma_loops_refine(scanned);
    lemma_resolved_shape(reduced);
    lemma_same_shape_balanced(resolved(reduced), reduced);
    lemma_same_shape_weight(resolved(reduced), reduced);
    lemma_resolved_refines(reduced);
    lemma_prefix_refines_trans(s, stored, scanned);
    lemma_prefix_refines_trans(s, scanned, reduced);
    lemma_prefix_refines_trans(s, reduced, round_of(s));
}

/// The compiled form of a source text may stand for its tokenized form:
/// on every whole tape on which the tokenized form comes to an end, the
/// compiled form comes to the same end, unless a `Multi` of it reaches beyond
/// the arena first.
pub proof fn lemma_compiled_refines(source: Seq<char>)
    requires
        brackets_balanced(source),
        source.len() <= i32::MAX,
    ensures
        refines(resolved(raw_tokens(source)), compiled(source)),
        balanced(resolved(raw_tokens(source))),
        balanced(compiled(source)),
        matched(resolved(raw_tokens(source))),
        matched(compiled(source)),
        resolved(raw_tokens(source)).len() <= usize::MAX,
        compiled(source).len() <= usize::MAX,
{
    let raw = raw_tokens(source);
    let tokens = resolved(raw);
    lemma_raw_tokens_balanced(source);
    lemma_raw_tokens_weight(source);
    lemma_raw_tokens_len(source);
    lemma_resolved_shape(raw);
    lemma_same_shape_balanced(tokens, raw);
    lemma_same_shape_weight(tokens, raw);
    let folded = fold(tokens);
    lemma_fold_len(tokens);
    lemma_fold_bounds(tokens);
    lemma_fold_depth(tokens);
    lemma_fold_refines(tokens);
    let first = round_of(folded);
    lemma_round_refines(folded);
    let second = round_of(first);
    lemma_round_refines(first);
    lemma_resolved_shape(second);
    lemma_same_shape_balanced(resolved(second), second);
    lemma_resolved_refines(second);
    lemma_resolved_matched(raw);
    lemma_resolved_matched(second);
    lemma_prefix_refines_trans(tokens, folded, first);
    lemma_prefix_refines_trans(tokens, first, second);
    lemma_prefix_refines_trans(tokens, second, compiled(source));
    let none = Seq::<Opcode>::empty();
    assert(refines(tokens + none, compiled(source) + none));
    assert(tokens + none == tokens);
    assert(compiled(source) + none == compiled(source));
}

/// A run that has stopped after some dispatches and after some others has
/// stopped in the same state.
pub proof fn lemma_same_end(program: Seq<Opcode>, run: Run, a: nat, b: nat)
    requires
        run_for(program, run, a).status != Status::Running,
        run_for(program, run, b).status != Status::Running,
    ensures
        run_for(program, run, a) == run_for(program, run, b),
{
    if a <= b {
        lemma_run_split(program, run, a, (b - a) as nat);
        lemma_run_stopped(program, run_for(program, run, a), (b - a) as nat);
    } else {
        lemma_run_split(program, run, b, (a - b) as nat);
        lemma_run_stopped(program, run_for(program, run, b), (a - b) as nat);
    }
}

/// Compiling keeps what a program does. Let the tokenized form of a source
/// text with balanced brackets (what `tokenize_instructions` returns) halt on
/// some input within `steps` dispatches. Then the compiled form (what
/// `compile_code` returns), run on the same input for the number of
/// dispatches that this lemma returns, has halted with the same output, the
/// same cells, the same data pointer and the same input left, or it has
/// faulted at a `Multi` that would add to a cell beyond the arena. (That
/// happens where a loop that the tokenized form does not enter has been
/// reduced, and a target of the loop lies beyond the arena.)
///
/// Nothing is said of a tokenized form that faults or does not halt: folding
/// two moves into one, for one, can remove a fault.
pub proof fn lemma_compiled_runs_as_tokenized(
    source: Seq<char>,
    input: Seq<u8>,
    steps: nat,
) -> (budget: nat)
    requires
        brackets_balanced(source),
        source.len() <= i32::MAX,
        run_for(
            resolved(raw_tokens(source)),
            initial_run(resolved(raw_tokens(source)).len(), input, true),
            steps,
        ).status == Status::Halted,
    ensures
        ({
            let plain = run_for(
                resolved(raw_tokens(source)),
                initial_run(resolved(raw_tokens(source)).len(), input, true),
                steps,
            );
            let fast = run_for(
                compiled(source),
                initial_run(compiled(source).len(), input, true),
                budget,
            );
            overrun(compiled(source), fast) || (fast.status == Status::Halted && fast.written
                == plain.written && fast.memory == plain.memory && fast.dp == plain.dp
                && fast.unread == plain.unread)
        }),
{
    let tokens = resolved(raw_tokens(source));
    let code = compiled(source);
    lemma_compiled_refines(source);
    let start = initial_run(tokens.len(), input, true);
    let start_fast = initial_run(code.len(), input, true);
    let tape = tape_of(start);
    assert(tape_of(start_fast) == tape);
    assert(tokens.subrange(0, tokens.len() as int) == tokens);
    assert(code.subrange(0, code.len() as int) == code);
    let taken = lemma_block(tokens, 0, tokens.len() as int, start, steps);
    assert(refines_at(tokens, code, tape, steps));
    let budget = lemma_block(code, 0, code.len() as int, start_fast, steps);
    reveal(arrives);
    if eval(tokens, tape, steps) is Some {
        lemma_same_end(tokens, start, taken, steps);
    }
    budget
}

} // verus!
