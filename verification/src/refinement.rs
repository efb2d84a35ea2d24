//! When one piece of a program may stand for another: wherever the first
//! comes to an end, the second comes to the same end, unless a `Multi` of it
//! reaches beyond the arena first.

use crate::brackets::{
    balanced, depth, first_return, lemma_depth_agree, lemma_depth_concat, no_return, same_shape,
    total_depth,
};
use crate::opcodes::Opcode;
use crate::semantics::{cell, effect, lemma_effect_ok, tape_ok, Effect, Tape};
use crate::structure::{
    close_index, eval, eval_loop, lemma_close_index_bound, lemma_eval_loop_ok, lemma_eval_ok,
    loop_end, Outcome,
};
use vstd::prelude::*;

verus! {

/// Depth inside a part of a sequence is depth in the sequence, counted from
/// where the part begins.
pub proof fn lemma_depth_subrange(code: Seq<Opcode>, from: int, to: int, j: int)
    requires
        0 <= from <= to <= code.len(),
        0 <= j <= to - from,
    ensures
        depth(code.subrange(from, to), j) == depth(code, from + j) - depth(code, from),
    decreases j,
{
    if j > 0 {
        lemma_depth_subrange(code, from, to, j - 1);
    }
}

/// The scan for a close finds the first return of the depth to the level
/// below the pending opens, if there is one.
pub proof fn lemma_close_index_depth(code: Seq<Opcode>, k: int, pending: int)
    requires
        0 <= k <= code.len(),
        pending >= 1,
    ensures
        close_index(code, k, pending) < code.len() ==> first_return(
            code,
            k,
            depth(code, k) - pending,
            close_index(code, k, pending),
        ),
        close_index(code, k, pending) >= code.len() ==> no_return(
            code,
            k,
            depth(code, k) - pending,
        ),
    decreases code.len() - k,
{
    let floor = depth(code, k) - pending;
    let c = close_index(code, k, pending);
    if k < code.len() {
        if code[k].is_open() {
            lemma_close_index_depth(code, k + 1, pending + 1);
        } else if code[k].is_close() {
            if pending > 1 {
                lemma_close_index_depth(code, k + 1, pending - 1);
            }
        } else {
            lemma_close_index_depth(code, k + 1, pending);
        }
        if c < code.len() {
            assert forall|j: int| k <= j <= c implies #[trigger] depth(code, j) > floor by {
                if j > k {
                    assert(depth(code, j) > floor);
                }
            }
        } else {
            assert forall|j: int| k <= j <= code.len() implies #[trigger] depth(code, j)
                > floor by {
                if j > k {
                    assert(depth(code, j) > floor);
                }
            }
        }
    }
}

/// The first return of the depth is what the scan for a close finds.
pub proof fn lemma_close_index_is(code: Seq<Opcode>, k: int, pending: int, c: int)
    requires
        0 <= k,
        pending >= 1,
        first_return(code, k, depth(code, k) - pending, c),
    ensures
        close_index(code, k, pending) == c,
    decreases c - k,
{
    let floor = depth(code, k) - pending;
    if k < c {
        assert(depth(code, k + 1) > floor);
        if code[k].is_open() {
            lemma_close_index_is(code, k + 1, pending + 1, c);
        } else if code[k].is_close() {
            lemma_close_index_is(code, k + 1, pending - 1, c);
        } else {
            lemma_close_index_is(code, k + 1, pending, c);
        }
    } else {
        assert(depth(code, k) > floor);
    }
}

/// Where depth never returns, the scan for a close finds nothing.
pub proof fn lemma_close_index_none(code: Seq<Opcode>, k: int, pending: int)
    requires
        0 <= k <= code.len(),
        pending >= 1,
        no_return(code, k, depth(code, k) - pending),
    ensures
        close_index(code, k, pending) == code.len(),
    decreases code.len() - k,
{
    let floor = depth(code, k) - pending;
    if k < code.len() {
        assert(depth(code, k + 1) > floor);
        assert(depth(code, k) > floor);
        if code[k].is_open() {
            lemma_close_index_none(code, k + 1, pending + 1);
        } else if code[k].is_close() {
            lemma_close_index_none(code, k + 1, pending - 1);
        } else {
            lemma_close_index_none(code, k + 1, pending);
        }
    }
}

/// A balanced sequence that begins with an open holds the close of that
/// open; the body between them is balanced, and so is what follows.
pub proof fn lemma_balanced_loop(u: Seq<Opcode>)
    requires
        balanced(u),
        u.len() > 0,
        u[0].is_open(),
    ensures
        1 <= loop_end(u) < u.len(),
        first_return(u, 1, 0, loop_end(u)),
        balanced(u.subrange(1, loop_end(u))),
        balanced(u.skip(loop_end(u) + 1)),
{
    let c = loop_end(u);
    lemma_close_index_bound(u, 1, 1);
    lemma_close_index_depth(u, 1, 1);
    assert(depth(u, 1) == depth(u, 0) + 1);
    if c >= u.len() {
        assert(depth(u, u.len() as int) > 0);
    }
    let body = u.subrange(1, c);
    assert forall|j: int| 0 <= j <= body.len() implies #[trigger] depth(body, j) >= 0 by {
        lemma_depth_subrange(u, 1, c, j);
        assert(depth(u, 1 + j) > 0);
    }
    lemma_depth_subrange(u, 1, c, c - 1);
    assert(depth(u, c + 1) == depth(u, c) - 1);
    let rest = u.skip(c + 1);
    assert(rest == u.subrange(c + 1, u.len() as int));
    assert forall|j: int| 0 <= j <= rest.len() implies #[trigger] depth(rest, j) >= 0 by {
        lemma_depth_subrange(u, c + 1, u.len() as int, j);
        assert(depth(u, c + 1 + j) >= 0);
    }
    lemma_depth_subrange(u, c + 1, u.len() as int, u.len() - c - 1);
}

/// A balanced sequence does not begin with a close, and without its first
/// opcode, if that is no bracket, it is balanced.
pub proof fn lemma_balanced_step(u: Seq<Opcode>)
    requires
        balanced(u),
        u.len() > 0,
    ensures
        !u[0].is_close(),
        !u[0].is_bracket() ==> balanced(u.skip(1)),
{
    assert(depth(u, 1) == depth(u, 0) + crate::brackets::depth_change(u[0]));
    assert(depth(u, 1) >= 0);
    if !u[0].is_bracket() {
        let rest = u.skip(1);
        assert(rest == u.subrange(1, u.len() as int));
        assert forall|j: int| 0 <= j <= rest.len() implies #[trigger] depth(rest, j) >= 0 by {
            lemma_depth_subrange(u, 1, u.len() as int, j);
            assert(depth(u, 1 + j) >= 0);
        }
        lemma_depth_subrange(u, 1, u.len() as int, u.len() - 1);
    }
}

/// The outcome of `first`, and then of `then` on the tape it leaves.
pub open spec fn and_then(first: Option<Outcome>, then: Seq<Opcode>, fuel: nat) -> Option<
    Outcome,
> {
    match first {
        Some(Outcome::Done(after)) => eval(then, after, fuel),
        other => other,
    }
}

/// A balanced sequence followed by another does what the one does and then
/// what the other does.
pub proof fn lemma_eval_concat(u: Seq<Opcode>, post: Seq<Opcode>, tape: Tape, fuel: nat)
    requires
        balanced(u),
    ensures
        eval(u + post, tape, fuel) == and_then(eval(u, tape, fuel), post, fuel),
    decreases u.len(),
{
    let code = u + post;
    if u.len() == 0 {
        assert(code == post);
    } else if u[0].is_open() {
        lemma_balanced_loop(u);
        let c = loop_end(u);
        assert(first_return(code, 1, 0, c)) by {
            assert forall|j: int| 1 <= j <= c implies #[trigger] depth(code, j) > 0 by {
                lemma_depth_agree(code, u, j);
                assert(depth(u, j) > 0);
            }
            lemma_depth_agree(code, u, c + 1);
        }
        assert(depth(code, 1) == depth(code, 0) + 1);
        lemma_close_index_is(code, 1, 1, c);
        assert(code.subrange(1, c) == u.subrange(1, c));
        assert(code.skip(c + 1) == u.skip(c + 1) + post);
        if cell(tape) == 0 {
            lemma_eval_concat(u.skip(c + 1), post, tape, fuel);
        } else {
            match eval_loop(u.subrange(1, c), tape, fuel) {
                Some(Outcome::Done(after)) => {
                    lemma_eval_concat(u.skip(c + 1), post, after, fuel);
                },
                _ => {},
            }
        }
    } else {
        lemma_balanced_step(u);
        assert(code.skip(1) == u.skip(1) + post);
        match effect(u[0], tape) {
            Effect::Next(after) => {
                lemma_eval_concat(u.skip(1), post, after, fuel);
            },
            _ => {},
        }
    }
}

/// One outcome may stand for another: it is the same, or it is an overrun in
/// place of an end.
pub open spec fn stands_for(first: Option<Outcome>, second: Option<Outcome>) -> bool {
    match first {
        Some(Outcome::Done(after)) => second == Some(Outcome::Done(after)) || second == Some(
            Outcome::Overrun,
        ),
        Some(Outcome::Overrun) => second == Some(Outcome::Overrun),
        _ => true,
    }
}

/// On this tape and with this fuel, `b` may stand for `a`.
pub open spec fn refines_at(a: Seq<Opcode>, b: Seq<Opcode>, tape: Tape, fuel: nat) -> bool {
    stands_for(eval(a, tape, fuel), eval(b, tape, fuel))
}

/// `b` may stand for `a`: on every whole tape on which `a` comes to an end,
/// `b` comes to the same end or overruns, and where `a` overruns, so does
/// `b`.
pub open spec fn refines(a: Seq<Opcode>, b: Seq<Opcode>) -> bool {
    forall|tape: Tape, fuel: nat| tape_ok(tape) ==> #[trigger] refines_at(a, b, tape, fuel)
}

/// On this tape and with this fuel, a loop around `b` may stand for a loop
/// around `a` that has been entered.
pub open spec fn loop_refines_at(a: Seq<Opcode>, b: Seq<Opcode>, tape: Tape, fuel: nat) -> bool {
    stands_for(eval_loop(a, tape, fuel), eval_loop(b, tape, fuel))
}

/// Every piece of a program may stand for itself.
pub proof fn lemma_refines_self(a: Seq<Opcode>)
    ensures
        refines(a, a),
{
    assert forall|tape: Tape, fuel: nat| tape_ok(tape) implies #[trigger] refines_at(
        a,
        a,
        tape,
        fuel,
    ) by {}
}

/// What may stand for a piece that may stand for another may stand for that
/// other.
pub proof fn lemma_refines_trans(a: Seq<Opcode>, b: Seq<Opcode>, c: Seq<Opcode>)
    requires
        refines(a, b),
        refines(b, c),
    ensures
        refines(a, c),
{
    assert forall|tape: Tape, fuel: nat| tape_ok(tape) implies #[trigger] refines_at(
        a,
        c,
        tape,
        fuel,
    ) by {
        assert(refines_at(a, b, tape, fuel));
        assert(refines_at(b, c, tape, fuel));
    }
}

/// Depth in a sequence of three parts, by the part that it is taken in.
pub proof fn lemma_depth_three(pre: Seq<Opcode>, u: Seq<Opcode>, post: Seq<Opcode>, j: int)
    requires
        0 <= j <= pre.len() + u.len() + post.len(),
    ensures
        j <= pre.len() ==> depth(pre + u + post, j) == depth(pre, j),
        pre.len() <= j <= pre.len() + u.len() ==> depth(pre + u + post, j) == total_depth(pre)
            + depth(u, j - pre.len()),
        pre.len() + u.len() <= j ==> depth(pre + u + post, j) == total_depth(pre) + total_depth(u)
            + depth(post, j - pre.len() - u.len()),
{
    let code = pre + u + post;
    if j <= pre.len() {
        lemma_depth_agree(code, pre, j);
    }
    if pre.len() <= j <= pre.len() + u.len() {
        lemma_depth_agree(code, pre + u, j);
        lemma_depth_concat(pre, u, j - pre.len());
    }
    if pre.len() + u.len() <= j {
        lemma_depth_concat(pre + u, post, j - pre.len() - u.len());
        lemma_depth_concat(pre, u, u.len() as int);
    }
}

/// Where a balanced part of a sequence is exchanged for another, the close
/// of the loop that the sequence begins with stays where it is if it comes
/// before the part, moves with what comes behind the part if it comes there,
/// and never lies in the part.
pub proof fn lemma_loop_end_context(
    pre: Seq<Opcode>,
    u: Seq<Opcode>,
    v: Seq<Opcode>,
    post: Seq<Opcode>,
)
    requires
        balanced(u),
        balanced(v),
        pre.len() > 0,
        pre[0].is_open(),
    ensures
        loop_end(pre + u + post) < pre.len() ==> loop_end(pre + v + post) == loop_end(
            pre + u + post,
        ),
        !(pre.len() <= loop_end(pre + u + post) < pre.len() + u.len()),
        loop_end(pre + u + post) >= pre.len() + u.len() ==> loop_end(pre + v + post) == loop_end(
            pre + u + post,
        ) - u.len() + v.len(),
        1 <= loop_end(pre + u + post) <= (pre + u + post).len(),
{
    let code = pre + u + post;
    let code2 = pre + v + post;
    let c = loop_end(code);
    lemma_close_index_bound(code, 1, 1);
    lemma_close_index_depth(code, 1, 1);
    assert(depth(code, 1) == depth(code, 0) + 1);
    assert(depth(code2, 1) == depth(code2, 0) + 1);
    if c < pre.len() {
        assert(first_return(code2, 1, 0, c)) by {
            assert forall|j: int| 1 <= j <= c implies #[trigger] depth(code2, j) > 0 by {
                lemma_depth_three(pre, u, post, j);
                lemma_depth_three(pre, v, post, j);
                assert(depth(code, j) > 0);
            }
            lemma_depth_three(pre, u, post, c + 1);
            lemma_depth_three(pre, v, post, c + 1);
        }
        lemma_close_index_is(code2, 1, 1, c);
    } else if c < pre.len() + u.len() {
        lemma_depth_three(pre, u, post, pre.len() as int);
        lemma_depth_three(pre, u, post, c + 1);
        assert(depth(code, pre.len() as int) > 0);
        assert(depth(u, c + 1 - pre.len()) >= 0);
        assert(false);
    } else if c < code.len() {
        let c2 = c - u.len() + v.len();
        lemma_depth_three(pre, u, post, pre.len() as int);
        assert(depth(code, pre.len() as int) > 0);
        assert(first_return(code2, 1, 0, c2)) by {
            assert forall|j: int| 1 <= j <= c2 implies #[trigger] depth(code2, j) > 0 by {
                lemma_depth_three(pre, v, post, j);
                if j <= pre.len() {
                    lemma_depth_three(pre, u, post, j);
                    assert(depth(code, j) > 0);
                } else if j <= pre.len() + v.len() {
                    assert(depth(v, j - pre.len()) >= 0);
                } else {
                    lemma_depth_three(pre, u, post, j - v.len() + u.len());
                    assert(depth(code, j - v.len() + u.len()) > 0);
                }
            }
            lemma_depth_three(pre, u, post, c + 1);
            lemma_depth_three(pre, v, post, c2 + 1);
        }
        lemma_close_index_is(code2, 1, 1, c2);
    } else {
        lemma_depth_three(pre, u, post, pre.len() as int);
        assert(depth(code, pre.len() as int) > 0);
        assert(no_return(code2, 1, 0)) by {
            assert forall|j: int| 1 <= j <= code2.len() implies #[trigger] depth(code2, j)
                > 0 by {
                lemma_depth_three(pre, v, post, j);
                if j <= pre.len() {
                    lemma_depth_three(pre, u, post, j);
                    assert(depth(code, j) > 0);
                } else if j <= pre.len() + v.len() {
                    assert(depth(v, j - pre.len()) >= 0);
                } else {
                    lemma_depth_three(pre, u, post, j - v.len() + u.len());
                    assert(depth(code, j - v.len() + u.len()) > 0);
                }
            }
        }
        lemma_close_index_none(code2, 1, 1);
    }
}

/// Where `v` may stand for `u`, it may do so in any place of a program: with
/// the same opcodes before and behind.
pub proof fn lemma_context(
    pre: Seq<Opcode>,
    u: Seq<Opcode>,
    v: Seq<Opcode>,
    post: Seq<Opcode>,
    tape: Tape,
    fuel: nat,
)
    requires
        refines(u, v),
        balanced(u),
        balanced(v),
        tape_ok(tape),
    ensures
        refines_at(pre + u + post, pre + v + post, tape, fuel),
    decreases fuel, pre.len() + post.len(), 1nat,
{
    let code = pre + u + post;
    let code2 = pre + v + post;
    if pre.len() == 0 {
        assert(code == u + post);
        assert(code2 == v + post);
        lemma_eval_concat(u, post, tape, fuel);
        lemma_eval_concat(v, post, tape, fuel);
        assert(refines_at(u, v, tape, fuel));
    } else if pre[0].is_open() {
        lemma_loop_end_context(pre, u, v, post);
        lemma_loop_end_context(pre, v, u, post);
        let c = loop_end(code);
        let c2 = loop_end(code2);
        if c >= code.len() {
        } else if c < pre.len() {
            let body = code.subrange(1, c);
            assert(code2.subrange(1, c) == body);
            let rest_pre = pre.skip(c + 1);
            assert(code.skip(c + 1) == rest_pre + u + post);
            assert(code2.skip(c + 1) == rest_pre + v + post);
            if cell(tape) == 0 {
                lemma_context(rest_pre, u, v, post, tape, fuel);
            } else {
                lemma_eval_loop_ok(body, tape, fuel);
                match eval_loop(body, tape, fuel) {
                    Some(Outcome::Done(after)) => {
                        lemma_context(rest_pre, u, v, post, after, fuel);
                    },
                    _ => {},
                }
            }
        } else {
            let cut = c - pre.len() - u.len();
            let body_pre = pre.skip(1);
            let body_post = post.take(cut);
            let rest = post.skip(cut + 1);
            assert(code.subrange(1, c) == body_pre + u + body_post);
            assert(code2.subrange(1, c2) == body_pre + v + body_post);
            assert(code.skip(c + 1) == rest);
            assert(code2.skip(c2 + 1) == rest);
            if cell(tape) == 0 {
            } else {
                lemma_context_loop(body_pre, u, v, body_post, tape, fuel);
            }
        }
    } else if pre[0].is_close() {
    } else {
        assert(code.skip(1) == pre.skip(1) + u + post);
        assert(code2.skip(1) == pre.skip(1) + v + post);
        lemma_effect_ok(pre[0], tape);
        match effect(pre[0], tape) {
            Effect::Next(after) => {
                lemma_context(pre.skip(1), u, v, post, after, fuel);
            },
            _ => {},
        }
    }
}

/// Where `v` may stand for `u`, it may do so in the body of a loop.
pub proof fn lemma_context_loop(
    pre: Seq<Opcode>,
    u: Seq<Opcode>,
    v: Seq<Opcode>,
    post: Seq<Opcode>,
    tape: Tape,
    fuel: nat,
)
    requires
        refines(u, v),
        balanced(u),
        balanced(v),
        tape_ok(tape),
    ensures
        loop_refines_at(pre + u + post, pre + v + post, tape, fuel),
    decreases fuel, pre.len() + post.len(), 2nat,
{
    let body = pre + u + post;
    lemma_context(pre, u, v, post, tape, fuel);
    lemma_eval_ok(body, tape, fuel);
    match eval(body, tape, fuel) {
        Some(Outcome::Done(after)) => {
            if cell(after) != 0 && fuel > 0 {
                lemma_context_loop(pre, u, v, post, after, (fuel - 1) as nat);
            }
        },
        _ => {},
    }
}

/// `q` may stand for `p` whatever follows.
pub open spec fn prefix_refines(p: Seq<Opcode>, q: Seq<Opcode>) -> bool {
    forall|then: Seq<Opcode>| refines(#[trigger] (p + then), q + then)
}

/// A prefix may stand for itself.
pub proof fn lemma_prefix_refines_self(p: Seq<Opcode>)
    ensures
        prefix_refines(p, p),
{
    assert forall|then: Seq<Opcode>| refines(#[trigger] (p + then), p + then) by {
        lemma_refines_self(p + then);
    }
}

/// Standing for a prefix carries over two steps.
pub proof fn lemma_prefix_refines_trans(p: Seq<Opcode>, q: Seq<Opcode>, r: Seq<Opcode>)
    requires
        prefix_refines(p, q),
        prefix_refines(q, r),
    ensures
        prefix_refines(p, r),
{
    assert forall|then: Seq<Opcode>| refines(#[trigger] (p + then), r + then) by {
        assert(refines(p + then, q + then));
        assert(refines(q + then, r + then));
        lemma_refines_trans(p + then, q + then, r + then);
    }
}

/// Standing for a prefix carries over to the prefixes with more behind them.
pub proof fn lemma_prefix_refines_append(p: Seq<Opcode>, q: Seq<Opcode>, more: Seq<Opcode>)
    requires
        prefix_refines(p, q),
    ensures
        prefix_refines(p + more, q + more),
{
    assert forall|then: Seq<Opcode>| refines(#[trigger] ((p + more) + then), (q + more) + then) by {
        assert((p + more) + then == p + (more + then));
        assert((q + more) + then == q + (more + then));
        assert(refines(p + (more + then), q + (more + then)));
    }
}

/// Where `v` may stand for `u`, a prefix that ends in `v` may stand for the
/// prefix that ends in `u`.
pub proof fn lemma_prefix_refines_tail(pre: Seq<Opcode>, u: Seq<Opcode>, v: Seq<Opcode>)
    requires
        refines(u, v),
        balanced(u),
        balanced(v),
    ensures
        prefix_refines(pre + u, pre + v),
{
    assert forall|then: Seq<Opcode>| refines(#[trigger] ((pre + u) + then), (pre + v) + then) by {
        assert forall|tape: Tape, fuel: nat| tape_ok(tape) implies #[trigger] refines_at(
            (pre + u) + then,
            (pre + v) + then,
            tape,
            fuel,
        ) by {
            lemma_context(pre, u, v, then, tape, fuel);
        }
    }
}

/// What `code` does depends on the kinds of its brackets alone, not on their
/// targets.
pub proof fn lemma_eval_same_shape(a: Seq<Opcode>, b: Seq<Opcode>, tape: Tape, fuel: nat)
    requires
        same_shape(a, b),
    ensures
        eval(a, tape, fuel) == eval(b, tape, fuel),
    decreases fuel, a.len(), 1nat,
{
    if a.len() == 0 {
    } else if a[0].is_open() {
        assert(b[0].is_open());
        lemma_close_index_same_shape(a, b, 1, 1);
        let end = loop_end(a);
        lemma_close_index_bound(a, 1, 1);
        if end < a.len() {
            lemma_same_shape_parts(a, b, end + 1, a.len() as int);
            lemma_same_shape_parts(a, b, 1, end);
            assert(a.skip(end + 1) == a.subrange(end + 1, a.len() as int));
            assert(b.skip(end + 1) == b.subrange(end + 1, b.len() as int));
            if cell(tape) == 0 {
                lemma_eval_same_shape(a.skip(end + 1), b.skip(end + 1), tape, fuel);
            } else {
                lemma_eval_loop_same_shape(a.subrange(1, end), b.subrange(1, end), tape, fuel);
                match eval_loop(a.subrange(1, end), tape, fuel) {
                    Some(Outcome::Done(after)) => {
                        lemma_eval_same_shape(a.skip(end + 1), b.skip(end + 1), after, fuel);
                    },
                    _ => {},
                }
            }
        }
    } else if a[0].is_close() {
        assert(b[0].is_close());
    } else {
        assert(a[0] == b[0]);
        lemma_same_shape_parts(a, b, 1, a.len() as int);
        assert(a.skip(1) == a.subrange(1, a.len() as int));
        assert(b.skip(1) == b.subrange(1, b.len() as int));
        match effect(a[0], tape) {
            Effect::Next(after) => {
                lemma_eval_same_shape(a.skip(1), b.skip(1), after, fuel);
            },
            _ => {},
        }
    }
}

proof fn lemma_eval_loop_same_shape(a: Seq<Opcode>, b: Seq<Opcode>, tape: Tape, fuel: nat)
    requires
        same_shape(a, b),
    ensures
        eval_loop(a, tape, fuel) == eval_loop(b, tape, fuel),
    decreases fuel, a.len(), 2nat,
{
    lemma_eval_same_shape(a, b, tape, fuel);
    match eval(a, tape, fuel) {
        Some(Outcome::Done(after)) => {
            if cell(after) != 0 && fuel > 0 {
                lemma_eval_loop_same_shape(a, b, after, (fuel - 1) as nat);
            }
        },
        _ => {},
    }
}

proof fn lemma_close_index_same_shape(a: Seq<Opcode>, b: Seq<Opcode>, k: int, pending: int)
    requires
        same_shape(a, b),
        0 <= k,
    ensures
        close_index(a, k, pending) == close_index(b, k, pending),
    decreases a.len() - k,
{
    if k < a.len() {
        assert(a[k].is_open() == b[k].is_open());
        lemma_close_index_same_shape(a, b, k + 1, pending + 1);
        lemma_close_index_same_shape(a, b, k + 1, pending - 1);
        lemma_close_index_same_shape(a, b, k + 1, pending);
    }
}

proof fn lemma_same_shape_parts(a: Seq<Opcode>, b: Seq<Opcode>, from: int, to: int)
    requires
        same_shape(a, b),
        0 <= from <= to <= a.len(),
    ensures
        same_shape(a.subrange(from, to), b.subrange(from, to)),
{
    let x = a.subrange(from, to);
    let y = b.subrange(from, to);
    assert forall|i: int| 0 <= i < x.len() implies {
        &&& (#[trigger] x[i]).is_open() == y[i].is_open()
        &&& x[i].is_close() == y[i].is_close()
        &&& !x[i].is_bracket() ==> x[i] == y[i]
    } by {
        assert(a[from + i].is_open() == b[from + i].is_open());
    }
}

/// Two sequences of one shape may stand for each other, whatever follows.
pub proof fn lemma_same_shape_refines(a: Seq<Opcode>, b: Seq<Opcode>)
    requires
        same_shape(a, b),
    ensures
        prefix_refines(a, b),
{
    assert forall|then: Seq<Opcode>| refines(#[trigger] (a + then), b + then) by {
        assert(same_shape(a + then, b + then)) by {
            let x = a + then;
            let y = b + then;
            assert forall|i: int| 0 <= i < x.len() implies {
                &&& (#[trigger] x[i]).is_open() == y[i].is_open()
                &&& x[i].is_close() == y[i].is_close()
                &&& !x[i].is_bracket() ==> x[i] == y[i]
            } by {
                if i < a.len() {
                    assert(a[i].is_open() == b[i].is_open());
                }
            }
        }
        assert forall|tape: Tape, fuel: nat| tape_ok(tape) implies #[trigger] refines_at(
            a + then,
            b + then,
            tape,
            fuel,
        ) by {
            lemma_eval_same_shape(a + then, b + then, tape, fuel);
        }
    }
}

} // verus!
