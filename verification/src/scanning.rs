//! The scan-loop recognizer: a loop whose whole body is one pointer move
//! becomes a single scan opcode.

use crate::brackets::{
    closes_matched, depth, lemma_closes_matched_push, lemma_closes_matched_take, total_depth,
};
use crate::opcodes::{lemma_weight_push, lemma_weight_take, total_weight, Opcode};
use vstd::prelude::*;

verus! {

/// Whether the output ends in an open and a `Move`, so that a close arriving
/// now completes a scan loop.
pub open spec fn ends_in_scan_body(acc: Seq<Opcode>) -> bool {
    acc.len() >= 2 && acc[acc.len() - 1] is Move && acc[acc.len() - 2] is JumpIfZero
}

/// The output after one more opcode: a close that completes the window
/// `JumpIfZero, Move(k), JumpIfNonZero` replaces it by `ScanBy(k)`.
pub open spec fn scan_step(acc: Seq<Opcode>, op: Opcode) -> Seq<Opcode> {
    if op is JumpIfNonZero && ends_in_scan_body(acc) {
        acc.take(acc.len() - 2).push(Opcode::ScanBy { step: acc.last()->Move_delta })
    } else {
        acc.push(op)
    }
}

/// The sequence with each scan loop replaced by its scan opcode.
pub open spec fn with_scans(s: Seq<Opcode>) -> Seq<Opcode>
    decreases s.len(),
{
    if s.len() == 0 {
        Seq::empty()
    } else {
        scan_step(with_scans(s.drop_last()), s.last())
    }
}

/// The pass never lengthens a sequence.
pub proof fn lemma_with_scans_len(s: Seq<Opcode>)
    ensures
        with_scans(s).len() <= s.len(),
    decreases s.len(),
{
    if s.len() > 0 {
        lemma_with_scans_len(s.drop_last());
    }
}

/// Replaces each window `JumpIfZero, Move(k), JumpIfNonZero` by `ScanBy(k)`.
pub fn gen_scanning_ops(opcodes: Vec<Opcode>) -> (output: Vec<Opcode>)
    ensures
        output@ == with_scans(opcodes@),
        output@.len() <= opcodes@.len(),
{
    let mut output: Vec<Opcode> = Vec::new();
    let mut i: usize = 0;
    while i < opcodes.len()
        invariant
            i <= opcodes.len(),
            output@ == with_scans(opcodes@.take(i as int)),
        decreases opcodes.len() - i,
    {
        let opcode = opcodes[i];
        proof {
            assert(opcodes@.take(i + 1).drop_last() == opcodes@.take(i as int));
        }
        let n = output.len();
        match opcode {
            Opcode::JumpIfNonZero { .. } => {
                if n >= 2 {
                    match output[n - 1] {
                        Opcode::Move { delta } => match output[n - 2] {
                            Opcode::JumpIfZero { .. } => {
                                let ghost before = output@;
                                output.pop();
                                output.pop();
                                output.push(Opcode::ScanBy { step: delta });
                                assert(output@ == before.take(n - 2).push(
                                    Opcode::ScanBy { step: delta },
                                ));
                            },
                            _ => output.push(opcode),
                        },
                        _ => output.push(opcode),
                    }
                } else {
                    output.push(opcode);
                }
            },
            _ => output.push(opcode),
        }
        i += 1;
    }
    proof {
        assert(opcodes@.take(i as int) == opcodes@);
        lemma_with_scans_len(opcodes@);
    }
    output
}

/// The pass does not add to the weight of a sequence.
pub proof fn lemma_with_scans_weight(s: Seq<Opcode>)
    ensures
        total_weight(with_scans(s)) <= total_weight(s),
    decreases s.len(),
{
    if s.len() > 0 {
        let front = s.drop_last();
        let op = s.last();
        assert(front.push(op) == s);
        lemma_weight_push(front, op);
        lemma_with_scans_weight(front);
        let acc = with_scans(front);
        if op is JumpIfNonZero && ends_in_scan_body(acc) {
            let kept = acc.take(acc.len() - 2);
            lemma_weight_take(acc, acc.len() - 2);
            lemma_weight_push(kept, Opcode::ScanBy { step: acc.last()->Move_delta });
        } else {
            lemma_weight_push(acc, op);
        }
    }
}

/// The pass keeps the closes of a sequence matched and its depth.
pub proof fn lemma_with_scans_depth(s: Seq<Opcode>)
    requires
        closes_matched(s),
    ensures
        closes_matched(with_scans(s)),
        total_depth(with_scans(s)) == total_depth(s),
    decreases s.len(),
{
    if s.len() > 0 {
        let front = s.drop_last();
        let op = s.last();
        assert(front == s.take(s.len() - 1));
        lemma_closes_matched_take(s, s.len() - 1);
        lemma_with_scans_depth(front);
        let acc = with_scans(front);
        assert(depth(s, s.len() as int) >= 0);
        if op is JumpIfNonZero && ends_in_scan_body(acc) {
            let n = acc.len() as int;
            lemma_closes_matched_take(acc, n - 2);
            assert(depth(acc, n) == depth(acc, n - 1) + 0);
            assert(depth(acc, n - 1) == depth(acc, n - 2) + 1);
            lemma_closes_matched_push(
                acc.take(n - 2),
                Opcode::ScanBy { step: acc.last()->Move_delta },
            );
        } else {
            lemma_closes_matched_push(acc, op);
        }
    }
}

} // verus!
