//! The compiler driver: the passes in their fixed schedule of two rounds.

use crate::brackets::{
    balanced, lemma_resolved_paired, lemma_resolved_shape, lemma_same_shape_balanced,
    lemma_same_shape_weight, reset_bracket, resolved, well_paired,
};
use crate::dead_store::{
    lemma_dead_stores_bounds, lemma_dead_stores_depth, lemma_dead_stores_len,
    remove_pointless_code_alteration, without_dead_stores,
};
use crate::folding::{
    compress_foldable_opcodes, fold, lemma_fold_bounds, lemma_fold_depth, lemma_fold_len,
};
use crate::loops::{
    lemma_reduced_balanced, lemma_reduced_len, lemma_reduced_weight, loop_transformations,
    loops_reduced,
};
use crate::opcodes::{total_weight, Opcode};
use crate::scanning::{
    gen_scanning_ops, lemma_with_scans_depth, lemma_with_scans_len, lemma_with_scans_weight,
    with_scans,
};
use crate::source_utils::{brackets_balanced, check_program_brackets, instructions_of};
use crate::tokenizer::{
    lemma_raw_tokens_balanced, lemma_raw_tokens_len, lemma_raw_tokens_weight, raw_tokens,
    tokenize_instructions,
};
use vstd::prelude::*;

verus! {

/// How many opcodes the program held after each stage of a compilation.
#[derive(Debug, Copy, Clone, PartialEq, Eq, Structural)]
pub struct CompileSizes {
    /// After tokenizing.
    pub tokens: usize,
    /// After folding.
    pub folded: usize,
    /// After the first dead-store elimination.
    pub stores_removed: usize,
    /// After the first scan recognition.
    pub scans_found: usize,
    /// After the first loop transformation.
    pub loops_reduced: usize,
    /// After the second round.
    pub second_round: usize,
}

/// One round of the three passes that are run twice: dead stores, scans,
/// loops, with the jump targets resolved at its end.
pub open spec fn round_of(s: Seq<Opcode>) -> Seq<Opcode> {
    resolved(loops_reduced(with_scans(without_dead_stores(s))))
}

/// What the compiler makes of a tokenized program: it is folded, put through
/// two rounds, and its jump targets are resolved once more.
pub open spec fn compiled_tokens(tokens: Seq<Opcode>) -> Seq<Opcode> {
    resolved(round_of(round_of(fold(tokens))))
}

/// What the compiler makes of a source text.
pub open spec fn compiled(source: Seq<char>) -> Seq<Opcode> {
    compiled_tokens(resolved(raw_tokens(source)))
}

/// One round on `code`; also the sizes after its first two passes.
fn optimize_round(code: Vec<Opcode>) -> (out: (Vec<Opcode>, usize, usize))
    requires
        balanced(code@),
        total_weight(code@) <= i32::MAX,
    ensures
        out.0@ == round_of(code@),
        out.1 == without_dead_stores(code@).len(),
        out.2 == with_scans(without_dead_stores(code@)).len(),
        balanced(out.0@),
        well_paired(out.0@),
        total_weight(out.0@) <= total_weight(code@),
{
    proof {
        lemma_dead_stores_bounds(code@);
        lemma_dead_stores_depth(code@);
    }
    let code = remove_pointless_code_alteration(code);
    let stores_removed = code.len();
    proof {
        lemma_with_scans_weight(code@);
        lemma_with_scans_depth(code@);
    }
    let code = gen_scanning_ops(code);
    let scans_found = code.len();
    proof {
        lemma_reduced_weight(code@);
    }
    let ghost scanned = code@;
    let code = loop_transformations(code);
    proof {
        lemma_same_shape_weight(code@, loops_reduced(scanned));
    }
    (code, stores_removed, scans_found)
}

/// The size of the program after each stage of the compilation of a source
/// text.
pub open spec fn stage_sizes(source: Seq<char>) -> CompileSizes {
    let tokens = resolved(raw_tokens(source));
    let folded = fold(tokens);
    CompileSizes {
        tokens: tokens.len() as usize,
        folded: folded.len() as usize,
        stores_removed: without_dead_stores(folded).len() as usize,
        scans_found: with_scans(without_dead_stores(folded)).len() as usize,
        loops_reduced: round_of(folded).len() as usize,
        second_round: compiled(source).len() as usize,
    }
}

/// Compiles a source text and reports the size of the program after each
/// stage.
pub fn compile_with_sizes(program_code: String) -> (out: (Vec<Opcode>, CompileSizes))
    requires
        brackets_balanced(program_code@),
        program_code@.len() <= i32::MAX,
    ensures
        out.0@ == compiled(program_code@),
        well_paired(out.0@),
        out.1 == stage_sizes(program_code@),
{
    let ghost source = program_code@;
    let code = tokenize_instructions(program_code);
    let tokens = code.len();
    proof {
        lemma_raw_tokens_weight(source);
        lemma_same_shape_weight(code@, raw_tokens(source));
        lemma_fold_bounds(code@);
        lemma_fold_depth(code@);
    }
    let code = compress_foldable_opcodes(code);
    let folded = code.len();
    let (code, stores_removed, scans_found) = optimize_round(code);
    let loops_reduced = code.len();
    let (code, _, _) = optimize_round(code);
    let code = reset_bracket(code);
    let second_round = code.len();
    (
        code,
        CompileSizes { tokens, folded, stores_removed, scans_found, loops_reduced, second_round },
    )
}

/// Why a source text is not compiled.
#[derive(Debug, Copy, Clone, PartialEq, Eq, Structural)]
pub enum CompileError {
    /// Its brackets are not balanced.
    UnbalancedBrackets,
    /// It has more characters than the arguments of opcodes can count.
    TooLong,
}

/// Compiles a source text if its brackets are balanced and it is not too
/// long, and says why not if not. Nothing is compiled of a text that is
/// turned down.
pub fn compile_checked(program_code: String) -> (out: Result<
    (Vec<Opcode>, CompileSizes),
    CompileError,
>)
    ensures
        match out {
            Ok(compilation) => {
                &&& brackets_balanced(program_code@)
                &&& program_code@.len() <= i32::MAX
                &&& compilation.0@ == compiled(program_code@)
                &&& well_paired(compilation.0@)
                &&& compilation.1 == stage_sizes(program_code@)
            },
            Err(CompileError::UnbalancedBrackets) => !brackets_balanced(program_code@),
            Err(CompileError::TooLong) => brackets_balanced(program_code@) && program_code@.len()
                > i32::MAX,
        },
{
    if !check_program_brackets(program_code.as_str()) {
        Err(CompileError::UnbalancedBrackets)
    } else if program_code.as_str().unicode_len() > 0x7fff_ffff {
        Err(CompileError::TooLong)
    } else {
        Ok(compile_with_sizes(program_code))
    }
}

/// Compiles a source text into the finished opcode sequence: tokenizer,
/// folder, then two rounds of dead-store elimination, scan recognition and
/// loop transformation, and a last resolution of the jump targets.
pub fn compile_code(program_code: String) -> (code: Vec<Opcode>)
    requires
        brackets_balanced(program_code@),
        program_code@.len() <= i32::MAX,
    ensures
        code@ == compiled(program_code@),
        well_paired(code@),
{
    compile_with_sizes(program_code).0
}

/// A source text without instruction characters compiles to the program
/// without opcodes.
pub proof fn lemma_no_instructions_no_opcodes(source: Seq<char>)
    requires
        instructions_of(source).len() == 0,
    ensures
        compiled(source) == Seq::<Opcode>::empty(),
{
    let none = Seq::<Opcode>::empty();
    assert(instructions_of(source) == Seq::<char>::empty());
    assert(raw_tokens(source) == none);
    assert(resolved(none) == none);
    assert(fold(none) == none);
    assert(without_dead_stores(none) == none);
    assert(with_scans(none) == none);
    assert(loops_reduced(none) == none);
    assert(round_of(none) == none);
}

/// One round keeps a balanced program balanced and makes it no longer.
pub proof fn lemma_round_balanced(s: Seq<Opcode>)
    requires
        balanced(s),
        s.len() <= usize::MAX,
    ensures
        balanced(round_of(s)),
        round_of(s).len() <= s.len(),
{
    let stored = without_dead_stores(s);
    lemma_dead_stores_depth(s);
    lemma_dead_stores_len(s);
    let scanned = with_scans(stored);
    lemma_with_scans_depth(stored);
    lemma_with_scans_len(stored);
    let reduced = loops_reduced(scanned);
    lemma_reduced_balanced(scanned);
    lemma_reduced_len(scanned);
    lemma_resolved_shape(reduced);
    lemma_same_shape_balanced(resolved(reduced), reduced);
}

/// Whatever source text with balanced brackets a string can hold, its
/// compiled form satisfies the pairing invariant: each open names the close
/// that names it back, each close names the open that names it back, and
/// pairs nest.
pub proof fn lemma_compiled_paired(source: Seq<char>)
    requires
        brackets_balanced(source),
        source.len() <= usize::MAX,
    ensures
        well_paired(compiled(source)),
{
    let raw = raw_tokens(source);
    lemma_raw_tokens_balanced(source);
    lemma_raw_tokens_len(source);
    let tokens = resolved(raw);
    lemma_resolved_shape(raw);
    lemma_same_shape_balanced(tokens, raw);
    let folded = fold(tokens);
    lemma_fold_depth(tokens);
    lemma_fold_len(tokens);
    lemma_round_balanced(folded);
    lemma_round_balanced(round_of(folded));
    lemma_resolved_paired(round_of(round_of(folded)));
}

} // verus!
