//! An optimizing bytecode compiler and interpreter for a byte-oriented tape
//! language of eight instructions.
//!
//! A program is compiled in passes: [`tokenizer`] turns source text into
//! opcodes, [`folding`] sums runs of like opcodes, [`dead_store`] drops
//! writes that are overwritten, [`scanning`] turns move loops into scans,
//! and [`loops`] reduces multiply-accumulate loops to arithmetic, with
//! [`splice`] to put the reductions in place and [`brackets`] to resolve the
//! jump targets. [`compiler`] runs the passes in their schedule. The finished
//! program runs on [`opcode_interpreter`]; [`simple_interpreter`] runs source
//! text as it is. Both read from and write to a [`channel`] of bytes in
//! memory.
//!
//! What a run is, is said in [`semantics`]. What the library proves of
//! itself, beyond the contract of each function:
//!
//! - folding a folded sequence changes nothing
//!   ([`folding::lemma_fold_idempotent`]);
//! - a compiled program satisfies the pairing invariant
//!   ([`compiler::lemma_compiled_paired`]), and the invariant leaves no
//!   choice of jump targets ([`pairing::lemma_pairing_unique`]);
//! - a compiled program runs as its tokenized form does
//!   ([`equivalence::lemma_compiled_runs_as_tokenized`]);
//! - the data pointer stays in the arena ([`semantics::lemma_run_valid`]),
//!   and a move or scan that would take it out faults
//!   ([`semantics::lemma_move_outside_faults`],
//!   [`semantics::lemma_scan_outside_faults`]);
//! - a program without opcodes has halted before it begins
//!   ([`semantics::lemma_empty_program_halts`]).
//!
//! The proof that compiling keeps what a program does goes through the
//! meaning of a program by its structure ([`structure`]), the notion of one
//! piece of a program standing for another ([`refinement`]), the reduction of
//! a multiply-accumulate loop ([`multiply`]), and the agreement of machine and
//! structure on resolved programs ([`pairing`], [`adequacy`]).

pub mod adequacy;
pub mod bf_executor;
pub mod brackets;
pub mod c_backend;
pub mod channel;
pub mod compiler;
pub mod dead_store;
pub mod equivalence;
pub mod folding;
pub mod loops;
pub mod multiply;
pub mod opcode_interpreter;
pub mod opcodes;
pub mod pairing;
pub mod refinement;
pub mod repl;
pub mod scanning;
pub mod semantics;
pub mod simple_interpreter;
pub mod source_utils;
pub mod splice;
pub mod state;
pub mod structure;
pub mod tokenizer;
