use bf::brackets::{brackets_are_balanced, check_jump_targets, reset_bracket};
use bf::compiler::{compile_code, compile_with_sizes};
use bf::opcodes::{
    compress_foldable_opcodes, find_lowest_level_loops, find_transform_if_multi_loop,
    gen_scanning_ops, is_simple_loop, loop_transformations, remove_pointless_code_alteration,
    replace_segments, tokenize_instructions, Opcode,
};

fn change(delta: i32) -> Opcode {
    Opcode::Change { delta }
}

fn mv(delta: i32) -> Opcode {
    Opcode::Move { delta }
}

fn put(count: usize) -> Opcode {
    Opcode::PutChar { count }
}

fn read(count: usize) -> Opcode {
    Opcode::ReadChar { count }
}

fn open(target: usize) -> Opcode {
    Opcode::JumpIfZero { target }
}

fn close(target: usize) -> Opcode {
    Opcode::JumpIfNonZero { target }
}

fn set(value: i32) -> Opcode {
    Opcode::SetTo { value }
}

fn multi(offset: i32, factor: i32) -> Opcode {
    Opcode::Multi { offset, factor }
}

fn well_paired(code: &[Opcode]) -> bool {
    for (i, op) in code.iter().enumerate() {
        match *op {
            Opcode::JumpIfZero { target } => {
                if !(i < target && target < code.len() && code[target] == close(i)) {
                    return false;
                }
                for (k, inner) in code.iter().enumerate().skip(i + 1).take(target - i - 1) {
                    if let Opcode::JumpIfZero { target: inner_target } = *inner {
                        if !(k < inner_target && inner_target < target) {
                            return false;
                        }
                    }
                }
            }
            Opcode::JumpIfNonZero { target } => {
                if !(target < i && code[target] == open(i)) {
                    return false;
                }
            }
            _ => {}
        }
    }
    true
}

#[test]
fn tokenizer_maps_each_instruction() {
    assert_eq!(
        tokenize_instructions(String::from("+-<>.,")),
        vec![change(1), change(-1), mv(-1), mv(1), put(1), read(1)]
    );
}

#[test]
fn tokenizer_resolves_brackets_to_their_partners() {
    assert_eq!(
        tokenize_instructions(String::from("[>[+]<[.]]")),
        vec![open(7), mv(1), set(0), mv(-1), open(6), put(1), close(4), close(0)]
    );
    assert_eq!(
        tokenize_instructions(String::from("[[]][]")),
        vec![open(3), open(2), close(1), close(0), open(5), close(4)]
    );
}

#[test]
fn tokenizer_marks_both_clear_loops() {
    assert_eq!(tokenize_instructions(String::from("[-][+]")), vec![set(0), set(0)]);
    assert_eq!(
        tokenize_instructions(String::from("[[-]]")),
        vec![open(2), set(0), close(0)]
    );
    // A character between the brackets and the sign defeats the literal match
    // only if it is an instruction.
    assert_eq!(tokenize_instructions(String::from("[ - ]")), vec![set(0)]);
    assert_eq!(
        tokenize_instructions(String::from("[--]")),
        vec![open(3), change(-1), change(-1), close(0)]
    );
}

#[test]
fn tokenizer_passes_over_other_characters() {
    assert_eq!(
        tokenize_instructions(String::from("a+b C\n-")),
        vec![change(1), change(-1)]
    );
    assert_eq!(tokenize_instructions(String::new()), Vec::<Opcode>::new());
}

#[test]
fn folder_sums_runs_and_drops_zero_sums() {
    assert_eq!(
        compress_foldable_opcodes(vec![change(1), change(1), change(1), mv(1), mv(1), mv(-3)]),
        vec![change(3), mv(-1)]
    );
    assert_eq!(compress_foldable_opcodes(vec![change(1), change(-1)]), Vec::<Opcode>::new());
    assert_eq!(
        compress_foldable_opcodes(vec![put(1), put(1), read(1), read(1), read(1)]),
        vec![put(2), read(3)]
    );
}

#[test]
fn folder_looks_back_at_what_it_emitted() {
    // Once the moves have cancelled, the second change meets the first.
    assert_eq!(
        compress_foldable_opcodes(vec![change(1), mv(1), mv(-1), change(1)]),
        vec![change(2)]
    );
}

#[test]
fn folder_leaves_other_opcodes_alone() {
    let code = vec![set(1), set(2), open(2), close(1), multi(1, 1), multi(1, 1)];
    assert_eq!(compress_foldable_opcodes(code.clone()), code);
    assert_eq!(compress_foldable_opcodes(Vec::new()), Vec::<Opcode>::new());
    assert_eq!(compress_foldable_opcodes(vec![change(0)]), vec![change(0)]);
}

#[test]
fn folding_twice_is_folding_once() {
    let inputs = vec![
        vec![change(1), mv(1), mv(-1), change(1)],
        vec![change(1), change(2), mv(3), put(1), put(1), open(0), read(1), read(2), close(0)],
        vec![mv(0), mv(0), change(5), change(-5), change(0)],
        vec![],
    ];
    for input in inputs {
        let once = compress_foldable_opcodes(input);
        let twice = compress_foldable_opcodes(once.clone());
        assert_eq!(once, twice);
    }
}

#[test]
fn dead_store_pass_keeps_the_later_write() {
    assert_eq!(remove_pointless_code_alteration(vec![change(3), set(0)]), vec![set(0)]);
    assert_eq!(remove_pointless_code_alteration(vec![set(3), set(7)]), vec![set(7)]);
    assert_eq!(
        remove_pointless_code_alteration(vec![mv(1), set(7), put(1)]),
        vec![mv(1), set(7), put(1)]
    );
}

#[test]
fn dead_store_pass_adds_a_change_into_a_store() {
    assert_eq!(remove_pointless_code_alteration(vec![set(3), change(4)]), vec![set(7)]);
    assert_eq!(
        remove_pointless_code_alteration(vec![set(3), change(4), change(-9), set(1), change(1)]),
        vec![set(2)]
    );
    assert_eq!(
        remove_pointless_code_alteration(vec![change(1), change(2)]),
        vec![change(1), change(2)]
    );
    assert_eq!(remove_pointless_code_alteration(Vec::new()), Vec::<Opcode>::new());
}

#[test]
fn scan_pass_rewrites_the_exact_window_only() {
    assert_eq!(gen_scanning_ops(vec![open(2), mv(3), close(0)]), vec![Opcode::ScanBy { step: 3 }]);
    assert_eq!(
        gen_scanning_ops(vec![change(1), open(3), mv(-1), close(1), put(1)]),
        vec![change(1), Opcode::ScanBy { step: -1 }, put(1)]
    );
    let other = vec![open(3), mv(1), change(1), close(0)];
    assert_eq!(gen_scanning_ops(other.clone()), other);
    let no_open = vec![put(1), mv(1), close(0)];
    assert_eq!(gen_scanning_ops(no_open.clone()), no_open);
    assert_eq!(gen_scanning_ops(vec![close(0)]), vec![close(0)]);
    assert_eq!(gen_scanning_ops(vec![mv(1), close(0)]), vec![mv(1), close(0)]);
    assert_eq!(gen_scanning_ops(Vec::new()), Vec::<Opcode>::new());
}

#[test]
fn innermost_loops_are_found_in_order() {
    let code = tokenize_instructions(String::from("[>[+.]<[.]]+[,]"));
    assert_eq!(find_lowest_level_loops(&code), vec![(2, 5), (7, 9), (12, 14)]);
    assert_eq!(find_lowest_level_loops(&vec![change(1)]), Vec::<(usize, usize)>::new());
    assert_eq!(find_lowest_level_loops(&vec![open(1), close(0)]), vec![(0, 1)]);
}

#[test]
fn simple_loop_moves_and_changes_and_comes_back() {
    let code = vec![open(5), change(-1), mv(2), change(1), mv(-2), close(0)];
    assert!(is_simple_loop(&code, 0, 5));
    let drifting = vec![open(4), change(-1), mv(2), change(1), close(0)];
    assert!(!is_simple_loop(&drifting, 0, 4));
    let printing = vec![open(3), change(-1), put(1), close(0)];
    assert!(!is_simple_loop(&printing, 0, 3));
    assert!(is_simple_loop(&vec![open(1), close(0)], 0, 1));
}

#[test]
fn one_target_loop_is_reduced() {
    let first = vec![open(5), change(-1), mv(2), change(3), mv(-2), close(0)];
    assert_eq!(find_transform_if_multi_loop(&first, 0, 5), Some(vec![multi(2, 3), set(0)]));
    let last = vec![open(5), mv(-1), change(7), mv(1), change(-1), close(0)];
    assert_eq!(find_transform_if_multi_loop(&last, 0, 5), Some(vec![multi(-1, 7), set(0)]));
}

#[test]
fn two_and_three_target_loops_are_reduced() {
    let two = vec![open(7), change(-1), mv(1), change(2), mv(2), change(-3), mv(-3), close(0)];
    assert_eq!(
        find_transform_if_multi_loop(&two, 0, 7),
        Some(vec![multi(1, 2), multi(3, -3), set(0)])
    );
    let three = vec![
        open(9), mv(1), change(1), mv(1), change(2), mv(1), change(3), mv(-3), change(-1), close(0),
    ];
    assert_eq!(
        find_transform_if_multi_loop(&three, 0, 9),
        Some(vec![multi(1, 1), multi(2, 2), multi(3, 3), set(0)])
    );
}

#[test]
fn counter_that_counts_up_negates_the_factors() {
    let code = vec![open(5), change(1), mv(1), change(3), mv(-1), close(0)];
    assert_eq!(find_transform_if_multi_loop(&code, 0, 5), Some(vec![multi(1, -3), set(0)]));
}

#[test]
fn clear_body_is_reduced_to_a_store() {
    assert_eq!(
        find_transform_if_multi_loop(&vec![open(2), change(-1), close(0)], 0, 2),
        Some(vec![set(0)])
    );
    assert_eq!(
        find_transform_if_multi_loop(&vec![open(2), change(1), close(0)], 0, 2),
        Some(vec![set(0)])
    );
    assert_eq!(find_transform_if_multi_loop(&vec![open(2), change(2), close(0)], 0, 2), None);
}

#[test]
fn bodies_outside_the_catalogue_are_left() {
    // The counter steps by two.
    let by_two = vec![open(5), change(-2), mv(1), change(1), mv(-1), close(0)];
    assert_eq!(find_transform_if_multi_loop(&by_two, 0, 5), None);
    // The pointer does not come back.
    let drifting = vec![open(5), change(-1), mv(1), change(1), mv(1), close(0)];
    assert_eq!(find_transform_if_multi_loop(&drifting, 0, 5), None);
    // A target is the counter itself.
    let on_counter = vec![
        open(9), change(-1), mv(1), change(1), mv(-1), change(-1), mv(2), change(1), mv(-2), close(0),
    ];
    assert_eq!(find_transform_if_multi_loop(&on_counter, 0, 9), None);
    // Four targets.
    let four = vec![
        open(11), change(-1), mv(1), change(1), mv(1), change(1), mv(1), change(1), mv(1), change(1),
        mv(-4), close(0),
    ];
    assert_eq!(find_transform_if_multi_loop(&four, 0, 11), None);
    // It prints.
    let printing = vec![open(5), change(-1), mv(1), put(1), mv(-1), close(0)];
    assert_eq!(find_transform_if_multi_loop(&printing, 0, 5), None);
    // An empty body.
    assert_eq!(find_transform_if_multi_loop(&vec![open(1), close(0)], 0, 1), None);
}

#[test]
fn splicer_replaces_ranges_and_copies_the_rest() {
    let code = vec![change(1), change(2), change(3), change(4), change(5)];
    assert_eq!(
        replace_segments(code.clone(), vec![(0, 1)], vec![vec![put(1), put(2)]]),
        vec![put(1), put(2), change(3), change(4), change(5)]
    );
    assert_eq!(
        replace_segments(code.clone(), vec![(1, 1), (3, 4)], vec![vec![], vec![put(1), put(2), put(3)]]),
        vec![change(1), change(3), put(1), put(2), put(3)]
    );
    assert_eq!(replace_segments(code.clone(), vec![], vec![]), code);
    assert_eq!(
        replace_segments(code.clone(), vec![(2, 2)], vec![vec![]]),
        vec![change(1), change(2), change(4), change(5)]
    );
    assert_eq!(
        replace_segments(code, vec![(0, 4)], vec![vec![set(0)]]),
        vec![set(0)]
    );
}

#[test]
fn splicer_takes_its_ranges_in_any_order() {
    let code = vec![change(1), change(2), change(3), change(4), change(5)];
    assert_eq!(
        replace_segments(code.clone(), vec![(3, 4), (0, 1)], vec![vec![set(9)], vec![set(8)]]),
        vec![set(8), change(3), set(9)]
    );
    assert_eq!(
        replace_segments(
            code.clone(),
            vec![(4, 4), (0, 0), (2, 2)],
            vec![vec![put(4)], vec![put(0), put(0)], vec![]],
        ),
        vec![put(0), put(0), change(2), change(4), put(4)]
    );
    assert_eq!(
        replace_segments(
            code,
            vec![(2, 3), (4, 4), (0, 1)],
            vec![vec![set(2)], vec![set(3)], vec![set(1)]],
        ),
        vec![set(1), set(2), set(3)]
    );
}

#[test]
fn bracket_resolution_ignores_old_targets() {
    assert_eq!(
        reset_bracket(vec![open(9), open(9), change(1), close(9), put(1), close(9)]),
        vec![open(5), open(3), change(1), close(1), put(1), close(0)]
    );
    assert_eq!(reset_bracket(Vec::new()), Vec::<Opcode>::new());
}

#[test]
fn loop_transformer_reduces_innermost_loops_and_resolves_the_rest() {
    let code = tokenize_instructions(String::from("[>[->+<]<.]"));
    let folded = compress_foldable_opcodes(code);
    assert_eq!(
        loop_transformations(folded),
        vec![open(6), mv(1), multi(1, 1), set(0), mv(-1), put(1), close(0)]
    );
    let untouched = tokenize_instructions(String::from("[.]"));
    assert_eq!(loop_transformations(untouched.clone()), untouched);
}

#[test]
fn compiler_runs_two_rounds() {
    // The first round reduces the inner loop; only then is the outer loop
    // innermost, and the second round does not find it in the catalogue.
    assert_eq!(
        compile_code(String::from("[[>]]")),
        vec![open(2), Opcode::ScanBy { step: 1 }, close(0)]
    );
    // The store that the first round leaves takes in the change after it in
    // the second round.
    assert_eq!(compile_code(String::from("[->+<]++")), vec![multi(1, 1), set(2)]);
}

#[test]
fn compiler_reports_the_size_after_each_stage() {
    let (code, sizes) = compile_with_sizes(String::from("+++[-]>[>]<[->+<]"));
    assert_eq!(sizes.tokens, 15);
    assert_eq!(sizes.folded, 13);
    assert_eq!(sizes.stores_removed, 12);
    assert_eq!(sizes.scans_found, 10);
    assert_eq!(sizes.loops_reduced, 6);
    assert_eq!(sizes.second_round, code.len());
    assert_eq!(
        code,
        vec![set(0), mv(1), Opcode::ScanBy { step: 1 }, mv(-1), multi(1, 1), set(0)]
    );
}

#[test]
fn compiled_programs_are_well_paired() {
    let programs = [
        "",
        "+",
        "[]",
        "[[[]]]",
        "+[>+[>+[-]<]<.]",
        "++++++++[>++++[>++>+++>+++>+<<<<-]>+>+>->>+[<]<-]>>.",
        "[.[.[.].].][,]",
    ];
    for source in programs {
        let code = compile_code(String::from(source));
        assert!(well_paired(&code), "{}", source);
        assert!(check_jump_targets(&code), "{}", source);
    }
}

#[test]
fn jump_targets_are_checked_against_the_pairing_invariant() {
    assert!(check_jump_targets(&Vec::new()));
    assert!(check_jump_targets(&vec![change(1), put(1)]));
    assert!(check_jump_targets(&vec![open(1), close(0)]));
    assert!(check_jump_targets(&vec![open(3), open(2), close(1), close(0), open(5), close(4)]));
    // A target that is not the partner.
    assert!(!check_jump_targets(&vec![open(1), close(1)]));
    assert!(!check_jump_targets(&vec![open(0), close(0)]));
    assert!(!check_jump_targets(&vec![open(2), open(3), close(0), close(1)]));
    assert!(!check_jump_targets(&vec![open(1), close(0), open(1), close(0)]));
    // A target outside the program.
    assert!(!check_jump_targets(&vec![open(7), close(0)]));
    // Brackets that are not balanced.
    assert!(!check_jump_targets(&vec![open(0)]));
    assert!(!check_jump_targets(&vec![close(0)]));
    assert!(!check_jump_targets(&vec![close(1), open(0)]));
}

#[test]
fn opcode_brackets_are_balanced_when_each_close_has_its_open() {
    assert!(brackets_are_balanced(&Vec::new()));
    assert!(brackets_are_balanced(&vec![open(9), change(1), close(9)]));
    assert!(brackets_are_balanced(&vec![open(0), open(0), close(0), close(0)]));
    assert!(!brackets_are_balanced(&vec![open(0), open(0), close(0)]));
    assert!(!brackets_are_balanced(&vec![close(0), open(0)]));
}
