use bf::compiler::{compile_checked, compile_code, CompileError};
use bf::opcodes::Opcode;

#[test]
fn clear_loop_after_changes_compiles_to_one_store() {
    let code = compile_code(String::from("+++[-]"));
    assert_eq!(code, vec![Opcode::SetTo { value: 0 }]);
}

#[test]
fn multiply_loop_becomes_multi_and_clear() {
    let code = compile_code(String::from("++++[->+<]"));
    assert_eq!(
        code,
        vec![
            Opcode::Change { delta: 4 },
            Opcode::Multi { offset: 1, factor: 1 },
            Opcode::SetTo { value: 0 },
        ]
    );
}

#[test]
fn unbalanced_programs_are_turned_down() {
    assert_eq!(compile_checked(String::from("+[")), Err(CompileError::UnbalancedBrackets));
    assert_eq!(compile_checked(String::from("]")), Err(CompileError::UnbalancedBrackets));
    assert_eq!(compile_checked(String::from("[]][")), Err(CompileError::UnbalancedBrackets));
}

#[test]
fn balanced_programs_are_compiled() {
    let (code, sizes) = compile_checked(String::from("+[-]")).unwrap();
    assert_eq!(code, vec![Opcode::SetTo { value: 0 }]);
    assert_eq!(sizes.tokens, 2);
    assert_eq!(sizes.second_round, 1);
    let (nothing, sizes) = compile_checked(String::from("no code")).unwrap();
    assert!(nothing.is_empty());
    assert_eq!(sizes.tokens, 0);
}
