use bf::c_backend::{get_c_file_prefix, make_c_file, make_opcode_string};
use bf::opcodes::Opcode;
use bf::repl::{
    action_for, contains_word, find_action, next_step, without_whitespace, Action,
    InterpreterMode, ReplStep,
};
use bf::opcodes::compile_code;
use bf::source_utils::{check_program_brackets, remove_no_coding_symbols};
use bf::state::ProgramState;

#[test]
fn sanitizing_keeps_the_eight_instructions() {
    assert_eq!(remove_no_coding_symbols(String::from("a+b-c<d>e,f.g[h]i")), "+-<>,.[]");
    assert_eq!(remove_no_coding_symbols(String::from("hello\n")), "");
    assert_eq!(remove_no_coding_symbols(String::new()), "");
}

#[test]
fn bracket_check_accepts_balanced_programs() {
    assert!(check_program_brackets(""));
    assert!(check_program_brackets("+-"));
    assert!(check_program_brackets("[]"));
    assert!(check_program_brackets("[[][]]"));
    assert!(check_program_brackets("a[b]c"));
}

#[test]
fn bracket_check_rejects_unbalanced_programs() {
    assert!(!check_program_brackets("[]]["));
    assert!(!check_program_brackets("[[]"));
    assert!(!check_program_brackets("[[][]["));
    assert!(!check_program_brackets("]"));
    assert!(!check_program_brackets("["));
}

#[test]
fn fresh_state_is_all_zero() {
    let state = ProgramState::new();
    assert_eq!(state.ip, 0);
    assert_eq!(state.dp, 0);
    assert_eq!(state.memory.len(), 30000);
    assert!(state.memory.iter().all(|cell| *cell == 0));
    let by_default = ProgramState::default();
    assert_eq!(by_default.ip, 0);
    assert_eq!(by_default.dp, 0);
    assert!(by_default.memory.iter().all(|cell| *cell == 0));
}

#[test]
fn data_pointer_is_valid_inside_the_arena() {
    let state = ProgramState::new();
    assert!(state.is_valid_dp_location(0));
    assert!(state.is_valid_dp_location(29999));
    assert!(!state.is_valid_dp_location(30000));
    assert!(!state.is_valid_dp_location(usize::MAX));
}

#[test]
fn statements_carry_their_arguments() {
    assert_eq!(make_opcode_string(Opcode::Change { delta: 12 }), "change(m, p, 12);\n");
    assert_eq!(make_opcode_string(Opcode::Change { delta: -7 }), "change(m, p, -7);\n");
    assert_eq!(make_opcode_string(Opcode::Change { delta: 0 }), "change(m, p, 0);\n");
    assert_eq!(
        make_opcode_string(Opcode::Move { delta: i32::MIN }),
        "p = move(p, -2147483648);\n"
    );
    assert_eq!(
        make_opcode_string(Opcode::SetTo { value: i32::MAX }),
        "set_to(m, p, 2147483647);\n"
    );
    assert_eq!(make_opcode_string(Opcode::ScanBy { step: -100 }), "p = scan_by(m, p, -100);\n");
    assert_eq!(
        make_opcode_string(Opcode::Multi { offset: -3, factor: 10 }),
        "multi(m, p, -3, 10);\n"
    );
}

#[test]
fn input_and_output_statements_are_repeated() {
    assert_eq!(
        make_opcode_string(Opcode::PutChar { count: 2 }),
        "display_char(m, p);\ndisplay_char(m, p);\n"
    );
    assert_eq!(make_opcode_string(Opcode::PutChar { count: 0 }), "");
    assert_eq!(
        make_opcode_string(Opcode::ReadChar { count: 3 }),
        "m[p] = read_char();\nm[p] = read_char();\nm[p] = read_char();\n"
    );
}

#[test]
fn brackets_become_a_while_loop() {
    assert_eq!(make_opcode_string(Opcode::JumpIfZero { target: 5 }), "while (m[p] != 0){\n");
    assert_eq!(make_opcode_string(Opcode::JumpIfNonZero { target: 0 }), "}\n");
}

#[test]
fn magic_words_count_in_any_case() {
    assert_eq!(find_action("exit"), Some(Action::Exit));
    assert_eq!(find_action("EXIT"), Some(Action::Exit));
    assert_eq!(find_action("pleaseExitNow"), Some(Action::Exit));
    assert_eq!(find_action("Debug"), Some(Action::UseDebugInterpreter));
    assert_eq!(find_action("FAST"), Some(Action::UseFastInterpreter));
    assert_eq!(find_action("+++"), None);
    assert_eq!(find_action(""), None);
    assert_eq!(find_action("exi"), None);
}

#[test]
fn exit_comes_before_debug_and_debug_before_fast() {
    assert_eq!(find_action("fastdebugexit"), Some(Action::Exit));
    assert_eq!(find_action("fastdebug"), Some(Action::UseDebugInterpreter));
}

#[test]
fn action_for_reads_lowercase_only() {
    assert_eq!(action_for("exit"), Some(Action::Exit));
    assert_eq!(action_for("EXIT"), None);
    assert_eq!(action_for("xfastx"), Some(Action::UseFastInterpreter));
}

#[test]
fn words_are_found_anywhere() {
    let text: Vec<char> = "abcab".chars().collect();
    assert!(contains_word(&text, &"cab".chars().collect()));
    assert!(contains_word(&text, &"abc".chars().collect()));
    assert!(contains_word(&text, &Vec::new()));
    assert!(!contains_word(&text, &"abd".chars().collect()));
    assert!(!contains_word(&text, &"abcabc".chars().collect()));
    assert!(contains_word(&Vec::new(), &Vec::new()));
}

#[test]
fn whitespace_is_removed_from_a_line() {
    assert_eq!(without_whitespace(" e x\ti t \n"), "exit");
    assert_eq!(without_whitespace("+ +\u{a0}+"), "+++");
    assert_eq!(without_whitespace(""), "");
}

#[test]
fn shell_decides_what_a_line_asks_for() {
    let debug = InterpreterMode::UseDebugInterpreter;
    let fast = InterpreterMode::UseFastInterpreter;
    assert_eq!(next_step(debug, "exit"), ReplStep::Exit);
    assert_eq!(next_step(debug, "FAST"), ReplStep::SwitchTo(fast));
    assert_eq!(next_step(fast, "debug"), ReplStep::SwitchTo(debug));
    assert_eq!(next_step(debug, "hello"), ReplStep::NoCode);
    assert_eq!(next_step(debug, ""), ReplStep::NoCode);
    assert_eq!(next_step(debug, "+["), ReplStep::BadBrackets);
    assert_eq!(
        next_step(fast, "a+[-]b\n"),
        ReplStep::Run { code: String::from("+[-]"), mode: fast }
    );
}

#[test]
fn shell_reads_magic_words_across_whitespace() {
    let debug = InterpreterMode::UseDebugInterpreter;
    assert_eq!(next_step(debug, "e x i t\n"), ReplStep::Exit);
    assert_eq!(
        next_step(debug, "+ + .\n"),
        ReplStep::Run { code: String::from("++."), mode: debug }
    );
}

#[test]
fn c_file_prefix_declares_the_helpers_and_opens_main() {
    let prefix = get_c_file_prefix();
    assert!(prefix.starts_with("#include <stdio.h>\n#include <stdint.h>\n#include <stdlib.h>\n"));
    assert!(prefix.contains("#define MEMSIZE 30000\n"));
    assert!(prefix.contains("void multi(int32_t* m, uint32_t p, int32_t x, int32_t y) {"));
    assert!(prefix.ends_with("int main() {\n\n\tuint32_t p = 0;\n\tint32_t m[MEMSIZE] = { 0 };\n\t"));
    assert_eq!(bf::source_utils::get_c_file_prefix(), prefix);
}

#[test]
fn c_file_holds_one_statement_for_each_opcode() {
    let code = compile_code(String::from("++[->+<]>."));
    let file = make_c_file(&code);
    let mut expected = get_c_file_prefix();
    expected.push_str("change(m, p, 2);\n");
    expected.push_str("multi(m, p, 1, 1);\n");
    expected.push_str("set_to(m, p, 0);\n");
    expected.push_str("p = move(p, 1);\n");
    expected.push_str("display_char(m, p);\n");
    expected.push_str("return 0;\n}\n");
    assert_eq!(file, expected);
    let empty = make_c_file(&Vec::<Opcode>::new());
    assert_eq!(empty, format!("{}return 0;\n}}\n", get_c_file_prefix()));
}
