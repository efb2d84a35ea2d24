use bf::bf_executor::BFExecuter;
use bf::opcode_interpreter::BFOpcodeInterpreter;
use bf::opcodes::compile_code;
use bf::semantics::Status;
use bf::simple_interpreter::BFSimpleInterpreter;

fn run_simple(source: &str, input: &[u8]) -> BFSimpleInterpreter {
    let mut interpreter = BFSimpleInterpreter::with_input(String::from(source), input.to_vec());
    interpreter.execute(1_000_000);
    interpreter
}

#[test]
fn simple_interpreter_counts_every_character() {
    let mut interpreter = run_simple("+ +x", &[]);
    assert_eq!(interpreter.status(), Status::Halted);
    assert_eq!(interpreter.machine_state().memory[0], 2);
    assert_eq!(interpreter.instruction_count(), 4);
}

#[test]
fn simple_interpreter_finds_partners_by_counting() {
    let mut skipped = run_simple("[[+]+]+", &[]);
    assert_eq!(skipped.status(), Status::Halted);
    assert_eq!(skipped.machine_state().memory[0], 1);
    assert_eq!(skipped.instruction_count(), 2);
    let looped = run_simple("++[>+[>+<-]<-]>>.", &[]);
    assert_eq!(looped.status(), Status::Halted);
    assert_eq!(looped.output(), &vec![2]);
}

#[test]
fn simple_interpreter_faults_at_the_edges_of_the_arena() {
    let left = run_simple("<+", &[]);
    assert_eq!(left.status(), Status::Faulted);
    assert_eq!(left.machine_state().dp, 0);
    assert_eq!(left.machine_state().memory[0], 0);
    let mut source = ">".repeat(29999);
    source.push_str("+>");
    let right = run_simple(&source, &[]);
    assert_eq!(right.status(), Status::Faulted);
    assert_eq!(right.machine_state().dp, 29999);
    assert_eq!(right.machine_state().memory[29999], 1);
}

#[test]
fn simple_interpreter_faults_on_a_bracket_without_partner() {
    assert_eq!(run_simple("[+", &[]).status(), Status::Faulted);
    assert_eq!(run_simple("+]", &[]).status(), Status::Faulted);
    // A bracket that is not taken needs no partner.
    assert_eq!(run_simple("+[", &[]).status(), Status::Halted);
    assert_eq!(run_simple("]", &[]).status(), Status::Halted);
}

#[test]
fn simple_interpreter_wraps_cells() {
    let down = run_simple("-", &[]);
    assert_eq!(down.machine_state().memory[0], 255);
    let up = run_simple("-+", &[]);
    assert_eq!(up.machine_state().memory[0], 0);
}

#[test]
fn simple_interpreter_reads_and_writes() {
    let echo = run_simple(",[.,]", &[72, 105, 0]);
    assert_eq!(echo.status(), Status::Halted);
    assert_eq!(echo.output(), &vec![72, 105]);
    let starved = run_simple(",", &[]);
    assert_eq!(starved.status(), Status::Faulted);
}

#[test]
fn simple_interpreter_waits_for_open_input() {
    let mut interpreter = BFSimpleInterpreter::new(String::from(",."));
    interpreter.execute(10);
    assert!(interpreter.needs_input());
    assert_eq!(interpreter.status(), Status::Running);
    interpreter.feed(&vec![9]);
    interpreter.execute(10);
    assert_eq!(interpreter.status(), Status::Halted);
    assert_eq!(interpreter.take_output(), vec![9]);
}

#[test]
fn simple_interpreter_halts_at_once_on_an_empty_program() {
    let mut interpreter = BFSimpleInterpreter::new(String::new());
    interpreter.execute(10);
    assert_eq!(interpreter.status(), Status::Halted);
    assert_eq!(interpreter.instruction_count(), 0);
    assert!(interpreter.machine_state().memory.iter().all(|cell| *cell == 0));
}

#[test]
fn simple_interpreter_resets_its_machine() {
    let mut interpreter = run_simple("+>+", &[]);
    interpreter.reset_machine_state();
    assert_eq!(interpreter.status(), Status::Running);
    assert_eq!(interpreter.machine_state().dp, 0);
    assert_eq!(interpreter.machine_state().ip, 0);
    assert_eq!(interpreter.machine_state().memory[1], 0);
    assert_eq!(interpreter.instruction_count(), 3);
}

#[test]
fn both_interpreters_agree() {
    let programs = [
        "++++++++[>++++[>++>+++>+++>+<<<<-]>+>+>->>+[<]<-]>>.>---.+++++++..+++.>>.<-.<.+++.------.--------.>>+.>++.",
        ",[.,]",
        ",>,<[->+<]>.",
        "+++[>+++[>+<-]<-]>>.",
        ",[->+>++>+++<<<]>.>.>.",
    ];
    let inputs: [&[u8]; 2] = [&[3, 4, 0], &[255, 1, 0]];
    for source in programs {
        for input in inputs {
            let simple = run_simple(source, input);
            let mut compiled =
                BFOpcodeInterpreter::with_input(compile_code(String::from(source)), input.to_vec());
            compiled.execute(1_000_000);
            assert_eq!(simple.status(), Status::Halted, "{}", source);
            assert_eq!(compiled.status(), Status::Halted, "{}", source);
            assert_eq!(simple.output(), compiled.output(), "{}", source);
            assert_eq!(
                simple.machine_state().memory[..],
                compiled.machine.memory[..],
                "{}",
                source
            );
        }
    }
}
