use bf::bf_executor::BFExecuter;
use bf::opcode_interpreter::BFOpcodeInterpreter;
use bf::opcodes::{compile_code, tokenize_instructions, Opcode};
use bf::semantics::Status;

fn run_compiled(source: &str, input: &[u8]) -> BFOpcodeInterpreter {
    let code = compile_code(String::from(source));
    let mut interpreter = BFOpcodeInterpreter::with_input(code, input.to_vec());
    interpreter.execute(1_000_000);
    interpreter
}

fn run_tokens(source: &str, input: &[u8]) -> BFOpcodeInterpreter {
    let code = tokenize_instructions(String::from(source));
    let mut interpreter = BFOpcodeInterpreter::with_input(code, input.to_vec());
    interpreter.execute(1_000_000);
    interpreter
}

#[test]
fn clear_loop_leaves_the_cell_at_zero() {
    let machine = run_compiled("+++[-]", &[]);
    assert_eq!(machine.status(), Status::Halted);
    assert_eq!(machine.machine.memory[0], 0);
    let mut by_hand = BFOpcodeInterpreter::with_input(
        vec![Opcode::SetTo { value: 3 }, Opcode::SetTo { value: 0 }],
        Vec::new(),
    );
    by_hand.execute(10);
    assert_eq!(by_hand.status(), Status::Halted);
    assert_eq!(by_hand.machine.memory[..], machine.machine.memory[..]);
    assert_eq!(by_hand.machine.dp, machine.machine.dp);
}

#[test]
fn multiply_loop_moves_the_counter_into_the_next_cell() {
    let compiled = run_compiled("++++[->+<]", &[]);
    assert_eq!(compiled.status(), Status::Halted);
    assert_eq!(compiled.machine.memory[0], 0);
    assert_eq!(compiled.machine.memory[1], 4);
    let plain = run_tokens("++++[->+<]", &[]);
    assert_eq!(plain.status(), Status::Halted);
    assert_eq!(plain.machine.memory[..], compiled.machine.memory[..]);
    assert_eq!(plain.machine.dp, compiled.machine.dp);
}

#[test]
fn scan_stops_on_the_first_zero_cell() {
    // Cells 0 to 2 hold 1, cell 3 holds 5, cell 4 holds 0.
    let mut interpreter = BFOpcodeInterpreter::with_input(
        vec![
            Opcode::SetTo { value: 1 },
            Opcode::Move { delta: 1 },
            Opcode::SetTo { value: 1 },
            Opcode::Move { delta: 1 },
            Opcode::SetTo { value: 1 },
            Opcode::Move { delta: 1 },
            Opcode::SetTo { value: 5 },
            Opcode::Move { delta: -3 },
            Opcode::ScanBy { step: 1 },
        ],
        Vec::new(),
    );
    interpreter.execute(100);
    assert_eq!(interpreter.status(), Status::Halted);
    assert_eq!(interpreter.machine.dp, 4);
    assert_eq!(interpreter.instruction_count(), 9);
}

#[test]
fn scan_over_zero_cells_rests_where_it_starts() {
    // Memory 0, 0, 0, 5, 0: a scan from each cell left of the 5 stays put,
    // and a scan from the 5 rests on the cell behind it.
    let mut interpreter = BFOpcodeInterpreter::with_input(
        vec![
            Opcode::Move { delta: 3 },
            Opcode::SetTo { value: 5 },
            Opcode::Move { delta: -3 },
            Opcode::ScanBy { step: 1 },
        ],
        Vec::new(),
    );
    interpreter.execute(100);
    assert_eq!(interpreter.status(), Status::Halted);
    assert_eq!(interpreter.machine.dp, 0);
    assert_eq!(interpreter.machine.memory[3], 5);

    let mut from_the_five = BFOpcodeInterpreter::with_input(
        vec![
            Opcode::Move { delta: 3 },
            Opcode::SetTo { value: 5 },
            Opcode::ScanBy { step: 1 },
        ],
        Vec::new(),
    );
    from_the_five.execute(100);
    assert_eq!(from_the_five.machine.dp, 4);
}

#[test]
fn scan_loop_compiles_to_one_scan() {
    assert_eq!(compile_code(String::from("+[>]")),
        vec![Opcode::Change { delta: 1 }, Opcode::ScanBy { step: 1 }]);
    assert_eq!(compile_code(String::from("+[<<]")),
        vec![Opcode::Change { delta: 1 }, Opcode::ScanBy { step: -2 }]);
}

#[test]
fn moving_left_of_the_arena_faults() {
    let mut interpreter =
        BFOpcodeInterpreter::with_input(vec![Opcode::Move { delta: -1 }, Opcode::Change { delta: 1 }], Vec::new());
    interpreter.execute(10);
    assert_eq!(interpreter.status(), Status::Faulted);
    assert_eq!(interpreter.machine.dp, 0);
    assert_eq!(interpreter.machine.ip, 0);
    assert_eq!(interpreter.machine.memory[0], 0);
    assert_eq!(interpreter.instruction_count(), 0);
    // A fault is final.
    interpreter.execute(10);
    assert_eq!(interpreter.status(), Status::Faulted);
    assert_eq!(interpreter.instruction_count(), 0);
}

#[test]
fn moving_right_of_the_arena_faults() {
    let mut interpreter =
        BFOpcodeInterpreter::with_input(vec![Opcode::Move { delta: 29999 }, Opcode::Move { delta: 1 }], Vec::new());
    interpreter.execute(10);
    assert_eq!(interpreter.status(), Status::Faulted);
    assert_eq!(interpreter.machine.dp, 29999);
    assert_eq!(interpreter.instruction_count(), 1);
}

#[test]
fn empty_program_halts_at_once() {
    let mut interpreter = BFOpcodeInterpreter::new(compile_code(String::new()));
    interpreter.execute(10);
    assert_eq!(interpreter.status(), Status::Halted);
    assert_eq!(interpreter.instruction_count(), 0);
    assert!(interpreter.machine.memory.iter().all(|cell| *cell == 0));
    assert!(interpreter.output().is_empty());
}

#[test]
fn cells_wrap_modulo_256() {
    let mut interpreter = BFOpcodeInterpreter::with_input(
        vec![Opcode::Change { delta: -1 }, Opcode::Move { delta: 1 }, Opcode::Change { delta: 513 },
             Opcode::Move { delta: 1 }, Opcode::SetTo { value: -2 }],
        Vec::new(),
    );
    interpreter.execute(10);
    assert_eq!(interpreter.machine.memory[0], 255);
    assert_eq!(interpreter.machine.memory[1], 1);
    assert_eq!(interpreter.machine.memory[2], 254);
}

#[test]
fn multi_clamps_its_target_to_the_first_cell() {
    let mut interpreter = BFOpcodeInterpreter::with_input(
        vec![
            Opcode::SetTo { value: 3 },
            Opcode::Move { delta: 1 },
            Opcode::SetTo { value: 5 },
            Opcode::Multi { offset: -7, factor: 2 },
        ],
        Vec::new(),
    );
    interpreter.execute(10);
    assert_eq!(interpreter.status(), Status::Halted);
    assert_eq!(interpreter.machine.memory[0], 13);
    assert_eq!(interpreter.machine.memory[1], 5);
}

#[test]
fn multi_beyond_the_arena_faults() {
    let mut interpreter = BFOpcodeInterpreter::with_input(
        vec![Opcode::Move { delta: 29999 }, Opcode::Multi { offset: 1, factor: 1 }],
        Vec::new(),
    );
    interpreter.execute(10);
    assert_eq!(interpreter.status(), Status::Faulted);
}

#[test]
fn multi_wraps_and_takes_negative_factors() {
    let mut interpreter = BFOpcodeInterpreter::with_input(
        vec![
            Opcode::SetTo { value: 100 },
            Opcode::Multi { offset: 1, factor: 3 },
            Opcode::Multi { offset: 2, factor: -1 },
        ],
        Vec::new(),
    );
    interpreter.execute(10);
    assert_eq!(interpreter.machine.memory[1], 44);
    assert_eq!(interpreter.machine.memory[2], 156);
}

#[test]
fn repeated_reads_keep_the_last_byte() {
    let mut interpreter = BFOpcodeInterpreter::with_input(
        vec![Opcode::ReadChar { count: 3 }, Opcode::PutChar { count: 2 }, Opcode::ReadChar { count: 1 }],
        vec![7, 8, 9, 10],
    );
    interpreter.execute(10);
    assert_eq!(interpreter.status(), Status::Halted);
    assert_eq!(interpreter.output(), &vec![9, 9]);
    assert_eq!(interpreter.machine.memory[0], 10);
    assert_eq!(interpreter.instruction_count(), 3);
}

#[test]
fn reading_past_the_end_of_closed_input_faults() {
    let mut interpreter =
        BFOpcodeInterpreter::with_input(vec![Opcode::ReadChar { count: 2 }], vec![65]);
    interpreter.execute(10);
    assert_eq!(interpreter.status(), Status::Faulted);
    // A fault changes nothing but the status: the one byte is still unread.
    assert_eq!(interpreter.machine.memory[0], 0);
    assert_eq!(interpreter.instruction_count(), 0);
    interpreter.read_char();
    assert_eq!(interpreter.machine.memory[0], 65);
}

#[test]
fn open_input_makes_the_run_wait() {
    let mut interpreter = BFOpcodeInterpreter::new(vec![
        Opcode::ReadChar { count: 1 },
        Opcode::PutChar { count: 1 },
    ]);
    interpreter.execute(10);
    assert_eq!(interpreter.status(), Status::Running);
    assert!(interpreter.needs_input());
    assert_eq!(interpreter.instruction_count(), 0);
    interpreter.feed(&vec![33]);
    assert!(!interpreter.needs_input());
    interpreter.execute(10);
    assert_eq!(interpreter.status(), Status::Halted);
    assert_eq!(interpreter.take_output(), vec![33]);
    assert!(interpreter.output().is_empty());
}

#[test]
fn closing_the_input_turns_waiting_into_a_fault() {
    let mut interpreter = BFOpcodeInterpreter::new(vec![Opcode::ReadChar { count: 1 }]);
    interpreter.execute(10);
    assert!(interpreter.needs_input());
    interpreter.close_input();
    interpreter.feed(&vec![1]);
    interpreter.execute(10);
    assert_eq!(interpreter.status(), Status::Faulted);
}

#[test]
fn failed_io_faults_a_running_machine_only() {
    let mut running = BFOpcodeInterpreter::new(vec![Opcode::Change { delta: 1 }]);
    running.fail_io();
    assert_eq!(running.status(), Status::Faulted);
    let mut halted = BFOpcodeInterpreter::new(Vec::new());
    halted.fail_io();
    assert_eq!(halted.status(), Status::Halted);
}

#[test]
fn jump_lands_on_the_partner_and_steps_past_it() {
    // [+] is skipped on a zero cell: the jump goes to the close, and the
    // step after it leaves the loop.
    let mut interpreter = BFOpcodeInterpreter::with_input(
        vec![
            Opcode::JumpIfZero { target: 2 },
            Opcode::PutChar { count: 1 },
            Opcode::JumpIfNonZero { target: 0 },
            Opcode::Change { delta: 2 },
        ],
        Vec::new(),
    );
    interpreter.step();
    assert_eq!(interpreter.machine.ip, 3);
    interpreter.step();
    assert_eq!(interpreter.status(), Status::Halted);
    assert_eq!(interpreter.machine.memory[0], 2);
    assert!(interpreter.output().is_empty());
    assert_eq!(interpreter.instruction_count(), 2);
}

#[test]
fn loop_runs_until_the_cell_is_zero() {
    let machine = run_tokens("+++[>++<-]>.", &[]);
    assert_eq!(machine.status(), Status::Halted);
    assert_eq!(machine.output(), &vec![6]);
}

#[test]
fn jump_out_of_the_program_faults() {
    let mut interpreter =
        BFOpcodeInterpreter::with_input(vec![Opcode::JumpIfZero { target: 9 }], Vec::new());
    interpreter.execute(10);
    assert_eq!(interpreter.status(), Status::Faulted);
}

#[test]
fn scan_with_step_zero_on_a_nonzero_cell_never_ends() {
    let mut interpreter = BFOpcodeInterpreter::with_input(
        vec![Opcode::Change { delta: 1 }, Opcode::ScanBy { step: 0 }],
        Vec::new(),
    );
    interpreter.execute(1000);
    assert_eq!(interpreter.status(), Status::Running);
    assert_eq!(interpreter.instruction_count(), 1);
    assert_eq!(interpreter.machine.ip, 1);
}

#[test]
fn scan_leaving_the_arena_faults() {
    let mut interpreter = BFOpcodeInterpreter::with_input(
        vec![Opcode::Change { delta: 1 }, Opcode::ScanBy { step: -1 }],
        Vec::new(),
    );
    interpreter.execute(10);
    assert_eq!(interpreter.status(), Status::Faulted);
    assert_eq!(interpreter.machine.dp, 0);
}

#[test]
fn budget_bounds_the_dispatches() {
    let code = tokenize_instructions(String::from("+[]"));
    let mut interpreter = BFOpcodeInterpreter::with_input(code, Vec::new());
    interpreter.execute(5);
    assert_eq!(interpreter.status(), Status::Running);
    assert_eq!(interpreter.instruction_count(), 5);
    interpreter.execute(7);
    assert_eq!(interpreter.instruction_count(), 12);
}

#[test]
fn reset_makes_a_fresh_machine_and_keeps_the_count() {
    let mut interpreter = run_compiled("+++>++", &[]);
    assert_eq!(interpreter.status(), Status::Halted);
    let count = interpreter.instruction_count();
    interpreter.reset_machine_state();
    assert_eq!(interpreter.status(), Status::Running);
    assert_eq!(interpreter.machine.ip, 0);
    assert_eq!(interpreter.machine.dp, 0);
    assert!(interpreter.machine.memory.iter().all(|cell| *cell == 0));
    assert_eq!(interpreter.instruction_count(), count);
    interpreter.execute(100);
    assert_eq!(interpreter.machine.memory[0], 3);
    assert_eq!(interpreter.machine.memory[1], 2);
}

#[test]
fn read_char_and_write_char_move_single_bytes() {
    let mut interpreter = BFOpcodeInterpreter::with_input(vec![Opcode::Change { delta: 0 }], vec![4]);
    interpreter.read_char();
    assert_eq!(interpreter.machine.memory[0], 4);
    interpreter.write_char();
    interpreter.write_char();
    assert_eq!(interpreter.output(), &vec![4, 4]);
    assert_eq!(interpreter.status(), Status::Running);
    interpreter.read_char();
    assert_eq!(interpreter.status(), Status::Faulted);
}

#[test]
fn compiled_and_tokenized_programs_agree() {
    let programs = [
        "++++++++[>++++[>++>+++>+++>+<<<<-]>+>+>->>+[<]<-]>>.>---.+++++++..+++.>>.<-.<.+++.------.--------.>>+.>++.",
        ",[.,]",
        ",>,<[->+<]>.",
        "+++[>+++[>+<-]<-]>>.",
        "++[>+++<-]>[<+>-]<.",
        "+[--+]>+[-<+>]<.",
        ",[->+>++>+++<<<]>.>.>.",
        ">+++[-<+>]<.",
        ",[>+<-]>[<++>-]<.",
    ];
    let inputs: [&[u8]; 3] = [&[], &[5, 0], &[200, 13, 0]];
    for source in programs {
        for input in inputs {
            let plain = run_tokens(source, input);
            if plain.status() != Status::Halted {
                continue;
            }
            let compiled = run_compiled(source, input);
            assert_eq!(compiled.status(), Status::Halted, "{}", source);
            assert_eq!(compiled.output(), plain.output(), "{}", source);
            assert_eq!(compiled.machine.memory[..], plain.machine.memory[..], "{}", source);
            assert_eq!(compiled.machine.dp, plain.machine.dp, "{}", source);
        }
    }
}

#[test]
fn hello_world_prints_its_text() {
    let source = "++++++++[>++++[>++>+++>+++>+<<<<-]>+>+>->>+[<]<-]>>.>---.+++++++..+++.>>.<-.<.+++.------.--------.>>+.>++.";
    let machine = run_compiled(source, &[]);
    assert_eq!(machine.status(), Status::Halted);
    assert_eq!(machine.output(), &b"Hello World!\n".to_vec());
}

#[test]
fn folding_can_remove_a_fault() {
    // Moving left of the arena and back faults as written and is nothing
    // once the two moves are folded.
    let plain = run_tokens("<>+", &[]);
    assert_eq!(plain.status(), Status::Faulted);
    let compiled = run_compiled("<>+", &[]);
    assert_eq!(compiled.status(), Status::Halted);
    assert_eq!(compiled.machine.memory[0], 1);
}

#[test]
fn reduced_loop_at_the_end_of_the_arena_faults_where_the_loop_was_skipped() {
    let mut source = ">".repeat(29999);
    source.push_str("[->+<]");
    let plain = run_tokens(&source, &[]);
    assert_eq!(plain.status(), Status::Halted);
    assert_eq!(plain.machine.dp, 29999);
    let compiled = run_compiled(&source, &[]);
    assert_eq!(compiled.status(), Status::Faulted);
    assert_eq!(compiled.machine.dp, 29999);
    assert_eq!(
        compile_code(source)[..2],
        [Opcode::Move { delta: 29999 }, Opcode::Multi { offset: 1, factor: 1 }]
    );
}

#[test]
fn reduced_loop_with_a_target_left_of_the_arena_leaves_a_zero_counter_alone() {
    // The loop is skipped as written; its reduction adds nothing to the
    // first cell, which its clamped target names.
    let plain = run_tokens("[-<+>]", &[]);
    let compiled = run_compiled("[-<+>]", &[]);
    assert_eq!(plain.status(), Status::Halted);
    assert_eq!(compiled.status(), Status::Halted);
    assert_eq!(compiled.machine.memory[..], plain.machine.memory[..]);
}

#[test]
fn counting_up_loop_is_reduced_soundly() {
    // The counter counts up from 253 to 256, so the loop goes round three
    // times.
    let source = "---[+>++<]>.";
    let plain = run_tokens(source, &[]);
    let compiled = run_compiled(source, &[]);
    assert_eq!(plain.status(), Status::Halted);
    assert_eq!(compiled.status(), Status::Halted);
    assert_eq!(plain.output(), &vec![6]);
    assert_eq!(compiled.output(), &vec![6]);
    assert_eq!(
        compile_code(String::from(source)),
        vec![
            Opcode::Change { delta: -3 },
            Opcode::Multi { offset: 1, factor: -2 },
            Opcode::SetTo { value: 0 },
            Opcode::Move { delta: 1 },
            Opcode::PutChar { count: 1 },
        ]
    );
}

#[test]
fn loop_that_changes_its_own_counter_twice_is_left_alone() {
    let source = "++++[->+<->>+<<]>.>.";
    let plain = run_tokens(source, &[]);
    let compiled = run_compiled(source, &[]);
    assert_eq!(plain.status(), Status::Halted);
    assert_eq!(plain.output(), &vec![2, 2]);
    assert_eq!(compiled.status(), Status::Halted);
    assert_eq!(compiled.output(), &vec![2, 2]);
}
