use bf_interp::{
    char_to_bf_command, decr_val, extract_blocks, incr_val, move_cursor_left, move_cursor_right,
    run_bf_program, to_ascii, translate_string_to_bf_code, BfCommand, BfError, BfMemory,
    BfProgramExecution, RunStatus,
};

fn execution_of(source: &str) -> BfProgramExecution {
    BfProgramExecution::new(translate_string_to_bf_code(&String::from(source)))
}

fn printed(execution: &BfProgramExecution) -> String {
    execution.print_chars.iter().collect()
}

const HELLO: &str = "++++++++[>++++[>++>+++>+++>+<<<<-]>+>+>->>+[<]<-]>>.>---.+++++++..+++.>>.<-.<.+++.------.--------.>>+.>++.";

#[test]
fn hello_world_prints_greeting() {
    let mut execution = execution_of(HELLO);
    let r = run_bf_program(&mut execution, 1_000_000);
    assert_eq!(r, Ok(RunStatus::Finished));
    assert_eq!(printed(&execution), "Hello World!\n");
}

#[test]
fn hello_world_resumed_in_small_slices() {
    let mut execution = execution_of(HELLO);
    let mut calls = 0;
    loop {
        calls += 1;
        match run_bf_program(&mut execution, 7) {
            Ok(RunStatus::Finished) => break,
            Ok(RunStatus::OutOfSteps) => {}
            Err(e) => panic!("unexpected error {:?}", e),
        }
    }
    assert!(calls > 1);
    assert_eq!(printed(&execution), "Hello World!\n");
}

#[test]
fn three_increments_print_code_point_three() {
    let mut execution = execution_of("+++.");
    assert_eq!(run_bf_program(&mut execution, 100), Ok(RunStatus::Finished));
    assert_eq!(execution.print_chars, vec!['\u{3}']);
}

#[test]
fn printing_two_hundred_is_out_of_range() {
    let source: String = "+".repeat(200) + ".";
    let mut execution = BfProgramExecution::new(translate_string_to_bf_code(&source));
    assert_eq!(
        run_bf_program(&mut execution, 1000),
        Err(BfError::OutputValueOutOfRange(200))
    );
    assert!(execution.print_chars.is_empty());
    assert_eq!(execution.pc, 200);
}

#[test]
fn printing_negative_is_out_of_range_and_keeps_earlier_output() {
    let mut execution = execution_of("+.--.");
    assert_eq!(
        run_bf_program(&mut execution, 100),
        Err(BfError::OutputValueOutOfRange(-1))
    );
    assert_eq!(execution.print_chars, vec!['\u{1}']);
}

#[test]
fn countdown_runs_body_exactly_n_times() {
    for n in 0..6i32 {
        let code = translate_string_to_bf_code(&String::from("[-]"));
        let mut execution = BfProgramExecution::new(code.clone());
        execution.program.memory.middle = n;
        let steps = 2 * n as u64 + 1;
        if steps > 1 {
            assert_eq!(run_bf_program(&mut execution, steps - 1), Ok(RunStatus::OutOfSteps));
            assert_eq!(execution.program.memory.middle, 0);
            assert_eq!(execution.pc, 2);
        }
        let mut execution = BfProgramExecution::new(code);
        execution.program.memory.middle = n;
        assert_eq!(run_bf_program(&mut execution, steps), Ok(RunStatus::Finished));
        assert_eq!(execution.program.memory.middle, 0);
        assert_eq!(execution.pc, 3);
    }
}

#[test]
fn countdown_with_zero_skips_body() {
    let mut execution = execution_of("[-.]");
    assert_eq!(run_bf_program(&mut execution, 1), Ok(RunStatus::Finished));
    assert_eq!(execution.pc, 4);
    assert!(execution.print_chars.is_empty());
}

#[test]
fn unmatched_open_reported_at_its_position() {
    let code = translate_string_to_bf_code(&String::from("[]+[[-]>"));
    assert!(matches!(extract_blocks(&code), Err(BfError::UnmatchedLoopOpen(3))));
}

#[test]
fn outermost_unmatched_open_is_reported() {
    let code = translate_string_to_bf_code(&String::from("+[[[]"));
    assert!(matches!(extract_blocks(&code), Err(BfError::UnmatchedLoopOpen(1))));
}

#[test]
fn unmatched_close_reported_at_its_position() {
    let code = translate_string_to_bf_code(&String::from("[-]+]["));
    assert!(matches!(extract_blocks(&code), Err(BfError::UnmatchedLoopClose(4))));
}

#[test]
fn malformed_program_never_runs() {
    let mut execution = execution_of("+.]");
    assert_eq!(
        run_bf_program(&mut execution, 100),
        Err(BfError::UnmatchedLoopClose(2))
    );
    assert!(execution.print_chars.is_empty());
    assert_eq!(execution.program.memory.middle, 0);
    assert_eq!(execution.pc, 0);
}

#[test]
fn jump_table_pairs_nested_brackets() {
    let code = translate_string_to_bf_code(&String::from("[a[b]c[]]"));
    let table = match extract_blocks(&code) {
        Ok(t) => t,
        Err(e) => panic!("unexpected error {:?}", e),
    };
    assert_eq!(table.open_to_close(0), Some(8));
    assert_eq!(table.open_to_close(2), Some(4));
    assert_eq!(table.open_to_close(6), Some(7));
    assert_eq!(table.close_to_open(8), Some(0));
    assert_eq!(table.close_to_open(4), Some(2));
    assert_eq!(table.close_to_open(7), Some(6));
    assert_eq!(table.open_to_close(1), None);
    for x in [0usize, 2, 6] {
        let c = table.open_to_close(x).unwrap();
        assert_eq!(table.close_to_open(c), Some(x));
    }
}

#[test]
fn empty_program_has_empty_table_and_finishes() {
    let code = translate_string_to_bf_code(&String::new());
    assert!(code.is_empty());
    let table = match extract_blocks(&code) {
        Ok(t) => t,
        Err(e) => panic!("unexpected error {:?}", e),
    };
    assert!(table.block_starts_ends.is_empty());
    let mut execution = BfProgramExecution::new(code);
    assert_eq!(run_bf_program(&mut execution, 0), Ok(RunStatus::Finished));
}

#[test]
fn tape_round_trip_restores_start_cell() {
    let mut memory = BfMemory::new();
    memory.middle = 9;
    for _ in 0..3 {
        move_cursor_right(&mut memory);
    }
    incr_val(&mut memory);
    incr_val(&mut memory);
    decr_val(&mut memory);
    for _ in 0..3 {
        move_cursor_left(&mut memory);
    }
    assert_eq!(memory.middle, 9);
    assert!(memory.left.is_empty());
    move_cursor_right(&mut memory);
    move_cursor_right(&mut memory);
    assert_eq!(memory.middle, 0);
    move_cursor_right(&mut memory);
    assert_eq!(memory.middle, 1);
}

#[test]
fn moving_left_of_start_keeps_departed_cell() {
    let mut memory = BfMemory::new();
    incr_val(&mut memory);
    move_cursor_left(&mut memory);
    assert_eq!(memory.middle, 0);
    assert_eq!(memory.right, vec![1]);
    move_cursor_right(&mut memory);
    assert_eq!(memory.middle, 1);
    assert!(memory.right.is_empty());
    assert_eq!(memory.left, vec![0]);
}

#[test]
fn increment_then_decrement_on_zero_cell() {
    let mut memory = BfMemory::new();
    incr_val(&mut memory);
    assert_eq!(memory.middle, 1);
    decr_val(&mut memory);
    assert_eq!(memory.middle, 0);
}

#[test]
fn cells_wrap_at_the_bounds() {
    let mut memory = BfMemory::new();
    memory.middle = i32::MAX;
    incr_val(&mut memory);
    assert_eq!(memory.middle, i32::MIN);
    decr_val(&mut memory);
    assert_eq!(memory.middle, i32::MAX);
}

#[test]
fn to_ascii_translates_in_range_only() {
    assert_eq!(to_ascii(&65), Ok('A'));
    assert_eq!(to_ascii(&0), Ok('\0'));
    assert_eq!(to_ascii(&127), Ok('\u{7f}'));
    assert_eq!(to_ascii(&128), Err(BfError::OutputValueOutOfRange(128)));
    assert_eq!(to_ascii(&-3), Err(BfError::OutputValueOutOfRange(-3)));
}

#[test]
fn characters_map_to_commands() {
    assert_eq!(char_to_bf_command('>'), BfCommand::IncrPointer);
    assert_eq!(char_to_bf_command('<'), BfCommand::DecrPointer);
    assert_eq!(char_to_bf_command('+'), BfCommand::Incr);
    assert_eq!(char_to_bf_command('-'), BfCommand::Decr);
    assert_eq!(char_to_bf_command('.'), BfCommand::Print);
    assert_eq!(char_to_bf_command('['), BfCommand::BlockStart);
    assert_eq!(char_to_bf_command(']'), BfCommand::BlockEnd);
    assert_eq!(char_to_bf_command('x'), BfCommand::Comment);
    assert_eq!(char_to_bf_command('\n'), BfCommand::Comment);
}

#[test]
fn translation_keeps_one_command_per_character() {
    let code = translate_string_to_bf_code(&String::from("+é>\n]"));
    assert_eq!(
        code,
        vec![
            BfCommand::Incr,
            BfCommand::Comment,
            BfCommand::IncrPointer,
            BfCommand::Comment,
            BfCommand::BlockEnd
        ]
    );
}

#[test]
fn comments_inside_program_are_skipped() {
    let mut execution = execution_of("hi ++ there +.");
    assert_eq!(run_bf_program(&mut execution, 100), Ok(RunStatus::Finished));
    assert_eq!(execution.print_chars, vec!['\u{3}']);
}
