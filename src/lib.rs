//! An interpreter for the eight-instruction tape language: a tape of cells
//! under a cursor, a jump table that pairs each `[` with its `]`, and an
//! engine that runs a program against the tape.
mod blocks;
mod command;
mod error;
mod execution;
mod memory;

pub use blocks::{
    balanced, blocks_result, bracket_step, depth, extract_blocks, is_jump_table_of,
    lemma_balanced_round_trip, lemma_close_unique, lemma_one_unmatched_close,
    lemma_one_unmatched_open, lemma_open_unique, matched, never_negative, unmatched_close_at,
    unmatched_open_at, JumpTable,
};
pub use command::{char_to_bf_command, command_of, translate_string_to_bf_code, BfCommand};
pub use error::BfError;
pub use execution::{
    ascii_of, at_with_counter, close_of, countdown, countdown_state, halted, lemma_countdown,
    open_of, printable, run, run_bf_program, run_outcome, step, to_ascii, BfProgram,
    BfProgramExecution, Machine, RunStatus,
};
pub use memory::{
    decr_val, incr_val, lemma_decr_then_incr, lemma_incr_then_decr, lemma_moved_left_cells,
    lemma_moved_right_cells, lemma_round_trip, move_cursor_left, move_cursor_right, wrapped_decr,
    wrapped_incr, BfMemory, TapeModel,
};
