use vstd::prelude::*;

use crate::blocks::{
    balanced, depth, extract_blocks, is_jump_table_of, lemma_close_unique, lemma_open_unique, matched,
    unmatched_close_at, unmatched_open_at, JumpTable,
};
use crate::command::BfCommand;
use crate::error::BfError;
use crate::memory::{
    decr_val, incr_val, move_cursor_left, move_cursor_right, BfMemory, TapeModel,
};

verus! {

/// A program and the tape it runs on.
pub struct BfProgram {
    pub code: Vec<BfCommand>,
    pub memory: BfMemory,
}

/// One run of a program: the program, where it stands, and what it has printed.
pub struct BfProgramExecution {
    pub print_chars: Vec<char>,
    pub program: BfProgram,
    pub pc: usize,
}

/// The state of a run, apart from the program itself.
pub struct Machine {
    pub pc: int,
    pub tape: TapeModel,
    pub output: Seq<char>,
}

impl View for BfProgramExecution {
    type V = Machine;

    open spec fn view(&self) -> Machine {
        Machine { pc: self.pc as int, tape: self.program.memory@, output: self.print_chars@ }
    }
}

/// How a call of `run_bf_program` ended without error.
#[derive(Clone, Copy, Debug, PartialEq, Eq, Structural)]
pub enum RunStatus {
    /// The program counter went past the last instruction.
    Finished,
    /// The allowed number of steps was used up first; the run can be resumed.
    OutOfSteps,
}

/// The values that `.` can print.
pub open spec fn printable(v: i32) -> bool {
    0 <= v <= 127
}

/// The character with code point `v`.
pub open spec fn ascii_of(v: i32) -> char {
    (v as u8) as char
}

/// The position of the `]` that closes the `[` at `o`.
pub open spec fn close_of(code: Seq<BfCommand>, o: int) -> int {
    choose|c: int| matched(code, o, c)
}

/// The position of the `[` that the `]` at `c` closes.
pub open spec fn open_of(code: Seq<BfCommand>, c: int) -> int {
    choose|o: int| matched(code, o, c)
}

/// A run is over once the program counter has left the program.
pub open spec fn halted(code: Seq<BfCommand>, s: Machine) -> bool {
    s.pc < 0 || s.pc >= code.len()
}

/// One instruction executed on a running machine.
pub open spec fn step(code: Seq<BfCommand>, s: Machine) -> Result<Machine, BfError> {
    let next = s.pc + 1;
    match code[s.pc] {
        BfCommand::IncrPointer => Ok(Machine { pc: next, tape: s.tape.moved_right(), ..s }),
        BfCommand::DecrPointer => Ok(Machine { pc: next, tape: s.tape.moved_left(), ..s }),
        BfCommand::Incr => Ok(Machine { pc: next, tape: s.tape.incremented(), ..s }),
        BfCommand::Decr => Ok(Machine { pc: next, tape: s.tape.decremented(), ..s }),
        BfCommand::Print => if printable(s.tape.middle) {
            Ok(Machine { pc: next, output: s.output.push(ascii_of(s.tape.middle)), ..s })
        } else {
            Err(BfError::OutputValueOutOfRange(s.tape.middle))
        },
        BfCommand::BlockStart => if s.tape.middle == 0 {
            Ok(Machine { pc: close_of(code, s.pc) + 1, ..s })
        } else {
            Ok(Machine { pc: next, ..s })
        },
        BfCommand::BlockEnd => if s.tape.middle != 0 {
            Ok(Machine { pc: open_of(code, s.pc) + 1, ..s })
        } else {
            Ok(Machine { pc: next, ..s })
        },
        BfCommand::Comment => Ok(Machine { pc: next, ..s }),
    }
}

/// The machine after at most `n` steps: it stops early when the run is over,
/// and an error ends it.
pub open spec fn run(code: Seq<BfCommand>, s: Machine, n: nat) -> Result<Machine, BfError>
    decreases n,
{
    if n == 0 {
        Ok(s)
    } else {
        match run(code, s, (n - 1) as nat) {
            Ok(t) => if halted(code, t) {
                Ok(t)
            } else {
                step(code, t)
            },
            Err(e) => Err(e),
        }
    }
}

/// The character that `.` prints for a cell, or the error for a value out of range.
pub fn to_ascii(i: &i32) -> (r: Result<char, BfError>)
    ensures
        r == (if printable(*i) {
            Ok(ascii_of(*i))
        } else {
            Err::<char, BfError>(BfError::OutputValueOutOfRange(*i))
        }),
{
    if 0 <= *i && *i <= 127 {
        Ok((*i as u8) as char)
    } else {
        Err(BfError::OutputValueOutOfRange(*i))
    }
}

impl BfProgramExecution {
    /// A run of `code` from its first instruction, on a tape of zeros, with
    /// nothing printed yet.
    pub fn new(code: Vec<BfCommand>) -> (r: BfProgramExecution)
        ensures
            r.program.code@ == code@,
            r@ == (Machine { pc: 0, tape: TapeModel::zeroed(), output: Seq::empty() }),
    {
        BfProgramExecution {
            print_chars: Vec::new(),
            program: BfProgram { code, memory: BfMemory::new() },
            pc: 0,
        }
    }
}

/// Executes the instruction at the program counter.
fn execute_step(execution: &mut BfProgramExecution, table: &JumpTable) -> (r: Result<(), BfError>)
    requires
        old(execution).pc < old(execution).program.code@.len(),
        is_jump_table_of(old(execution).program.code@, *table),
    ensures
        final(execution).program.code@ == old(execution).program.code@,
        match step(old(execution).program.code@, old(execution)@) {
            Ok(t) => r is Ok && final(execution)@ == t,
            Err(e) => r == Err::<(), BfError>(e) && final(execution)@ == old(execution)@,
        },
{
    let ghost code = execution.program.code@;
    let n: usize = execution.program.code.len();
    let pc: usize = execution.pc;
    assert(pc < n);
    let next: usize = pc + 1;
    match execution.program.code[pc] {
        BfCommand::IncrPointer => {
            move_cursor_right(&mut execution.program.memory);
            execution.pc = next;
        },
        BfCommand::DecrPointer => {
            move_cursor_left(&mut execution.program.memory);
            execution.pc = next;
        },
        BfCommand::Incr => {
            incr_val(&mut execution.program.memory);
            execution.pc = next;
        },
        BfCommand::Decr => {
            decr_val(&mut execution.program.memory);
            execution.pc = next;
        },
        BfCommand::Print => {
            let c = to_ascii(&execution.program.memory.middle)?;
            execution.print_chars.push(c);
            execution.pc = next;
        },
        BfCommand::BlockStart => {
            if execution.program.memory.middle == 0 {
                match table.open_to_close(pc) {
                    Some(close) => {
                        proof {
                            assert(matched(code, pc as int, close as int));
                            let c = close_of(code, pc as int);
                            lemma_close_unique(code, pc as int, c, close as int);
                        }
                        execution.pc = close + 1;
                    },
                    None => {
                        execution.pc = next;
                    },
                }
            } else {
                execution.pc = next;
            }
        },
        BfCommand::BlockEnd => {
            if execution.program.memory.middle != 0 {
                match table.close_to_open(pc) {
                    Some(open) => {
                        proof {
                            assert(matched(code, open as int, pc as int));
                            let o = open_of(code, pc as int);
                            lemma_open_unique(code, o, open as int, pc as int);
                        }
                        execution.pc = open + 1;
                    },
                    None => {
                        execution.pc = next;
                    },
                }
            } else {
                execution.pc = next;
            }
        },
        BfCommand::Comment => {
            execution.pc = next;
        },
    }
    Ok(())
}

/// What a call of `run_bf_program` does, given the program, the state before,
/// the allowed number of steps, the result and the state after. A program
/// whose brackets do not pair is refused before it runs; otherwise the run
/// goes on until it halts, fails, or has taken the allowed number of steps.
pub open spec fn run_outcome(
    code: Seq<BfCommand>,
    s0: Machine,
    n: nat,
    r: Result<RunStatus, BfError>,
    s: Machine,
) -> bool {
    if !balanced(code) {
        &&& s == s0
        &&& match r {
            Err(BfError::UnmatchedLoopClose(p)) => unmatched_close_at(code, p as int),
            Err(BfError::UnmatchedLoopOpen(p)) => unmatched_open_at(code, p as int),
            _ => false,
        }
    } else {
        match r {
            Ok(RunStatus::Finished) => run(code, s0, n) == Ok::<Machine, BfError>(s) && halted(
                code,
                s,
            ),
            Ok(RunStatus::OutOfSteps) => run(code, s0, n) == Ok::<Machine, BfError>(s) && !halted(
                code,
                s,
            ),
            Err(e) => {
                &&& run(code, s0, n) == Err::<Machine, BfError>(e)
                &&& exists|k: nat|
                    k < n && #[trigger] run(code, s0, k) == Ok::<Machine, BfError>(s)
                &&& !halted(code, s)
                &&& step(code, s) == Err::<Machine, BfError>(e)
            },
        }
    }
}

proof fn lemma_run_settled(code: Seq<BfCommand>, s0: Machine, k: nat, n: nat)
    requires
        k <= n,
        match run(code, s0, k) {
            Ok(s) => halted(code, s),
            Err(_) => true,
        },
    ensures
        run(code, s0, n) == run(code, s0, k),
    decreases n - k,
{
    if k < n {
        lemma_run_settled(code, s0, k, (n - 1) as nat);
    }
}

/// Runs the program from its program counter for at most `max_steps`
/// instructions. The jump table is built first; a program whose brackets do
/// not pair does not run at all. A run cut short by the step limit can be
/// resumed by calling this again.
pub fn run_bf_program(execution: &mut BfProgramExecution, max_steps: u64) -> (r: Result<
    RunStatus,
    BfError,
>)
    ensures
        final(execution).program.code@ == old(execution).program.code@,
        run_outcome(
            old(execution).program.code@,
            old(execution)@,
            max_steps as nat,
            r,
            final(execution)@,
        ),
{
    let ghost code = execution.program.code@;
    let ghost s0 = execution@;
    let table = match extract_blocks(&execution.program.code) {
        Ok(t) => t,
        Err(e) => {
            proof {
                match e {
                    BfError::UnmatchedLoopClose(p) => {
                        assert(depth(code, p + 1) < 0);
                    },
                    BfError::UnmatchedLoopOpen(p) => {
                        assert(depth(code, code.len() as int) > 0);
                    },
                    _ => {},
                }
            }
            return Err(e);
        },
    };
    let mut k: u64 = 0;
    while k < max_steps
        invariant
            execution.program.code@ == code,
            code == old(execution).program.code@,
            s0 == old(execution)@,
            balanced(code),
            is_jump_table_of(code, table),
            k <= max_steps,
            run(code, s0, k as nat) == Ok::<Machine, BfError>(execution@),
        decreases max_steps - k,
    {
        if execution.pc >= execution.program.code.len() {
            proof {
                lemma_run_settled(code, s0, k as nat, max_steps as nat);
            }
            return Ok(RunStatus::Finished);
        }
        let ghost before = execution@;
        match execute_step(execution, &table) {
            Ok(()) => {},
            Err(e) => {
                proof {
                    assert(run(code, s0, (k + 1) as nat) == Err::<Machine, BfError>(e));
                    lemma_run_settled(code, s0, (k + 1) as nat, max_steps as nat);
                    assert(run(code, s0, k as nat) == Ok::<Machine, BfError>(execution@));
                }
                return Err(e);
            },
        }
        k += 1;
    }
    if execution.pc >= execution.program.code.len() {
        Ok(RunStatus::Finished)
    } else {
        Ok(RunStatus::OutOfSteps)
    }
}

/// The program `[-]`: a loop that counts the current cell down to zero.
pub open spec fn countdown() -> Seq<BfCommand> {
    seq![BfCommand::BlockStart, BfCommand::Decr, BfCommand::BlockEnd]
}

/// `s` with the program counter at `pc` and the current cell at `v`.
pub open spec fn at_with_counter(s: Machine, pc: int, v: int) -> Machine {
    Machine { pc, tape: TapeModel { middle: v as i32, ..s.tape }, output: s.output }
}

/// Where a run of `[-]` that started with the counter at `n` stands after `j`
/// steps: each pass enters the body (position 1) and then tests the counter
/// at the `]` (position 2).
pub open spec fn countdown_state(s: Machine, n: nat, j: nat) -> Machine {
    if j == 0 {
        s
    } else if j >= 2 * n + 1 {
        at_with_counter(s, 3, 0)
    } else if j % 2 == 1 {
        at_with_counter(s, 1, n - (j - 1) / 2)
    } else {
        at_with_counter(s, 2, n - j / 2)
    }
}

proof fn lemma_countdown_jumps()
    ensures
        close_of(countdown(), 0) == 2,
        open_of(countdown(), 2) == 0,
{
    let code = countdown();
    assert(depth(code, 0) == 0);
    assert(depth(code, 1) == 1);
    assert(depth(code, 2) == 1);
    assert(depth(code, 3) == 0);
    assert(matched(code, 0, 2));
    lemma_close_unique(code, 0, close_of(code, 0), 2);
    lemma_open_unique(code, open_of(code, 2), 0, 2);
}

/// A loop whose body counts the current cell down, started with the cell at
/// `n`, enters its body exactly `n` times, with the counter at `n`, `n - 1`,
/// ..., `1`, and halts after `2n + 1` steps with the counter at zero; for
/// `n == 0` it skips the body.
pub proof fn lemma_countdown(s: Machine, n: nat)
    requires
        s.pc == 0,
        s.tape.middle == n,
    ensures
        forall|j: nat|
            #[trigger] run(countdown(), s, j) == Ok::<Machine, BfError>(countdown_state(s, n, j)),
        halted(countdown(), countdown_state(s, n, 2 * n + 1)),
        forall|j: nat| j < 2 * n + 1 ==> !halted(countdown(), #[trigger] countdown_state(s, n, j)),
{
    assert forall|j: nat|
        #[trigger] run(countdown(), s, j) == Ok::<Machine, BfError>(countdown_state(s, n, j)) by {
        lemma_countdown_trace(s, n, j);
    }
}

proof fn lemma_countdown_trace(s: Machine, n: nat, j: nat)
    requires
        s.pc == 0,
        s.tape.middle == n,
    ensures
        run(countdown(), s, j) == Ok::<Machine, BfError>(countdown_state(s, n, j)),
    decreases j,
{
    let code = countdown();
    if j > 0 {
        let i = (j - 1) as nat;
        lemma_countdown_trace(s, n, i);
        lemma_countdown_jumps();
        assert(n <= i32::MAX);
        let t = countdown_state(s, n, i);
        if i == 0 {
            if n == 0 {
                assert(step(code, t) == Ok::<Machine, BfError>(at_with_counter(s, 3, 0)));
            } else {
                assert(step(code, t) == Ok::<Machine, BfError>(at_with_counter(s, 1, n as int)));
            }
        } else if i >= 2 * n + 1 {
        } else if i % 2 == 1 {
            let v = n - (i - 1) / 2;
            assert(j % 2 == 0 && j / 2 == (i - 1) / 2 + 1);
            assert(TapeModel { middle: v as i32, ..s.tape }.decremented() == TapeModel {
                middle: (v - 1) as i32,
                ..s.tape
            });
        } else {
            let v = n - i / 2;
            assert(j % 2 == 1 && (j - 1) / 2 == i / 2);
            if v == 0 {
                assert(j == 2 * n + 1);
            }
        }
    }
}

} // verus!
