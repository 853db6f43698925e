use vstd::prelude::*;
use vstd::string::*;

verus! {

/// One instruction of a program.
#[derive(Clone, Copy, Debug, PartialEq, Eq, Structural)]
pub enum BfCommand {
    /// `>`: move the cursor one cell to the right.
    IncrPointer,
    /// `<`: move the cursor one cell to the left.
    DecrPointer,
    /// `+`: add one to the current cell.
    Incr,
    /// `-`: subtract one from the current cell.
    Decr,
    /// `.`: emit the current cell as a character.
    Print,
    /// `[`: skip past the matching `]` when the current cell is zero.
    BlockStart,
    /// `]`: go back past the matching `[` when the current cell is not zero.
    BlockEnd,
    /// Any other character: does nothing.
    Comment,
}

/// The instruction that a source character stands for.
pub open spec fn command_of(c: char) -> BfCommand {
    if c == '>' {
        BfCommand::IncrPointer
    } else if c == '<' {
        BfCommand::DecrPointer
    } else if c == '+' {
        BfCommand::Incr
    } else if c == '-' {
        BfCommand::Decr
    } else if c == '.' {
        BfCommand::Print
    } else if c == '[' {
        BfCommand::BlockStart
    } else if c == ']' {
        BfCommand::BlockEnd
    } else {
        BfCommand::Comment
    }
}

pub fn char_to_bf_command(c: char) -> (r: BfCommand)
    ensures
        r == command_of(c),
{
    match c {
        '>' => BfCommand::IncrPointer,
        '<' => BfCommand::DecrPointer,
        '+' => BfCommand::Incr,
        '-' => BfCommand::Decr,
        '.' => BfCommand::Print,
        '[' => BfCommand::BlockStart,
        ']' => BfCommand::BlockEnd,
        _ => BfCommand::Comment,
    }
}

/// Translates source text into a program, one instruction per character.
pub fn translate_string_to_bf_code(str_code: &String) -> (r: Vec<BfCommand>)
    ensures
        r@.len() == str_code@.len(),
        forall|i: int| 0 <= i < r@.len() ==> #[trigger] r@[i] == command_of(str_code@[i]),
{
    let s: &str = str_code.as_str();
    let n: usize = s.unicode_len();
    let mut code: Vec<BfCommand> = Vec::with_capacity(n);
    let mut i: usize = 0;
    while i < n
        invariant
            s@ == str_code@,
            n == s@.len(),
            i <= n,
            code@.len() == i,
            forall|j: int| 0 <= j < i ==> #[trigger] code@[j] == command_of(s@[j]),
        decreases n - i,
    {
        code.push(char_to_bf_command(s.get_char(i)));
        i += 1;
    }
    code
}

} // verus!
