use std::collections::HashMap;
use vstd::prelude::*;

use crate::command::BfCommand;
use crate::error::BfError;

verus! {

broadcast use vstd::std_specs::hash::group_hash_axioms;

/// How an instruction changes the bracket depth.
pub open spec fn bracket_step(c: BfCommand) -> int {
    match c {
        BfCommand::BlockStart => 1,
        BfCommand::BlockEnd => -1,
        _ => 0,
    }
}

/// The bracket depth before position `i`: opening brackets minus closing
/// brackets among the first `i` instructions.
pub open spec fn depth(code: Seq<BfCommand>, i: int) -> int
    decreases i,
{
    if i <= 0 {
        0
    } else {
        depth(code, i - 1) + bracket_step(code[i - 1])
    }
}

/// No prefix of the first `upto` instructions closes more brackets than it opens.
pub open spec fn never_negative(code: Seq<BfCommand>, upto: int) -> bool {
    forall|i: int| 0 <= i <= upto ==> #[trigger] depth(code, i) >= 0
}

/// Every bracket of the program has its partner.
pub open spec fn balanced(code: Seq<BfCommand>) -> bool {
    never_negative(code, code.len() as int) && depth(code, code.len() as int) == 0
}

/// The `]` at `c` closes the `[` at `o`: `c` is the first position after `o`
/// at which the depth falls back to what it was before `o`.
pub open spec fn matched(code: Seq<BfCommand>, o: int, c: int) -> bool {
    &&& 0 <= o < c < code.len()
    &&& code[o] == BfCommand::BlockStart
    &&& code[c] == BfCommand::BlockEnd
    &&& depth(code, c + 1) == depth(code, o)
    &&& forall|j: int| o < j <= c ==> #[trigger] depth(code, j) > depth(code, o)
}

/// The `]` at `p` is the first one that has no `[` to close.
pub open spec fn unmatched_close_at(code: Seq<BfCommand>, p: int) -> bool {
    &&& 0 <= p < code.len()
    &&& code[p] == BfCommand::BlockEnd
    &&& depth(code, p) == 0
    &&& never_negative(code, p)
}

/// Every `]` has its `[`, and the `[` at `p` is the outermost one left open.
pub open spec fn unmatched_open_at(code: Seq<BfCommand>, p: int) -> bool {
    &&& never_negative(code, code.len() as int)
    &&& 0 <= p < code.len()
    &&& code[p] == BfCommand::BlockStart
    &&& depth(code, p) == 0
    &&& forall|j: int| p < j <= code.len() ==> #[trigger] depth(code, j) > 0
}

/// The matching positions of the brackets of one program, in both directions.
pub struct JumpTable {
    pub block_starts_ends: HashMap<usize, usize>,
    pub block_ends_starts: HashMap<usize, usize>,
}

/// `t` pairs exactly the matched brackets of `code`, and every bracket has an entry.
pub open spec fn is_jump_table_of(code: Seq<BfCommand>, t: JumpTable) -> bool {
    &&& forall|o: usize| #[trigger]
        t.block_starts_ends@.contains_key(o) ==> matched(code, o as int, t.block_starts_ends@[o] as int)
    &&& forall|c: usize| #[trigger]
        t.block_ends_starts@.contains_key(c) ==> matched(code, t.block_ends_starts@[c] as int, c as int)
    &&& forall|o: usize, c: usize| #[trigger]
        matched(code, o as int, c as int) ==> t.block_starts_ends@.contains_key(o)
            && t.block_starts_ends@[o] == c && t.block_ends_starts@.contains_key(c)
            && t.block_ends_starts@[c] == o
    &&& forall|o: usize|
        o < code.len() && code[o as int] == BfCommand::BlockStart ==> #[trigger] t.block_starts_ends@.contains_key(o)
    &&& forall|c: usize|
        c < code.len() && code[c as int] == BfCommand::BlockEnd ==> #[trigger] t.block_ends_starts@.contains_key(c)
}

/// What building the jump table of `code` gives: the table of a balanced
/// program, or the first `]` without partner, or else the outermost `[`
/// without one.
pub open spec fn blocks_result(code: Seq<BfCommand>, r: Result<JumpTable, BfError>) -> bool {
    match r {
        Ok(t) => balanced(code) && is_jump_table_of(code, t),
        Err(BfError::UnmatchedLoopClose(p)) => unmatched_close_at(code, p as int),
        Err(BfError::UnmatchedLoopOpen(p)) => unmatched_open_at(code, p as int),
        Err(BfError::OutputValueOutOfRange(_)) => false,
    }
}

/// A `[` has at most one matching `]`.
pub proof fn lemma_close_unique(code: Seq<BfCommand>, o: int, c1: int, c2: int)
    requires
        matched(code, o, c1),
        matched(code, o, c2),
    ensures
        c1 == c2,
{
    if c1 < c2 {
        assert(depth(code, c1 + 1) > depth(code, o));
    } else if c2 < c1 {
        assert(depth(code, c2 + 1) > depth(code, o));
    }
}

/// A `]` has at most one matching `[`.
pub proof fn lemma_open_unique(code: Seq<BfCommand>, o1: int, o2: int, c: int)
    requires
        matched(code, o1, c),
        matched(code, o2, c),
    ensures
        o1 == o2,
{
    if o1 < o2 {
        assert(depth(code, o2) > depth(code, o1));
    } else if o2 < o1 {
        assert(depth(code, o1) > depth(code, o2));
    }
}

proof fn lemma_depth_concat(x: Seq<BfCommand>, y: Seq<BfCommand>, i: int)
    requires
        0 <= i <= x.len() + y.len(),
    ensures
        i <= x.len() ==> depth(x + y, i) == depth(x, i),
        i >= x.len() ==> depth(x + y, i) == depth(x, x.len() as int) + depth(
            y,
            i - x.len(),
        ),
    decreases i,
{
    if i > 0 {
        lemma_depth_concat(x, y, i - 1);
        if i > x.len() {
            assert((x + y)[i - 1] == y[i - 1 - x.len()]);
        } else {
            assert((x + y)[i - 1] == x[i - 1]);
        }
    }
}

/// A balanced program always gets a jump table, and its two directions undo
/// each other: from a `[` to its `]` and back, and from a `]` to its `[` and back.
pub proof fn lemma_balanced_round_trip(code: Seq<BfCommand>, r: Result<JumpTable, BfError>)
    requires
        balanced(code),
        blocks_result(code, r),
    ensures
        r is Ok,
        forall|o: usize| #[trigger]
            r->Ok_0.block_starts_ends@.contains_key(o) ==> {
                let c = r->Ok_0.block_starts_ends@[o];
                r->Ok_0.block_ends_starts@.contains_key(c) && r->Ok_0.block_ends_starts@[c] == o
            },
        forall|c: usize| #[trigger]
            r->Ok_0.block_ends_starts@.contains_key(c) ==> {
                let o = r->Ok_0.block_ends_starts@[c];
                r->Ok_0.block_starts_ends@.contains_key(o) && r->Ok_0.block_starts_ends@[o] == c
            },
{
    match r {
        Err(BfError::UnmatchedLoopClose(p)) => {
            assert(depth(code, p + 1) < 0);
        },
        Err(BfError::UnmatchedLoopOpen(p)) => {
            assert(depth(code, code.len() as int) > 0);
        },
        _ => {},
    }
}

/// A program made of a balanced part, one `[`, and another balanced part is
/// refused, and the refusal names that `[`.
pub proof fn lemma_one_unmatched_open(
    a: Seq<BfCommand>,
    b: Seq<BfCommand>,
    r: Result<JumpTable, BfError>,
)
    requires
        balanced(a),
        balanced(b),
        blocks_result(a + seq![BfCommand::BlockStart] + b, r),
    ensures
        match r {
            Err(BfError::UnmatchedLoopOpen(p)) => p == a.len(),
            _ => false,
        },
{
    let s = seq![BfCommand::BlockStart];
    let x = a + s;
    let code = x + b;
    assert(x.len() == a.len() + 1);
    lemma_depth_concat(a, s, a.len() + 1 as int);
    assert(depth(s, 0) == 0 && s[0] == BfCommand::BlockStart);
    assert(depth(s, 1) == 1);
    assert(depth(x, x.len() as int) == 1);
    assert forall|i: int| 0 <= i <= code.len() implies #[trigger] depth(code, i) == if i
        <= a.len() {
        depth(a, i)
    } else {
        1 + depth(b, i - x.len())
    } by {
        lemma_depth_concat(x, b, i);
        if i <= a.len() {
            lemma_depth_concat(a, s, i);
        }
    }
    match r {
        Ok(_) => {
            assert(depth(code, code.len() as int) == 1);
        },
        Err(BfError::UnmatchedLoopClose(p)) => {
            assert(depth(code, p + 1) == depth(code, p as int) - 1);
            assert(depth(code, p + 1) >= 0);
        },
        Err(BfError::UnmatchedLoopOpen(p)) => {
            if p < a.len() {
                assert(depth(code, a.len() as int) == 0);
            } else if p > a.len() {
                assert(depth(b, p - x.len()) >= 0);
            }
        },
        _ => {},
    }
}

/// A program made of a balanced part, one `]`, and anything after it is
/// refused, and the refusal names that `]`.
pub proof fn lemma_one_unmatched_close(
    a: Seq<BfCommand>,
    b: Seq<BfCommand>,
    r: Result<JumpTable, BfError>,
)
    requires
        balanced(a),
        blocks_result(a + seq![BfCommand::BlockEnd] + b, r),
    ensures
        match r {
            Err(BfError::UnmatchedLoopClose(p)) => p == a.len(),
            _ => false,
        },
{
    let s = seq![BfCommand::BlockEnd];
    let x = a + s;
    let code = x + b;
    let n = a.len() as int;
    lemma_depth_concat(a, s, n + 1);
    assert(depth(s, 0) == 0 && s[0] == BfCommand::BlockEnd);
    assert(depth(s, 1) == -1);
    lemma_depth_concat(x, b, n + 1);
    assert(depth(code, n + 1) == -1);
    match r {
        Err(BfError::UnmatchedLoopClose(p)) => {
            if p < n {
                lemma_depth_concat(x, b, p + 1);
                lemma_depth_concat(a, s, p + 1);
                assert(depth(code, p + 1) == depth(code, p as int) - 1);
                assert(depth(a, p + 1) >= 0);
            }
        },
        _ => {},
    }
}

impl JumpTable {
    /// The position of the `]` that matches the `[` at `pos`, if any.
    pub fn open_to_close(&self, pos: usize) -> (r: Option<usize>)
        ensures
            r == (if self.block_starts_ends@.contains_key(pos) {
                Some(self.block_starts_ends@[pos])
            } else {
                None::<usize>
            }),
    {
        match self.block_starts_ends.get(&pos) {
            Some(c) => Some(*c),
            None => None,
        }
    }

    /// The position of the `[` that matches the `]` at `pos`, if any.
    pub fn close_to_open(&self, pos: usize) -> (r: Option<usize>)
        ensures
            r == (if self.block_ends_starts@.contains_key(pos) {
                Some(self.block_ends_starts@[pos])
            } else {
                None::<usize>
            }),
    {
        match self.block_ends_starts.get(&pos) {
            Some(o) => Some(*o),
            None => None,
        }
    }
}

/// Pairs the brackets of a program in one scan with a stack of open `[`
/// positions. Fails at the first `]` that has nothing to close, or else names
/// the outermost `[` left open.
pub fn extract_blocks(code: &Vec<BfCommand>) -> (r: Result<JumpTable, BfError>)
    ensures
        blocks_result(code@, r),
{
    let mut starts_ends: HashMap<usize, usize> = HashMap::new();
    let mut ends_starts: HashMap<usize, usize> = HashMap::new();
    let mut open: Vec<usize> = Vec::new();
    let n: usize = code.len();
    let mut i: usize = 0;
    while i < n
        invariant
            n == code@.len(),
            i <= n,
            never_negative(code@, i as int),
            open@.len() == depth(code@, i as int),
            forall|k: int|
                0 <= k < open@.len() ==> {
                    &&& #[trigger] open@[k] < i
                    &&& code@[open@[k] as int] == BfCommand::BlockStart
                    &&& depth(code@, open@[k] as int) == k
                    &&& forall|j: int| open@[k] < j <= i ==> #[trigger] depth(code@, j) > k
                },
            forall|o: usize| #[trigger]
                starts_ends@.contains_key(o) ==> starts_ends@[o] < i && matched(
                    code@,
                    o as int,
                    starts_ends@[o] as int,
                ),
            forall|c: usize| #[trigger]
                ends_starts@.contains_key(c) ==> c < i && matched(
                    code@,
                    ends_starts@[c] as int,
                    c as int,
                ),
            forall|o: usize, c: usize| #[trigger]
                matched(code@, o as int, c as int) && c < i ==> starts_ends@.contains_key(o)
                    && starts_ends@[o] == c && ends_starts@.contains_key(c) && ends_starts@[c]
                    == o,
            forall|o: usize|
                o < i && code@[o as int] == BfCommand::BlockStart && !(
                #[trigger] starts_ends@.contains_key(o)) ==> depth(code@, o as int)
                    < open@.len() && open@[depth(code@, o as int)] == o,
            forall|c: usize|
                c < i && code@[c as int] == BfCommand::BlockEnd ==> #[trigger] ends_starts@.contains_key(c),
        decreases n - i,
    {
        assert(depth(code@, i + 1) == depth(code@, i as int) + bracket_step(code@[i as int]));
        match code[i] {
            BfCommand::BlockStart => {
                open.push(i);
            },
            BfCommand::BlockEnd => {
                match open.pop() {
                    None => {
                        return Err(BfError::UnmatchedLoopClose(i));
                    },
                    Some(start) => {
                        proof {
                            assert(matched(code@, start as int, i as int));
                            assert forall|o: usize| starts_ends@.contains_key(o)
                                implies o != start by {
                                if o == start {
                                    lemma_close_unique(
                                        code@,
                                        o as int,
                                        starts_ends@[o] as int,
                                        i as int,
                                    );
                                }
                            }
                        }
                        starts_ends.insert(start, i);
                        ends_starts.insert(i, start);
                    },
                }
            },
            _ => {},
        }
        proof {
            assert forall|j: int| 0 <= j <= i + 1 implies #[trigger] depth(code@, j) >= 0 by {
                if j <= i {
                    assert(never_negative(code@, i as int));
                }
            }
        }
        i += 1;
    }
    if open.len() > 0 {
        return Err(BfError::UnmatchedLoopOpen(open[0]));
    }
    Ok(JumpTable { block_starts_ends: starts_ends, block_ends_starts: ends_starts })
}

} // verus!
