use vstd::prelude::*;

verus! {

/// The tape as seen from the cursor. Reading `left`, then `middle`, then
/// `right` backwards gives the visited cells in address order; every cell
/// beyond either end holds zero.
pub struct TapeModel {
    pub left: Seq<i32>,
    pub middle: i32,
    pub right: Seq<i32>,
}

/// Adds one to a cell, wrapping from `i32::MAX` to `i32::MIN`.
pub open spec fn wrapped_incr(v: i32) -> i32 {
    if v == i32::MAX {
        i32::MIN
    } else {
        (v + 1) as i32
    }
}

/// Subtracts one from a cell, wrapping from `i32::MIN` to `i32::MAX`.
pub open spec fn wrapped_decr(v: i32) -> i32 {
    if v == i32::MIN {
        i32::MAX
    } else {
        (v - 1) as i32
    }
}

impl TapeModel {
    /// A tape of zeros.
    pub open spec fn zeroed() -> TapeModel {
        TapeModel { left: Seq::empty(), middle: 0, right: Seq::empty() }
    }

    /// The cell `k` places to the right of the cursor (to the left for a
    /// negative `k`).
    pub open spec fn cell(self, k: int) -> i32 {
        if k == 0 {
            self.middle
        } else if k < 0 {
            if -k <= self.left.len() {
                self.left[self.left.len() + k]
            } else {
                0
            }
        } else {
            if k <= self.right.len() {
                self.right[self.right.len() - k]
            } else {
                0
            }
        }
    }

    /// The cursor one cell to the right; the cell it leaves is kept on the left.
    pub open spec fn moved_right(self) -> TapeModel {
        TapeModel {
            left: self.left.push(self.middle),
            middle: if self.right.len() > 0 { self.right.last() } else { 0 },
            right: if self.right.len() > 0 { self.right.drop_last() } else { self.right },
        }
    }

    /// The cursor one cell to the left; the cell it leaves is kept on the right.
    pub open spec fn moved_left(self) -> TapeModel {
        TapeModel {
            left: if self.left.len() > 0 { self.left.drop_last() } else { self.left },
            middle: if self.left.len() > 0 { self.left.last() } else { 0 },
            right: self.right.push(self.middle),
        }
    }

    pub open spec fn incremented(self) -> TapeModel {
        TapeModel { middle: wrapped_incr(self.middle), ..self }
    }

    pub open spec fn decremented(self) -> TapeModel {
        TapeModel { middle: wrapped_decr(self.middle), ..self }
    }

    /// The tape after `n` moves to the right.
    pub open spec fn moved_right_n(self, n: nat) -> TapeModel
        decreases n,
    {
        if n == 0 {
            self
        } else {
            self.moved_right_n((n - 1) as nat).moved_right()
        }
    }

    /// The tape after `n` moves to the left.
    pub open spec fn moved_left_n(self, n: nat) -> TapeModel
        decreases n,
    {
        if n == 0 {
            self
        } else {
            self.moved_left_n((n - 1) as nat).moved_left()
        }
    }

    /// The tape after a run of changes to the current cell: `true` adds one,
    /// `false` subtracts one.
    pub open spec fn adjusted(self, ops: Seq<bool>) -> TapeModel
        decreases ops.len(),
    {
        if ops.len() == 0 {
            self
        } else {
            let t = self.adjusted(ops.drop_last());
            if ops.last() {
                t.incremented()
            } else {
                t.decremented()
            }
        }
    }
}

/// The tape: the cells left of the cursor, the current cell, and the cells
/// right of the cursor, the nearest one last.
pub struct BfMemory {
    pub right: Vec<i32>,
    pub middle: i32,
    pub left: Vec<i32>,
}

impl View for BfMemory {
    type V = TapeModel;

    open spec fn view(&self) -> TapeModel {
        TapeModel { left: self.left@, middle: self.middle, right: self.right@ }
    }
}

impl BfMemory {
    /// A tape of zeros.
    pub fn new() -> (r: BfMemory)
        ensures
            r@ == TapeModel::zeroed(),
    {
        BfMemory { right: Vec::new(), middle: 0, left: Vec::new() }
    }
}

pub fn move_cursor_right(memory: &mut BfMemory)
    ensures
        final(memory)@ == old(memory)@.moved_right(),
{
    let new_middle = memory.right.pop();
    memory.left.push(memory.middle);
    match new_middle {
        None => {
            memory.middle = 0;
        },
        Some(x) => {
            memory.middle = x;
        },
    }
}

pub fn move_cursor_left(memory: &mut BfMemory)
    ensures
        final(memory)@ == old(memory)@.moved_left(),
{
    let new_middle = memory.left.pop();
    memory.right.push(memory.middle);
    match new_middle {
        None => {
            memory.middle = 0;
        },
        Some(x) => {
            memory.middle = x;
        },
    }
}

/// Adds one to the current cell, wrapping on overflow.
pub fn incr_val(memory: &mut BfMemory)
    ensures
        final(memory)@ == old(memory)@.incremented(),
{
    memory.middle = if memory.middle == i32::MAX {
        i32::MIN
    } else {
        memory.middle + 1
    };
}

/// Subtracts one from the current cell, wrapping on underflow.
pub fn decr_val(memory: &mut BfMemory)
    ensures
        final(memory)@ == old(memory)@.decremented(),
{
    memory.middle = if memory.middle == i32::MIN {
        i32::MAX
    } else {
        memory.middle - 1
    };
}

/// Moving right shifts every cell one place towards the cursor.
pub proof fn lemma_moved_right_cells(t: TapeModel)
    ensures
        forall|k: int| #[trigger] t.moved_right().cell(k) == t.cell(k + 1),
{
}

/// Moving left shifts every cell one place away from the cursor.
pub proof fn lemma_moved_left_cells(t: TapeModel)
    ensures
        forall|k: int| #[trigger] t.moved_left().cell(k) == t.cell(k - 1),
{
}

/// Adding one and then subtracting one leaves the tape as it was.
pub proof fn lemma_incr_then_decr(t: TapeModel)
    ensures
        t.incremented().decremented() == t,
{
}

/// Subtracting one and then adding one leaves the tape as it was.
pub proof fn lemma_decr_then_incr(t: TapeModel)
    ensures
        t.decremented().incremented() == t,
{
}

proof fn lemma_moved_right_n_cells(t: TapeModel, n: nat)
    ensures
        forall|k: int| #[trigger] t.moved_right_n(n).cell(k) == t.cell(k + n),
        t.moved_right_n(n).left.len() == t.left.len() + n,
        t.moved_right_n(n).left.subrange(0, t.left.len() as int) == t.left,
    decreases n,
{
    if n > 0 {
        let m = (n - 1) as nat;
        lemma_moved_right_n_cells(t, m);
        lemma_moved_right_cells(t.moved_right_n(m));
        assert forall|k: int| #[trigger] t.moved_right_n(n).cell(k) == t.cell(k + n) by {
            assert(t.moved_right_n(n).cell(k) == t.moved_right_n(m).cell(k + 1));
        }
        let l = t.moved_right_n(m).left;
        assert(l.push(t.moved_right_n(m).middle).subrange(0, t.left.len() as int) =~= l.subrange(
            0,
            t.left.len() as int,
        ));
    }
}

proof fn lemma_moved_left_n_cells(t: TapeModel, n: nat)
    ensures
        forall|k: int| #[trigger] t.moved_left_n(n).cell(k) == t.cell(k - n),
        n <= t.left.len() ==> t.moved_left_n(n).left == t.left.subrange(
            0,
            t.left.len() - n,
        ),
    decreases n,
{
    if n > 0 {
        let m = (n - 1) as nat;
        lemma_moved_left_n_cells(t, m);
        lemma_moved_left_cells(t.moved_left_n(m));
        assert forall|k: int| #[trigger] t.moved_left_n(n).cell(k) == t.cell(k - n) by {
            assert(t.moved_left_n(n).cell(k) == t.moved_left_n(m).cell(k - 1));
        }
        if n <= t.left.len() {
            assert(t.moved_left_n(m).left.drop_last() =~= t.left.subrange(0, t.left.len() - n));
        }
    }
}

proof fn lemma_adjusted_keeps_others(t: TapeModel, ops: Seq<bool>)
    ensures
        t.adjusted(ops).left == t.left,
        t.adjusted(ops).right == t.right,
        forall|k: int| k != 0 ==> #[trigger] t.adjusted(ops).cell(k) == t.cell(k),
    decreases ops.len(),
{
    if ops.len() > 0 {
        lemma_adjusted_keeps_others(t, ops.drop_last());
    }
}

/// Moving right `n` times, changing the cell reached there, and moving left
/// `n` times brings the cursor back to where it was: the cells on its left
/// are as before, and every cell but the one changed holds its old value,
/// the starting cell included.
pub proof fn lemma_round_trip(t: TapeModel, n: nat, ops: Seq<bool>)
    requires
        n > 0 || ops.len() == 0,
    ensures
        ({
            let away = t.moved_right_n(n).adjusted(ops);
            let back = away.moved_left_n(n);
            &&& back.left == t.left
            &&& back.middle == t.middle
            &&& back.cell(n as int) == away.middle
            &&& forall|k: int| k != n ==> #[trigger] back.cell(k) == t.cell(k)
        }),
{
    let there = t.moved_right_n(n);
    let away = there.adjusted(ops);
    let back = away.moved_left_n(n);
    lemma_moved_right_n_cells(t, n);
    lemma_adjusted_keeps_others(there, ops);
    lemma_moved_left_n_cells(away, n);
    assert(back.left =~= t.left);
    assert(back.cell(0) == t.cell(0));
    assert forall|k: int| k != n implies #[trigger] back.cell(k) == t.cell(k) by {
        assert(back.cell(k) == away.cell(k - n));
        assert(away.cell(k - n) == there.cell(k - n));
    }
}

} // verus!
