//! The tape that a program works on, and what each instruction does to it.
use vstd::prelude::*;

verus! {

/// The number of cells on the tape.
pub const CELL_AMOUNT: usize = 300000;

/// `cell` plus `n`, wrapping at 256.
pub open spec fn added(cell: u8, n: nat) -> u8 {
    ((cell + n) % 256) as u8
}

/// `cell` minus `n`, wrapping at 256.
pub open spec fn subtracted(cell: u8, n: nat) -> u8 {
    ((cell - n) % 256) as u8
}

/// The cell value that reading the character `c` stores: its code point, of
/// which only the low eight bits fit.
pub open spec fn byte_of(c: char) -> u8 {
    (c as u32 % 256) as u8
}

/// The character that printing the cell value `b` writes: the one whose code
/// point is `b`.
pub open spec fn char_of(b: u8) -> char {
    b as char
}

/// A line of input without the line feed that ends it, if one does.
pub open spec fn without_terminator(line: Seq<char>) -> Seq<char> {
    if line.len() > 0 && line.last() == '\n' {
        line.drop_last()
    } else {
        line
    }
}

/// The data that a program works on: the cells, the index of the current
/// cell, and the input characters that were read but not yet consumed, the
/// next one first.
pub struct Tape {
    pub cells: Seq<u8>,
    pub cursor: int,
    pub input: Seq<char>,
}

impl Tape {
    /// The tape has its full length and the cursor is on it.
    pub open spec fn well_formed(self) -> bool {
        &&& self.cells.len() == CELL_AMOUNT
        &&& 0 <= self.cursor < CELL_AMOUNT
    }

    /// The tape before anything ran: all cells zero, the cursor in the
    /// middle, no input pending.
    pub open spec fn blank() -> Tape {
        Tape {
            cells: Seq::new(CELL_AMOUNT as nat, |i: int| 0u8),
            cursor: CELL_AMOUNT as int / 2,
            input: Seq::empty(),
        }
    }

    /// The value of the current cell.
    pub open spec fn current(self) -> u8 {
        self.cells[self.cursor]
    }

    /// The tape with the current cell set to `value`.
    pub open spec fn store(self, value: u8) -> Tape {
        Tape { cells: self.cells.update(self.cursor, value), ..self }
    }

    /// The effect of adding `n` to the current cell.
    pub open spec fn increase(self, n: nat) -> Tape {
        self.store(added(self.current(), n))
    }

    /// The effect of subtracting `n` from the current cell.
    pub open spec fn decrease(self, n: nat) -> Tape {
        self.store(subtracted(self.current(), n))
    }

    /// The effect of moving the cursor `n` cells to the right, round the end
    /// of the tape to its start.
    pub open spec fn right(self, n: nat) -> Tape {
        Tape { cursor: (self.cursor + n) % (CELL_AMOUNT as int), ..self }
    }

    /// The effect of moving the cursor `n` cells to the left, round the start
    /// of the tape to its end.
    pub open spec fn left(self, n: nat) -> Tape {
        Tape { cursor: (self.cursor - n) % (CELL_AMOUNT as int), ..self }
    }

    /// The effect of consuming one character of pending input into the
    /// current cell; nothing changes when none is pending.
    pub open spec fn read(self) -> Tape {
        if self.input.len() > 0 {
            Tape { input: self.input.drop_first(), ..self.store(byte_of(self.input.first())) }
        } else {
            self
        }
    }

    /// The effect of receiving a line of input: its characters queue up
    /// behind those already pending, without the line's terminator.
    pub open spec fn feed(self, line: Seq<char>) -> Tape {
        Tape { input: self.input + without_terminator(line), ..self }
    }
}

/// The tape after the current cell was incremented by one, `times` times.
pub open spec fn incremented(tape: Tape, times: nat) -> Tape
    decreases times,
{
    if times == 0 {
        tape
    } else {
        incremented(tape, (times - 1) as nat).increase(1)
    }
}

/// The tape after the current cell was decremented by one, `times` times.
pub open spec fn decremented(tape: Tape, times: nat) -> Tape
    decreases times,
{
    if times == 0 {
        tape
    } else {
        decremented(tape, (times - 1) as nat).decrease(1)
    }
}

/// The tape after the cursor moved one cell to the right, `times` times.
pub open spec fn stepped_right(tape: Tape, times: nat) -> Tape
    decreases times,
{
    if times == 0 {
        tape
    } else {
        stepped_right(tape, (times - 1) as nat).right(1)
    }
}

/// The tape after the cursor moved one cell to the left, `times` times.
pub open spec fn stepped_left(tape: Tape, times: nat) -> Tape
    decreases times,
{
    if times == 0 {
        tape
    } else {
        stepped_left(tape, (times - 1) as nat).left(1)
    }
}

/// Every instruction leaves a well-formed tape well-formed.
pub proof fn lemma_tape_stays_well_formed(tape: Tape, n: nat, line: Seq<char>)
    requires
        tape.well_formed(),
    ensures
        tape.increase(n).well_formed(),
        tape.decrease(n).well_formed(),
        tape.right(n).well_formed(),
        tape.left(n).well_formed(),
        tape.read().well_formed(),
        tape.feed(line).well_formed(),
{
}

/// Adding `a` and then `b` to a cell is adding their sum, and adding nothing
/// changes nothing.
pub proof fn lemma_increase_adds_up(tape: Tape, a: nat, b: nat)
    requires
        tape.well_formed(),
    ensures
        tape.increase(a).increase(b) == tape.increase(a + b),
        tape.increase(0) == tape,
{
    assert(tape.increase(a).increase(b).cells =~= tape.increase(a + b).cells);
    assert(tape.increase(0).cells =~= tape.cells);
}

/// Subtracting `a` and then `b` from a cell is subtracting their sum, and
/// subtracting nothing changes nothing.
pub proof fn lemma_decrease_adds_up(tape: Tape, a: nat, b: nat)
    requires
        tape.well_formed(),
    ensures
        tape.decrease(a).decrease(b) == tape.decrease(a + b),
        tape.decrease(0) == tape,
{
    assert(tape.decrease(a).decrease(b).cells =~= tape.decrease(a + b).cells);
    assert(tape.decrease(0).cells =~= tape.cells);
}

/// Moving right by `a` and then by `b` is moving right by their sum, and
/// moving by nothing changes nothing.
pub proof fn lemma_right_adds_up(tape: Tape, a: nat, b: nat)
    requires
        tape.well_formed(),
    ensures
        tape.right(a).right(b) == tape.right(a + b),
        tape.right(0) == tape,
{
}

/// Moving left by `a` and then by `b` is moving left by their sum, and moving
/// by nothing changes nothing.
pub proof fn lemma_left_adds_up(tape: Tape, a: nat, b: nat)
    requires
        tape.well_formed(),
    ensures
        tape.left(a).left(b) == tape.left(a + b),
        tape.left(0) == tape,
{
}

/// Cell arithmetic wraps at 256: 256 more or less is no change at all.
pub proof fn lemma_cell_wraps(tape: Tape, n: nat)
    requires
        tape.well_formed(),
    ensures
        tape.increase(n + 256) == tape.increase(n),
        tape.decrease(n + 256) == tape.decrease(n),
        tape.increase(256) == tape,
        tape.decrease(256) == tape,
{
    assert(tape.increase(256).cells =~= tape.cells);
    assert(tape.decrease(256).cells =~= tape.cells);
}

/// The cursor wraps at the length of the tape: that many cells further, to
/// either side, is the same cell.
pub proof fn lemma_cursor_wraps(tape: Tape, n: nat)
    requires
        tape.well_formed(),
    ensures
        tape.right(n + CELL_AMOUNT as nat) == tape.right(n),
        tape.left(n + CELL_AMOUNT as nat) == tape.left(n),
        tape.right(CELL_AMOUNT as nat) == tape,
        tape.left(CELL_AMOUNT as nat) == tape,
{
}

/// Subtracting undoes adding and adding undoes subtracting; moving left
/// undoes moving right and moving right undoes moving left.
pub proof fn lemma_opposites_cancel(tape: Tape, n: nat)
    requires
        tape.well_formed(),
    ensures
        tape.increase(n).decrease(n) == tape,
        tape.decrease(n).increase(n) == tape,
        tape.right(n).left(n) == tape,
        tape.left(n).right(n) == tape,
{
    assert(tape.increase(n).decrease(n).cells =~= tape.cells);
    assert(tape.decrease(n).increase(n).cells =~= tape.cells);
}

/// Incrementing or decrementing a cell one by one, or moving the cursor cell
/// by cell, comes to the same as doing it in one instruction with a count.
pub proof fn lemma_one_by_one(tape: Tape, times: nat)
    requires
        tape.well_formed(),
    ensures
        incremented(tape, times) == tape.increase(times),
        decremented(tape, times) == tape.decrease(times),
        stepped_right(tape, times) == tape.right(times),
        stepped_left(tape, times) == tape.left(times),
    decreases times,
{
    if times == 0 {
        lemma_increase_adds_up(tape, 0, 0);
        lemma_decrease_adds_up(tape, 0, 0);
        lemma_right_adds_up(tape, 0, 0);
        lemma_left_adds_up(tape, 0, 0);
    } else {
        let fewer = (times - 1) as nat;
        lemma_one_by_one(tape, fewer);
        lemma_increase_adds_up(tape, fewer, 1);
        lemma_decrease_adds_up(tape, fewer, 1);
        lemma_right_adds_up(tape, fewer, 1);
        lemma_left_adds_up(tape, fewer, 1);
    }
}

/// Incrementing a cell 256 times returns it to its value, and so does
/// decrementing it 256 times.
pub proof fn lemma_cell_comes_round(tape: Tape)
    requires
        tape.well_formed(),
    ensures
        incremented(tape, 256) == tape,
        decremented(tape, 256) == tape,
{
    lemma_one_by_one(tape, 256);
    lemma_cell_wraps(tape, 0);
}

/// Moving the cursor one cell to the right as many times as the tape has
/// cells returns it to its cell, and so does moving it to the left.
pub proof fn lemma_cursor_comes_round(tape: Tape)
    requires
        tape.well_formed(),
    ensures
        stepped_right(tape, CELL_AMOUNT as nat) == tape,
        stepped_left(tape, CELL_AMOUNT as nat) == tape,
{
    lemma_one_by_one(tape, CELL_AMOUNT as nat);
    lemma_cursor_wraps(tape, 0);
}

} // verus!
