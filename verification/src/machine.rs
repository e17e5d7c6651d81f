//! The machine that walks a program one step at a time.
use vstd::prelude::*;
use crate::program::Op;
use crate::tape::{char_of, Tape};

verus! {

/// What the interpreter asks of its caller when it hands control back.
#[derive(Debug, Clone, Copy, PartialEq, Eq)]
pub enum Action {
    /// Nothing: the step budget ran out. Resume to go on.
    Continue,
    /// Write this character to the output and flush it, then resume.
    Write(char),
    /// Read one line of input and hand it over.
    ReadLine,
    /// Nothing more: the program has ended.
    Halt,
}

/// A position in one instruction sequence: the sequence and the index of the
/// instruction to run next.
pub struct Frame {
    pub body: Seq<Op>,
    pub next: int,
}

/// A running program: the tape, and one frame for the program itself with one
/// more on top for each loop that is being executed, innermost last.
pub struct Machine {
    pub tape: Tape,
    pub frames: Seq<Frame>,
}

impl Machine {
    /// The machine about to run the first instruction of `program` on `tape`.
    pub open spec fn start(tape: Tape, program: Seq<Op>) -> Machine {
        Machine { tape, frames: seq![frame(program, 0)] }
    }

    /// The machine with the innermost frame set to continue at `next`.
    pub open spec fn at(self, next: int) -> Machine {
        Machine {
            frames: self.frames.update(
                self.frames.len() - 1,
                Frame { body: self.frames.last().body, next },
            ),
            ..self
        }
    }

    /// The machine with another tape.
    pub open spec fn on(self, tape: Tape) -> Machine {
        Machine { tape, ..self }
    }

    /// The machine with a frame for `body` pushed on top.
    pub open spec fn enter(self, body: Seq<Op>) -> Machine {
        Machine { frames: self.frames.push(Frame { body, next: 0 }), ..self }
    }

    /// The machine with the innermost frame removed.
    pub open spec fn leave(self) -> Machine {
        Machine { frames: self.frames.drop_last(), ..self }
    }

    /// The instruction to run next, if the innermost frame has one left.
    pub open spec fn pending(self) -> Option<Op> {
        if self.frames.len() > 0 && 0 <= self.frames.last().next < self.frames.last().body.len() {
            Some(self.frames.last().body[self.frames.last().next])
        } else {
            None
        }
    }

    /// One step: the machine after it, and what the caller has to do.
    ///
    /// At the end of a loop body the current cell decides: nonzero runs the
    /// body again, zero leaves the loop. At the end of the program the
    /// machine halts and stays as it is. Otherwise the next instruction runs:
    /// a loop is entered if the current cell is nonzero and skipped if it is
    /// zero; printing yields the character to write; reading consumes a
    /// pending character or, when none is pending, asks for a line and leaves
    /// the machine on the instruction.
    pub open spec fn step(self) -> (Machine, Action) {
        match self.pending() {
            None => {
                if self.frames.len() <= 1 {
                    (self, Action::Halt)
                } else if self.tape.current() != 0 {
                    (self.at(0), Action::Continue)
                } else {
                    (self.leave(), Action::Continue)
                }
            },
            Some(op) => {
                let after = self.at(self.frames.last().next + 1);
                match op {
                    Op::Increase(n) => (after.on(self.tape.increase(n)), Action::Continue),
                    Op::Decrease(n) => (after.on(self.tape.decrease(n)), Action::Continue),
                    Op::Right(n) => (after.on(self.tape.right(n)), Action::Continue),
                    Op::Left(n) => (after.on(self.tape.left(n)), Action::Continue),
                    Op::Print => (after, Action::Write(char_of(self.tape.current()))),
                    Op::Read => {
                        if self.tape.input.len() > 0 {
                            (after.on(self.tape.read()), Action::Continue)
                        } else {
                            (self, Action::ReadLine)
                        }
                    },
                    Op::Loop(body) => {
                        if self.tape.current() != 0 {
                            (after.enter(body), Action::Continue)
                        } else {
                            (after, Action::Continue)
                        }
                    },
                }
            },
        }
    }

    /// Up to `budget` steps: the machine steps until a step asks something of
    /// the caller, and hands back [`Action::Continue`] if none has by then.
    pub open spec fn run(self, budget: nat) -> (Machine, Action)
        decreases budget,
    {
        if budget == 0 {
            (self, Action::Continue)
        } else {
            let (next, action) = self.step();
            if action == Action::Continue {
                next.run((budget - 1) as nat)
            } else {
                (next, action)
            }
        }
    }

    /// The machine after a read that was asked for has been answered with
    /// what is now pending: the instruction consumes a character if there is
    /// one and is passed over if there is none. A machine that is not on a
    /// read instruction is left alone.
    pub open spec fn answer_read(self) -> Machine {
        if self.pending() == Some(Op::Read) {
            self.at(self.frames.last().next + 1).on(self.tape.read())
        } else {
            self
        }
    }

    /// The machine after a line of input was handed over: the line is queued
    /// as input and answers the read that the machine is on.
    pub open spec fn given_line(self, line: Seq<char>) -> Machine {
        self.on(self.tape.feed(line)).answer_read()
    }

    /// The machine after it was told that the input has ended, which answers
    /// the read that the machine is on.
    pub open spec fn given_end(self) -> Machine {
        self.answer_read()
    }
}

/// The machine made of `tape` and `frames`.
pub open spec fn machine(tape: Tape, frames: Seq<Frame>) -> Machine {
    Machine { tape, frames }
}

/// The frame for `body` that goes on at `next`.
pub open spec fn frame(body: Seq<Op>, next: int) -> Frame {
    Frame { body, next }
}

/// How deep the loops of `op` nest: 0 for an instruction that is no loop.
pub open spec fn nesting_of(op: Op) -> nat
    decreases op,
{
    match op {
        Op::Loop(body) => 1 + nesting(body),
        _ => 0,
    }
}

/// How deep the loops of `p` nest: 0 for a program without loops.
pub open spec fn nesting(p: Seq<Op>) -> nat
    decreases p,
{
    if p.len() == 0 {
        0
    } else if nesting(p.drop_last()) >= nesting_of(p.last()) {
        nesting(p.drop_last())
    } else {
        nesting_of(p.last())
    }
}

/// Each frame has room for the loops that its sequence nests: a frame with
/// `i` frames below it holds a sequence that nests no deeper than `limit - i`.
pub open spec fn fits(m: Machine, limit: nat) -> bool {
    forall|i: int| 0 <= i < m.frames.len() ==> i + nesting(#[trigger] m.frames[i].body) <= limit
}

/// No instruction of a program nests deeper than the program.
pub proof fn lemma_nesting_bounds_each(p: Seq<Op>, i: int)
    requires
        0 <= i < p.len(),
    ensures
        nesting_of(p[i]) <= nesting(p),
    decreases p.len(),
{
    if i < p.len() - 1 {
        lemma_nesting_bounds_each(p.drop_last(), i);
    }
}

/// A machine that is started on a program fits the nesting of the program.
pub proof fn lemma_start_fits(tape: Tape, p: Seq<Op>)
    ensures
        fits(Machine::start(tape, p), nesting(p)),
{
}

/// The stack of frames is never higher than the loops of the program nest
/// deep, the frame of the program itself not counted: whatever a machine
/// that fits a limit does, it goes on fitting it, and it has no more frames
/// than the limit and one.
pub proof fn lemma_stack_is_bounded(m: Machine, limit: nat, budget: nat, line: Seq<char>)
    requires
        fits(m, limit),
    ensures
        fits(m.step().0, limit),
        fits(m.run(budget).0, limit),
        fits(m.given_line(line), limit),
        fits(m.given_end(), limit),
        m.frames.len() <= limit + 1,
    decreases budget,
{
    if m.frames.len() > 0 {
        let top = m.frames.len() - 1;
        assert(top + nesting(m.frames[top].body) <= limit);
        if let Some(op) = m.pending() {
            lemma_nesting_bounds_each(m.frames[top].body, m.frames[top].next);
        }
    }
    if budget > 0 {
        lemma_stack_is_bounded(m.step().0, limit, (budget - 1) as nat, line);
    }
}

/// The cursor never leaves the tape: whatever the machine does, a tape that
/// is well-formed stays well-formed.
pub proof fn lemma_tape_stays_on(m: Machine, budget: nat, line: Seq<char>)
    requires
        m.tape.well_formed(),
    ensures
        m.step().0.tape.well_formed(),
        m.run(budget).0.tape.well_formed(),
        m.given_line(line).tape.well_formed(),
        m.given_end().tape.well_formed(),
    decreases budget,
{
    if budget > 0 {
        lemma_tape_stays_on(m.step().0, (budget - 1) as nat, line);
    }
}

/// A budget may be spent in parts: running `a` steps and, unless that ended
/// in a request, `b` more, is running `a + b` steps.
pub proof fn lemma_run_in_parts(m: Machine, a: nat, b: nat)
    ensures
        m.run(a + b) == if m.run(a).1 == Action::Continue {
            m.run(a).0.run(b)
        } else {
            m.run(a)
        },
    decreases a,
{
    if a > 0 {
        let (next, action) = m.step();
        if action == Action::Continue {
            lemma_run_in_parts(next, (a - 1) as nat, b);
        }
    }
}

/// A machine that has halted stays as it is and halts again, whatever the
/// budget.
pub proof fn lemma_halt_is_final(m: Machine, budget: nat)
    requires
        m.step().1 == Action::Halt,
        budget > 0,
    ensures
        m.run(budget) == (m, Action::Halt),
{
}

/// A machine that asks for a line waits on the read instruction until the
/// line is handed over.
pub proof fn lemma_read_waits(m: Machine, budget: nat)
    requires
        m.step().1 == Action::ReadLine,
        budget > 0,
    ensures
        m.run(budget) == (m, Action::ReadLine),
        m.pending() == Some(Op::Read),
        m.tape.input.len() == 0,
{
}

} // verus!
