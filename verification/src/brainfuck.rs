//! Instructions and the execution context they run in.
use std::collections::VecDeque;
use vstd::prelude::*;
use crate::machine::{frame, machine, Action, Frame, Machine};
use crate::program::Op;
use crate::source::characters;
use crate::tape::{char_of, without_terminator, Tape, CELL_AMOUNT};

verus! {

/// One step of a program. The counted variants stand for a run of the same
/// operator; a loop owns its body.
#[derive(Debug, PartialEq, Eq)]
pub enum Instruction {
    IncreaseCell(usize),
    DecreaseCell(usize),
    MoveRight(usize),
    MoveLeft(usize),
    PrintCharacter,
    ReadCharacter,
    Loop(Vec<Instruction>),
}

impl Instruction {
    /// The instruction as a mathematical value.
    pub open spec fn model(self) -> Op
        decreases self,
    {
        match self {
            Instruction::IncreaseCell(n) => Op::Increase(n as nat),
            Instruction::DecreaseCell(n) => Op::Decrease(n as nat),
            Instruction::MoveRight(n) => Op::Right(n as nat),
            Instruction::MoveLeft(n) => Op::Left(n as nat),
            Instruction::PrintCharacter => Op::Print,
            Instruction::ReadCharacter => Op::Read,
            Instruction::Loop(body) => Op::Loop(models(body@)),
        }
    }
}

/// A sequence of instructions as a mathematical program.
pub open spec fn models(s: Seq<Instruction>) -> Seq<Op>
    decreases s,
{
    // Only indices below the length are ever asked for.
    Seq::new(
        s.len(),
        |i: int|
            if 0 <= i < s.len() {
                s[i].model()
            } else {
                Op::Print
            },
    )
}

/// Appending an instruction appends its model.
pub proof fn lemma_models_push(s: Seq<Instruction>, instruction: Instruction)
    ensures
        models(s.push(instruction)) == models(s).push(instruction.model()),
{
}

/// Replacing an instruction replaces its model.
pub proof fn lemma_models_update(s: Seq<Instruction>, at: int, instruction: Instruction)
    requires
        0 <= at < s.len(),
    ensures
        models(s.update(at, instruction)) == models(s).update(at, instruction.model()),
{
}

/// Why a run was abandoned.
#[derive(Debug, Clone, Copy, PartialEq, Eq)]
pub enum RuntimeError {
    /// Writing the output or reading the input failed.
    IoFailure,
}

impl RuntimeError {
    /// A sentence that says why the run was abandoned.
    pub fn message(&self) -> (text: String)
        ensures
            text@ == "Input or output failed."@,
    {
        "Input or output failed.".to_owned()
    }
}

/// What happened outside since the interpreter last handed control back.
#[derive(Debug)]
pub enum Event {
    /// Nothing that the interpreter has to know of: the run starts, or the
    /// character it asked to have written was written, or it had paused.
    Resume,
    /// A line was read, given here as it came, its terminator included.
    Line(String),
    /// The input has ended: there is no line to read and there never will be.
    EndOfInput,
    /// The write or the read that the interpreter asked for failed.
    IoFailure,
}

impl Event {
    /// The machine as the event leaves it. A line is queued as input; a line
    /// or the end of input then answers the read that the machine is on.
    pub open spec fn applied(self, m: Machine) -> Machine {
        match self {
            Event::Line(line) => m.given_line(line@),
            Event::EndOfInput => m.given_end(),
            _ => m,
        }
    }
}

/// The tape, the cursor and the pending input of one run of a program.
pub struct BrainfuckContext {
    cells: Vec<u8>,
    cell_index: usize,
    input_queue: VecDeque<char>,
}

impl View for BrainfuckContext {
    type V = Tape;

    closed spec fn view(&self) -> Tape {
        Tape { cells: self.cells@, cursor: self.cell_index as int, input: self.input_queue@ }
    }
}

impl BrainfuckContext {
    #[verifier::type_invariant]
    spec fn well_formed(self) -> bool {
        self@.well_formed()
    }

    /// A context with every cell zero, the cursor on the middle cell and no
    /// input pending.
    pub fn new() -> (context: BrainfuckContext)
        ensures
            context@ == Tape::blank(),
            context@.well_formed(),
    {
        let mut cells: Vec<u8> = Vec::new();
        let mut filled: usize = 0;
        while filled < CELL_AMOUNT
            invariant
                filled <= CELL_AMOUNT,
                cells@.len() == filled,
                forall|i: int| 0 <= i < filled ==> cells@[i] == 0,
            decreases CELL_AMOUNT - filled,
        {
            cells.push(0);
            filled = filled + 1;
        }
        let context = BrainfuckContext {
            cells,
            cell_index: CELL_AMOUNT / 2,
            input_queue: VecDeque::new(),
        };
        assert(context@.cells =~= Tape::blank().cells);
        context
    }

    /// The index of the current cell.
    pub fn cursor(&self) -> (index: usize)
        ensures
            index == self@.cursor,
            self@.well_formed(),
    {
        proof {
            use_type_invariant(self);
        }
        self.cell_index
    }

    /// The value of the cell at `index`, if the tape has such a cell.
    pub fn cell(&self, index: usize) -> (value: Option<u8>)
        ensures
            value == if index < CELL_AMOUNT {
                Some(self@.cells[index as int])
            } else {
                None
            },
    {
        proof {
            use_type_invariant(self);
        }
        if index < CELL_AMOUNT {
            Some(self.cells[index])
        } else {
            None
        }
    }

    /// The value of the current cell.
    pub fn current_cell(&self) -> (value: u8)
        ensures
            value == self@.current(),
    {
        proof {
            use_type_invariant(self);
        }
        self.cells[self.cell_index]
    }

    /// The number of input characters that were read and not yet consumed.
    pub fn pending_input(&self) -> (count: usize)
        ensures
            count == self@.input.len(),
    {
        self.input_queue.len()
    }

    /// Adds `n` to the current cell, wrapping at 256.
    pub fn increase_cell(&mut self, n: usize)
        ensures
            final(self)@ == old(self)@.increase(n as nat),
            final(self)@.well_formed(),
    {
        proof {
            use_type_invariant(&*self);
        }
        let cell = self.cells[self.cell_index];
        let sum = (cell as usize + n % 256) % 256;
        self.cells[self.cell_index] = sum as u8;
    }

    /// Subtracts `n` from the current cell, wrapping at 256.
    pub fn decrease_cell(&mut self, n: usize)
        ensures
            final(self)@ == old(self)@.decrease(n as nat),
            final(self)@.well_formed(),
    {
        proof {
            use_type_invariant(&*self);
        }
        let cell = self.cells[self.cell_index];
        let difference = (cell as usize + 256 - n % 256) % 256;
        self.cells[self.cell_index] = difference as u8;
    }

    /// Moves the cursor `n` cells to the right, round the end of the tape.
    pub fn move_right(&mut self, n: usize)
        ensures
            final(self)@ == old(self)@.right(n as nat),
            final(self)@.well_formed(),
    {
        proof {
            use_type_invariant(&*self);
        }
        self.cell_index = (self.cell_index + n % CELL_AMOUNT) % CELL_AMOUNT;
    }

    /// Moves the cursor `n` cells to the left, round the start of the tape.
    pub fn move_left(&mut self, n: usize)
        ensures
            final(self)@ == old(self)@.left(n as nat),
            final(self)@.well_formed(),
    {
        proof {
            use_type_invariant(&*self);
        }
        self.cell_index = (self.cell_index + CELL_AMOUNT - n % CELL_AMOUNT) % CELL_AMOUNT;
    }

    /// The character that printing the current cell writes.
    pub fn print_character(&self) -> (c: char)
        ensures
            c == char_of(self@.current()),
    {
        self.current_cell() as char
    }

    /// Consumes one pending input character into the current cell and says
    /// whether there was one; without one nothing changes.
    pub fn read_character(&mut self) -> (consumed: bool)
        ensures
            final(self)@ == old(self)@.read(),
            consumed == (old(self)@.input.len() > 0),
            final(self)@.well_formed(),
    {
        proof {
            use_type_invariant(&*self);
        }
        // The queue is taken out of the context to be worked on and put back.
        let mut queue: VecDeque<char> = VecDeque::new();
        core::mem::swap(&mut self.input_queue, &mut queue);
        let front = queue.pop_front();
        core::mem::swap(&mut self.input_queue, &mut queue);
        match front {
            Some(c) => {
                self.cells[self.cell_index] = (c as u32 % 256) as u8;
                true
            },
            None => false,
        }
    }

    /// Queues the characters of `line` behind the pending input, without the
    /// line feed that ends the line if one does.
    pub fn feed_line(&mut self, line: &str)
        ensures
            final(self)@ == old(self)@.feed(line@),
            final(self)@.well_formed(),
    {
        proof {
            use_type_invariant(&*self);
        }
        let chars = characters(line);
        let mut keep = chars.len();
        if keep > 0 && chars[keep - 1] == '\n' {
            keep = keep - 1;
        }
        assert(chars@.take(keep as int) =~= without_terminator(line@));
        // The queue is taken out of the context to be worked on and put back.
        let mut queue: VecDeque<char> = VecDeque::new();
        core::mem::swap(&mut self.input_queue, &mut queue);
        let mut fed: usize = 0;
        while fed < keep
            invariant
                fed <= keep <= chars.len(),
                queue@ == old(self)@.input + chars@.take(fed as int),
            decreases keep - fed,
        {
            queue.push_back(chars[fed]);
            fed = fed + 1;
        }
        core::mem::swap(&mut self.input_queue, &mut queue);
    }
}

/// One instruction sequence that is being run, and where in it.
#[derive(Clone, Copy)]
struct Activation<'a> {
    body: &'a [Instruction],
    next: usize,
}

impl<'a> Activation<'a> {
    spec fn model(self) -> Frame {
        frame(models(self.body@), self.next as int)
    }
}

/// Where a run of a program stands: the program itself and each loop that is
/// being executed, with the place in each at which to go on.
pub struct Execution<'a> {
    stack: Vec<Activation<'a>>,
}

impl<'a> View for Execution<'a> {
    type V = Seq<Frame>;

    closed spec fn view(&self) -> Seq<Frame> {
        Seq::new(self.stack@.len(), |i: int| self.stack@[i].model())
    }
}

impl<'a> Execution<'a> {
    /// A run of `program` that is about to execute its first instruction.
    pub fn new(program: &'a [Instruction]) -> (execution: Execution<'a>)
        ensures
            execution@ == seq![frame(models(program@), 0)],
    {
        let mut stack: Vec<Activation<'a>> = Vec::new();
        stack.push(Activation { body: program, next: 0 });
        let execution = Execution { stack };
        execution
    }

    /// The number of loops that are being executed.
    pub fn depth(&self) -> (depth: usize)
        ensures
            depth == if self@.len() == 0 {
                0
            } else {
                self@.len() - 1
            },
    {
        if self.stack.len() == 0 {
            0
        } else {
            self.stack.len() - 1
        }
    }

    /// Sets the place at which the innermost sequence goes on.
    fn jump(&mut self, next: usize)
        requires
            old(self)@.len() > 0,
        ensures
            final(self)@ == old(self)@.update(
                old(self)@.len() - 1,
                frame(old(self)@.last().body, next as int),
            ),
    {
        let top = self.stack.len() - 1;
        let body = self.stack[top].body;
        self.stack.set(top, Activation { body, next });
        assert(self@ =~= old(self)@.update(
            old(self)@.len() - 1,
            frame(old(self)@.last().body, next as int),
        ));
    }

    /// Starts on `body` as the innermost sequence.
    fn enter(&mut self, body: &'a [Instruction])
        ensures
            final(self)@ == old(self)@.push(frame(models(body@), 0)),
    {
        self.stack.push(Activation { body, next: 0 });
    }

    /// Gives up the innermost sequence.
    fn leave(&mut self)
        requires
            old(self)@.len() > 0,
        ensures
            final(self)@ == old(self)@.drop_last(),
    {
        self.stack.pop();
    }
}

impl BrainfuckContext {
    /// Runs one step of `execution` on this context.
    pub fn step<'a>(&mut self, execution: &mut Execution<'a>) -> (action: Action)
        ensures
            (machine(final(self)@, final(execution)@), action) == machine(
                old(self)@,
                old(execution)@,
            ).step(),
            final(self)@.well_formed(),
    {
        proof {
            use_type_invariant(&*self);
        }
        let depth = execution.stack.len();
        if depth == 0 {
            return Action::Halt;
        }
        let top = execution.stack[depth - 1];
        if top.next >= top.body.len() {
            if depth == 1 {
                return Action::Halt;
            }
            if self.current_cell() != 0 {
                execution.jump(0);
            } else {
                execution.leave();
            }
            return Action::Continue;
        }
        match &top.body[top.next] {
            Instruction::IncreaseCell(n) => {
                execution.jump(top.next + 1);
                self.increase_cell(*n);
                Action::Continue
            },
            Instruction::DecreaseCell(n) => {
                execution.jump(top.next + 1);
                self.decrease_cell(*n);
                Action::Continue
            },
            Instruction::MoveRight(n) => {
                execution.jump(top.next + 1);
                self.move_right(*n);
                Action::Continue
            },
            Instruction::MoveLeft(n) => {
                execution.jump(top.next + 1);
                self.move_left(*n);
                Action::Continue
            },
            Instruction::PrintCharacter => {
                execution.jump(top.next + 1);
                Action::Write(self.print_character())
            },
            Instruction::ReadCharacter => {
                if self.pending_input() == 0 {
                    Action::ReadLine
                } else {
                    execution.jump(top.next + 1);
                    self.read_character();
                    Action::Continue
                }
            },
            Instruction::Loop(body) => {
                execution.jump(top.next + 1);
                if self.current_cell() != 0 {
                    execution.enter(body.as_slice());
                }
                Action::Continue
            },
        }
    }

    /// Completes the read instruction that the execution is on, if it is on
    /// one: a pending character is consumed, and without one the instruction
    /// is passed over.
    fn answer_read<'a>(&mut self, execution: &mut Execution<'a>)
        ensures
            machine(final(self)@, final(execution)@) == machine(
                old(self)@,
                old(execution)@,
            ).answer_read(),
            final(self)@.well_formed(),
    {
        proof {
            use_type_invariant(&*self);
        }
        let depth = execution.stack.len();
        if depth > 0 {
            let top = execution.stack[depth - 1];
            if top.next < top.body.len() {
                match &top.body[top.next] {
                    Instruction::ReadCharacter => {
                        execution.jump(top.next + 1);
                        self.read_character();
                    },
                    _ => {},
                }
            }
        }
    }

    /// Takes in what happened outside and runs `execution` on this context
    /// until something has to happen outside again.
    ///
    /// On [`Event::IoFailure`] the run is abandoned where it stands. On any
    /// other event the event is applied and up to `budget` steps are run:
    /// the call returns as soon as a step asks for a character to be written
    /// or a line to be read, or finds the program at its end, and returns
    /// [`Action::Continue`] if the budget runs out first. A program that
    /// loops forever thus never keeps the caller from regaining control.
    pub fn execute<'a>(
        &mut self,
        execution: &mut Execution<'a>,
        event: Event,
        budget: usize,
    ) -> (result: Result<Action, RuntimeError>)
        ensures
            final(self)@.well_formed(),
            match event {
                Event::IoFailure => {
                    &&& result == Err::<Action, RuntimeError>(RuntimeError::IoFailure)
                    &&& final(self)@ == old(self)@
                    &&& final(execution)@ == old(execution)@
                },
                _ => {
                    &&& result matches Ok(action)
                    &&& (machine(final(self)@, final(execution)@), action) == event.applied(
                        machine(old(self)@, old(execution)@),
                    ).run(budget as nat)
                },
            },
    {
        proof {
            use_type_invariant(&*self);
        }
        let ghost goal = event.applied(machine(self@, execution@)).run(budget as nat);
        match event {
            Event::IoFailure => {
                return Err(RuntimeError::IoFailure);
            },
            Event::Resume => {},
            Event::Line(line) => {
                self.feed_line(line.as_str());
                self.answer_read(execution);
            },
            Event::EndOfInput => {
                self.answer_read(execution);
            },
        }
        let mut left = budget;
        while left > 0
            invariant
                event !is IoFailure,
                goal == event.applied(machine(old(self)@, old(execution)@)).run(budget as nat),
                machine(self@, execution@).run(left as nat) == goal,
                self@.well_formed(),
            decreases left,
        {
            match self.step(execution) {
                Action::Continue => {},
                action => {
                    return Ok(action);
                },
            }
            left = left - 1;
        }
        Ok(Action::Continue)
    }
}

} // verus!
