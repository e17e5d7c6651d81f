//! A run as seen from outside: the machine together with the input that is
//! still to come and the output so far, and a caller that does what the
//! machine asks.
use vstd::prelude::*;
use crate::machine::{machine, Action, Frame, Machine};
use crate::tape::Tape;

verus! {

/// What a program works on and with: the tape, the lines that the input will
/// still deliver, each as it will be read, and the characters written so far.
pub struct World {
    pub tape: Tape,
    pub lines: Seq<Seq<char>>,
    pub output: Seq<char>,
}

impl World {
    /// The world with another tape.
    pub open spec fn on(self, tape: Tape) -> World {
        World { tape, ..self }
    }

    /// The world after `c` was written.
    pub open spec fn write(self, c: char) -> World {
        World { output: self.output.push(c), ..self }
    }

    /// The world after a read instruction. A pending character is consumed.
    /// When none is pending, the next line of input is read and queued, and
    /// its first character, if it has one, is consumed. When there is no
    /// line left either, nothing changes.
    pub open spec fn read(self) -> World {
        if self.tape.input.len() > 0 {
            self.on(self.tape.read())
        } else if self.lines.len() > 0 {
            World {
                tape: self.tape.feed(self.lines.first()).read(),
                lines: self.lines.drop_first(),
                ..self
            }
        } else {
            self
        }
    }
}

/// A run in progress: the frames of the machine and the world it runs in.
pub struct Session {
    pub frames: Seq<Frame>,
    pub world: World,
}

/// The session made of `frames` and `world`.
pub open spec fn session(frames: Seq<Frame>, world: World) -> Session {
    Session { frames, world }
}

impl Session {
    /// The machine of the session.
    pub open spec fn machine(self) -> Machine {
        machine(self.world.tape, self.frames)
    }

    /// The session with its machine replaced by `m`.
    pub open spec fn with(self, m: Machine) -> Session {
        session(m.frames, self.world.on(m.tape))
    }

    /// The program has ended.
    pub open spec fn halted(self) -> bool {
        self.machine().step().1 == Action::Halt
    }

    /// The session after the machine has become `m` and asked for `action`,
    /// and the caller has done it: written the character, or handed over the
    /// next line of input, or reported that there is none.
    pub open spec fn served(self, m: Machine, action: Action) -> Session {
        match action {
            Action::Write(c) => session(m.frames, self.world.on(m.tape).write(c)),
            Action::ReadLine => if self.world.lines.len() > 0 {
                let answered = m.given_line(self.world.lines.first());
                session(
                    answered.frames,
                    World {
                        tape: answered.tape,
                        lines: self.world.lines.drop_first(),
                        ..self.world
                    },
                )
            } else {
                self.with(m.given_end())
            },
            _ => self.with(m),
        }
    }

    /// One step of the machine, served.
    pub open spec fn turn(self) -> Session {
        let (m, action) = self.machine().step();
        self.served(m, action)
    }

    /// `n` steps of the machine, each served.
    pub open spec fn turns(self, n: nat) -> Session
        decreases n,
    {
        if n == 0 {
            self
        } else {
            self.turn().turns((n - 1) as nat)
        }
    }

    /// One run of the machine with a budget of steps, served at its end.
    pub open spec fn call(self, budget: nat) -> Session {
        let (m, action) = self.machine().run(budget);
        self.served(m, action)
    }

    /// `n` runs of the machine with a budget of steps each, each served.
    pub open spec fn calls(self, budget: nat, n: nat) -> Session
        decreases n,
    {
        if n == 0 {
            self
        } else {
            self.call(budget).calls(budget, (n - 1) as nat)
        }
    }
}

/// Turns add up.
pub proof fn lemma_turns_in_parts(s: Session, a: nat, b: nat)
    ensures
        s.turns(a + b) == s.turns(a).turns(b),
    decreases a,
{
    if a > 0 {
        lemma_turns_in_parts(s.turn(), (a - 1) as nat, b);
    }
}

/// A session whose program has ended stays as it is.
pub proof fn lemma_halted_stays(s: Session, n: nat)
    requires
        s.halted(),
    ensures
        s.turns(n) == s,
    decreases n,
{
    if n > 0 {
        assert(s.turn() == s);
        lemma_halted_stays(s, (n - 1) as nat);
    }
}

/// A run with a budget is a number of steps: at least one, if the budget
/// allows one, and no more than the budget.
pub proof fn lemma_call_is_turns(s: Session, budget: nat) -> (n: nat)
    requires
        budget > 0,
    ensures
        1 <= n <= budget,
        s.call(budget) == s.turns(n),
    decreases budget,
{
    let (m, action) = s.machine().step();
    if action == Action::Continue && budget > 1 {
        assert(s.call(budget) == s.turn().call((budget - 1) as nat));
        let rest = lemma_call_is_turns(s.turn(), (budget - 1) as nat);
        rest + 1
    } else {
        assert(m.run(0) == (m, Action::Continue));
        assert(s.turn().turns(0) == s.turn());
        1
    }
}

/// Runs with a budget are steps, at least as many as there were runs.
pub proof fn lemma_calls_are_turns(s: Session, budget: nat, calls: nat) -> (n: nat)
    requires
        budget > 0,
    ensures
        n >= calls,
        s.calls(budget, calls) == s.turns(n),
    decreases calls,
{
    if calls == 0 {
        0
    } else {
        let first = lemma_call_is_turns(s, budget);
        let rest = lemma_calls_are_turns(s.call(budget), budget, (calls - 1) as nat);
        lemma_turns_in_parts(s, first, rest);
        first + rest
    }
}

/// However the caller sets the budget, the run ends as it does step by
/// step: if the program has ended after `n` steps, it has after `n` runs
/// with any budget that allows a step, and the session is the same.
pub proof fn lemma_budget_is_immaterial(s: Session, budget: nat, n: nat)
    requires
        budget > 0,
        s.turns(n).halted(),
    ensures
        s.calls(budget, n) == s.turns(n),
{
    let more = lemma_calls_are_turns(s, budget, n);
    lemma_turns_in_parts(s, n, (more - n) as nat);
    lemma_halted_stays(s.turns(n), (more - n) as nat);
}

} // verus!
