//! What a program does, told as a whole rather than step by step, and the
//! proof that the machine and a caller that serves it do just that.
use vstd::prelude::*;
use crate::machine::{frame, Frame, Machine};
use crate::program::Op;
use crate::session::{
    lemma_budget_is_immaterial, lemma_halted_stays, lemma_turns_in_parts, session, Session,
    World,
};
use crate::tape::char_of;

verus! {

/// The world that running `op` leaves behind.
///
/// A loop whose cell is zero does nothing; otherwise its body runs and the
/// loop is met again in the world that the body left. `fuel` bounds how many
/// times in a row a loop may be met again, so that this is a definition: the
/// result is `None` where the bound is too small, and only there.
pub open spec fn effect_of(op: Op, world: World, fuel: nat) -> Option<World>
    decreases fuel, op, 0nat,
{
    match op {
        Op::Increase(n) => Some(world.on(world.tape.increase(n))),
        Op::Decrease(n) => Some(world.on(world.tape.decrease(n))),
        Op::Right(n) => Some(world.on(world.tape.right(n))),
        Op::Left(n) => Some(world.on(world.tape.left(n))),
        Op::Print => Some(world.write(char_of(world.tape.current()))),
        Op::Read => Some(world.read()),
        Op::Loop(body) => if world.tape.current() == 0 {
            Some(world)
        } else if fuel == 0 {
            None
        } else {
            match effect_from(body, 0, world, (fuel - 1) as nat) {
                Some(turned) => effect_of(op, turned, (fuel - 1) as nat),
                None => None,
            }
        },
    }
}

/// The world that running the instructions of `p` from index `from` to the
/// end leaves behind: each instruction runs in the world that the one before
/// it left.
pub open spec fn effect_from(p: Seq<Op>, from: int, world: World, fuel: nat) -> Option<World>
    decreases fuel, p, p.len() - from,
{
    if 0 <= from < p.len() {
        match effect_of(p[from], world, fuel) {
            Some(next) => effect_from(p, from + 1, next, fuel),
            None => None,
        }
    } else {
        Some(world)
    }
}

/// The world that running the whole of `p` leaves behind.
pub open spec fn effect(p: Seq<Op>, world: World, fuel: nat) -> Option<World> {
    effect_from(p, 0, world, fuel)
}

/// Fuel is a bound and nothing else: where an instruction has an effect, it
/// has the same with any more fuel.
pub proof fn lemma_more_fuel_same_effect_of(op: Op, world: World, fuel: nat, more: nat)
    requires
        fuel <= more,
        effect_of(op, world, fuel) is Some,
    ensures
        effect_of(op, world, more) == effect_of(op, world, fuel),
    decreases fuel, op, 0nat,
{
    if let Op::Loop(body) = op {
        if world.tape.current() != 0 {
            let turned = effect_from(body, 0, world, (fuel - 1) as nat)->0;
            lemma_more_fuel_same_effect(body, 0, world, (fuel - 1) as nat, (more - 1) as nat);
            lemma_more_fuel_same_effect_of(op, turned, (fuel - 1) as nat, (more - 1) as nat);
        }
    }
}

/// Fuel is a bound and nothing else: where a program has an effect, it has
/// the same with any more fuel.
pub proof fn lemma_more_fuel_same_effect(
    p: Seq<Op>,
    from: int,
    world: World,
    fuel: nat,
    more: nat,
)
    requires
        fuel <= more,
        effect_from(p, from, world, fuel) is Some,
    ensures
        effect_from(p, from, world, more) == effect_from(p, from, world, fuel),
    decreases fuel, p, p.len() - from,
{
    if 0 <= from < p.len() {
        let next = effect_of(p[from], world, fuel)->0;
        lemma_more_fuel_same_effect_of(p[from], world, fuel, more);
        lemma_more_fuel_same_effect(p, from + 1, next, fuel, more);
    }
}

/// The session whose innermost frame is `body` at `next`, above `below`.
pub open spec fn inside(below: Seq<Frame>, body: Seq<Op>, next: int, world: World) -> Session {
    session(below.push(frame(body, next)), world)
}

/// What one turn does to a session, told by its innermost frame.
proof fn lemma_turn_inside(below: Seq<Frame>, body: Seq<Op>, next: int, world: World)
    requires
        0 <= next <= body.len(),
    ensures
        ({
            let s = inside(below, body, next, world);
            if next == body.len() {
                s.turn() == if below.len() == 0 {
                    s
                } else if world.tape.current() != 0 {
                    inside(below, body, 0, world)
                } else {
                    session(below, world)
                }
            } else {
                s.turn() == match body[next] {
                    Op::Loop(inner) => if world.tape.current() != 0 {
                        inside(below.push(frame(body, next + 1)), inner, 0, world)
                    } else {
                        inside(below, body, next + 1, world)
                    },
                    op => inside(below, body, next + 1, effect_of(op, world, 0)->0),
                }
            }
        }),
        inside(below, body, next, world).halted() <==> next == body.len() && below.len() == 0,
{
    let s = inside(below, body, next, world);
    let m = s.machine();
    assert forall|k: int| #[trigger] m.at(k).frames == below.push(frame(body, k)) by {}
    assert(m.leave().frames == below);
}

/// A program does step by step what it does as a whole.
///
/// If running `p` from `from` to its end turns `world` into another world,
/// then the machine and its caller get there: in the number of turns that is
/// returned, the session that stands at `from` in `p`, with whatever frames
/// below, comes to stand at the end of `p` in that other world.
pub proof fn lemma_effect_is_acted_out(
    below: Seq<Frame>,
    p: Seq<Op>,
    from: int,
    world: World,
    fuel: nat,
) -> (turns: nat)
    requires
        0 <= from <= p.len(),
        effect_from(p, from, world, fuel) is Some,
    ensures
        inside(below, p, from, world).turns(turns) == inside(
            below,
            p,
            p.len() as int,
            effect_from(p, from, world, fuel)->0,
        ),
    decreases fuel, p, p.len() - from,
{
    let s = inside(below, p, from, world);
    if from == p.len() {
        0
    } else {
        let op = p[from];
        let next = effect_of(op, world, fuel)->0;
        lemma_turn_inside(below, p, from, world);
        assert(s.turns(1) == s.turn()) by {
            assert(s.turn().turns(0) == s.turn());
        }
        let entered: bool = op is Loop && world.tape.current() != 0;
        let through: nat = if entered {
            let above = below.push(frame(p, from + 1));
            let inner = lemma_loop_is_acted_out(above, op, world, fuel);
            lemma_turns_in_parts(s, 1, inner);
            1 + inner
        } else {
            1
        };
        assert(s.turns(through) == inside(below, p, from + 1, next));
        let rest = lemma_effect_is_acted_out(below, p, from + 1, next, fuel);
        lemma_turns_in_parts(s, through, rest);
        through + rest
    }
}

/// A loop does turn by turn what it does as a whole.
///
/// If the loop `op`, met with its cell not zero, turns `world` into another
/// world, then the session that stands at the start of the loop's body
/// comes, in the number of turns that is returned, to have left the loop in
/// that other world.
pub proof fn lemma_loop_is_acted_out(
    below: Seq<Frame>,
    op: Op,
    world: World,
    fuel: nat,
) -> (turns: nat)
    requires
        op is Loop,
        world.tape.current() != 0,
        below.len() > 0,
        effect_of(op, world, fuel) is Some,
    ensures
        inside(below, op->Loop_0, 0, world).turns(turns) == session(
            below,
            effect_of(op, world, fuel)->0,
        ),
    decreases fuel, op, 0nat,
{
    let body = op->Loop_0;
    let less = (fuel - 1) as nat;
    let turned = effect_from(body, 0, world, less)->0;
    let s = inside(below, body, 0, world);
    let through = lemma_effect_is_acted_out(below, body, 0, world, less);
    let end = inside(below, body, body.len() as int, turned);
    lemma_turn_inside(below, body, body.len() as int, turned);
    assert(end.turns(1) == end.turn()) by {
        assert(end.turn().turns(0) == end.turn());
    }
    lemma_turns_in_parts(s, through, 1);
    if turned.tape.current() != 0 {
        let again = lemma_loop_is_acted_out(below, op, turned, less);
        lemma_turns_in_parts(s, through + 1, again);
        through + 1 + again
    } else {
        through + 1
    }
}

/// The session that is about to run the first instruction of `p`.
pub open spec fn begun(p: Seq<Op>, world: World) -> Session {
    session(seq![frame(p, 0)], world)
}

/// The session that has run `p` to its end.
pub open spec fn ended(p: Seq<Op>, world: World) -> Session {
    session(seq![frame(p, p.len() as int)], world)
}

/// A session begins and ends in the frame of the program, with none below,
/// and one that has ended has halted.
pub proof fn lemma_begun_and_ended(p: Seq<Op>, world: World)
    ensures
        begun(p, world) == inside(Seq::empty(), p, 0, world),
        ended(p, world) == inside(Seq::empty(), p, p.len() as int, world),
        begun(p, world).machine() == Machine::start(world.tape, p),
        ended(p, world).halted(),
{
    assert(seq![frame(p, 0)] =~= Seq::<Frame>::empty().push(frame(p, 0)));
    assert(seq![frame(p, p.len() as int)] =~= Seq::<Frame>::empty().push(
        frame(p, p.len() as int),
    ));
    lemma_turn_inside(Seq::empty(), p, p.len() as int, world);
}

/// A whole program does step by step what it does as a whole: if `p` turns
/// `world` into another world, the session started on `p` in `world` comes,
/// in the number of turns that is returned, to the end of `p` in that other
/// world, and has halted there.
pub proof fn lemma_program_is_acted_out(p: Seq<Op>, world: World, fuel: nat) -> (turns: nat)
    requires
        effect(p, world, fuel) is Some,
    ensures
        begun(p, world).turns(turns) == ended(p, effect(p, world, fuel)->0),
        ended(p, effect(p, world, fuel)->0).halted(),
{
    lemma_begun_and_ended(p, world);
    lemma_begun_and_ended(p, effect(p, world, fuel)->0);
    lemma_effect_is_acted_out(Seq::empty(), p, 0, world, fuel)
}

/// A whole program does what it does as a whole however its caller sets the
/// budget: if `p` turns `world` into another world, the session started on
/// `p` in `world` comes to the end of `p` in that other world within the
/// number of calls that is returned, each with a budget that allows a step.
pub proof fn lemma_program_is_run(p: Seq<Op>, world: World, fuel: nat, budget: nat) -> (calls: nat)
    requires
        effect(p, world, fuel) is Some,
        budget > 0,
    ensures
        begun(p, world).calls(budget, calls) == ended(p, effect(p, world, fuel)->0),
{
    let turns = lemma_program_is_acted_out(p, world, fuel);
    lemma_budget_is_immaterial(begun(p, world), budget, turns);
    turns
}

/// A program with an effect ends in no other way: whenever the session
/// started on `p` in `world` has halted, it stands at the end of `p` in the
/// world that `p` leaves.
pub proof fn lemma_end_is_effect(p: Seq<Op>, world: World, fuel: nat, turns: nat)
    requires
        effect(p, world, fuel) is Some,
        begun(p, world).turns(turns).halted(),
    ensures
        begun(p, world).turns(turns) == ended(p, effect(p, world, fuel)->0),
{
    let start = begun(p, world);
    let enough = lemma_program_is_acted_out(p, world, fuel);
    if turns <= enough {
        lemma_turns_in_parts(start, turns, (enough - turns) as nat);
        lemma_halted_stays(start.turns(turns), (enough - turns) as nat);
    } else {
        lemma_turns_in_parts(start, enough, (turns - enough) as nat);
        lemma_halted_stays(start.turns(enough), (turns - enough) as nat);
    }
}

/// An instruction that is no loop to be entered has its effect whatever the
/// fuel.
proof fn lemma_plain_effect(op: Op, world: World, fuel: nat)
    requires
        !(op is Loop && world.tape.current() != 0),
    ensures
        effect_of(op, world, fuel) is Some,
        effect_of(op, world, fuel) == effect_of(op, world, 0),
{
}

/// The effect of a sequence is the effect of its first instruction followed
/// by the effect of the rest.
proof fn lemma_effect_unfolds(p: Seq<Op>, from: int, world: World, fuel: nat)
    requires
        0 <= from < p.len(),
        effect_of(p[from], world, fuel) is Some,
    ensures
        effect_from(p, from, world, fuel) == effect_from(
            p,
            from + 1,
            effect_of(p[from], world, fuel)->0,
            fuel,
        ),
{
}

/// The effect of a loop that is entered is the effect of its body followed
/// by the effect of the loop met again.
proof fn lemma_loop_unfolds(op: Op, world: World, fuel: nat)
    requires
        op is Loop,
        world.tape.current() != 0,
        fuel > 0,
        effect_from(op->Loop_0, 0, world, (fuel - 1) as nat) is Some,
    ensures
        effect_of(op, world, fuel) == effect_of(
            op,
            effect_from(op->Loop_0, 0, world, (fuel - 1) as nat)->0,
            (fuel - 1) as nat,
        ),
{
}

/// The turns of a session that has not halted begin with one turn.
proof fn lemma_first_turn(s: Session, turns: nat)
    requires
        !s.halted(),
        s.turns(turns).halted(),
    ensures
        turns > 0,
        s.turns(turns) == s.turn().turns((turns - 1) as nat),
        s.turns(1) == s.turn(),
{
    assert(s.turn().turns(0) == s.turn());
}

/// A session that halts has completed the sequence it stands in.
///
/// If the session that stands at `from` in `p` has halted after `turns`
/// turns, then `p` from `from` has an effect, and in some number of turns
/// that is no more than `turns` the session came to stand at the end of `p`
/// in the world that `p` leaves. What is returned is that number of turns,
/// and fuel with which the effect is defined.
pub proof fn lemma_halting_completes(
    below: Seq<Frame>,
    p: Seq<Op>,
    from: int,
    world: World,
    turns: nat,
) -> (found: (nat, nat))
    requires
        0 <= from <= p.len(),
        inside(below, p, from, world).turns(turns).halted(),
    ensures
        found.0 <= turns,
        effect_from(p, from, world, found.1) is Some,
        inside(below, p, from, world).turns(found.0) == inside(
            below,
            p,
            p.len() as int,
            effect_from(p, from, world, found.1)->0,
        ),
    decreases turns, 0nat,
{
    let s = inside(below, p, from, world);
    if from == p.len() {
        (0, 0)
    } else {
        let op = p[from];
        lemma_turn_inside(below, p, from, world);
        lemma_first_turn(s, turns);
        if op is Loop && world.tape.current() != 0 {
            let above = below.push(frame(p, from + 1));
            let (inner, inner_fuel) = lemma_halting_leaves_loop(
                above,
                op,
                world,
                (turns - 1) as nat,
            );
            let next = effect_of(op, world, inner_fuel)->0;
            let left = (turns - 1 - inner) as nat;
            lemma_turns_in_parts(s.turn(), inner, left);
            let (rest, rest_fuel) = lemma_halting_completes(below, p, from + 1, next, left);
            let fuel = if inner_fuel <= rest_fuel {
                rest_fuel
            } else {
                inner_fuel
            };
            lemma_more_fuel_same_effect_of(op, world, inner_fuel, fuel);
            lemma_more_fuel_same_effect(p, from + 1, next, rest_fuel, fuel);
            lemma_effect_unfolds(p, from, world, fuel);
            lemma_turns_in_parts(s, 1, inner);
            lemma_turns_in_parts(s, 1 + inner, rest);
            (1 + inner + rest, fuel)
        } else {
            let next = effect_of(op, world, 0)->0;
            assert(s.turn() == inside(below, p, from + 1, next));
            let (rest, fuel) = lemma_halting_completes(
                below,
                p,
                from + 1,
                next,
                (turns - 1) as nat,
            );
            lemma_plain_effect(op, world, fuel);
            lemma_effect_unfolds(p, from, world, fuel);
            lemma_turns_in_parts(s, 1, rest);
            (1 + rest, fuel)
        }
    }
}

/// A session that halts has left the loop it stands in.
///
/// If the session that stands at the start of the body of the loop `op`,
/// met with its cell not zero, has halted after `turns` turns, then the loop
/// has an effect, and in some number of turns that is no more than `turns`
/// the session came to have left the loop in the world that the loop leaves.
/// What is returned is that number of turns, and fuel with which the effect
/// is defined.
pub proof fn lemma_halting_leaves_loop(
    below: Seq<Frame>,
    op: Op,
    world: World,
    turns: nat,
) -> (found: (nat, nat))
    requires
        op is Loop,
        world.tape.current() != 0,
        below.len() > 0,
        inside(below, op->Loop_0, 0, world).turns(turns).halted(),
    ensures
        found.0 <= turns,
        effect_of(op, world, found.1) is Some,
        inside(below, op->Loop_0, 0, world).turns(found.0) == session(
            below,
            effect_of(op, world, found.1)->0,
        ),
    decreases turns, 1nat,
{
    let body = op->Loop_0;
    let s = inside(below, body, 0, world);
    let (through, body_fuel) = lemma_halting_completes(below, body, 0, world, turns);
    let turned = effect_from(body, 0, world, body_fuel)->0;
    let end = inside(below, body, body.len() as int, turned);
    let left = (turns - through) as nat;
    lemma_turns_in_parts(s, through, left);
    lemma_turn_inside(below, body, body.len() as int, turned);
    lemma_first_turn(end, left);
    lemma_turns_in_parts(s, through, 1);
    if turned.tape.current() != 0 {
        let (again, again_fuel) = lemma_halting_leaves_loop(
            below,
            op,
            turned,
            (left - 1) as nat,
        );
        let fuel = if body_fuel <= again_fuel {
            again_fuel
        } else {
            body_fuel
        };
        lemma_more_fuel_same_effect(body, 0, world, body_fuel, fuel);
        lemma_more_fuel_same_effect_of(op, turned, again_fuel, fuel);
        lemma_loop_unfolds(op, world, fuel + 1);
        lemma_turns_in_parts(s, through + 1, again);
        (through + 1 + again, fuel + 1)
    } else {
        lemma_plain_effect(op, turned, body_fuel);
        lemma_loop_unfolds(op, world, body_fuel + 1);
        (through + 1, body_fuel + 1)
    }
}

/// A program that halts has an effect, and has halted in the world that it
/// leaves: given that the session started on `p` in `world` has halted after
/// `turns` turns, what is returned is fuel with which the effect of `p` is
/// defined, and the session stands at the end of `p` in that effect.
pub proof fn lemma_halting_has_effect(p: Seq<Op>, world: World, turns: nat) -> (fuel: nat)
    requires
        begun(p, world).turns(turns).halted(),
    ensures
        effect(p, world, fuel) is Some,
        begun(p, world).turns(turns) == ended(p, effect(p, world, fuel)->0),
{
    lemma_begun_and_ended(p, world);
    let (_, fuel) = lemma_halting_completes(Seq::empty(), p, 0, world, turns);
    lemma_end_is_effect(p, world, fuel, turns);
    fuel
}

} // verus!
