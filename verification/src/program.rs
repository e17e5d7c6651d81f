//! Programs as mathematical values, and what it means for one to be the
//! parse of a text.
use vstd::prelude::*;
use crate::source::{
    balanced, lemma_balanced_concat, lemma_balanced_empty, lemma_balanced_loop,
    lemma_push_keeps_open, weight,
};

verus! {

/// One instruction with an unbounded count and a loop body held as a sequence.
pub enum Op {
    Increase(nat),
    Decrease(nat),
    Right(nat),
    Left(nat),
    Print,
    Read,
    Loop(Seq<Op>),
}

/// The character `c` written `n` times.
pub open spec fn run_of(c: char, n: nat) -> Seq<char> {
    Seq::new(n, |i: int| c)
}

/// The operator characters that `op` stands for.
pub open spec fn render_op(op: Op) -> Seq<char>
    decreases op,
{
    match op {
        Op::Increase(n) => run_of('+', n),
        Op::Decrease(n) => run_of('-', n),
        Op::Right(n) => run_of('>', n),
        Op::Left(n) => run_of('<', n),
        Op::Print => seq!['.'],
        Op::Read => seq![','],
        Op::Loop(body) => seq!['['] + render(body) + seq![']'],
    }
}

/// The operator characters that a program stands for, in order.
pub open spec fn render(p: Seq<Op>) -> Seq<char>
    decreases p,
{
    if p.len() == 0 {
        Seq::empty()
    } else {
        render(p.drop_last()) + render_op(p.last())
    }
}

/// The operator that a counted instruction repeats, if `op` is one.
pub open spec fn repeated(op: Op) -> Option<char> {
    match op {
        Op::Increase(_) => Some('+'),
        Op::Decrease(_) => Some('-'),
        Op::Right(_) => Some('>'),
        Op::Left(_) => Some('<'),
        _ => None,
    }
}

/// The count that an instruction carries; 1 for those that carry none.
pub open spec fn count_of(op: Op) -> nat {
    match op {
        Op::Increase(n) => n,
        Op::Decrease(n) => n,
        Op::Right(n) => n,
        Op::Left(n) => n,
        _ => 1,
    }
}

/// Two neighbours that repeat the same operator and so should have been one.
pub open spec fn mergeable(a: Op, b: Op) -> bool {
    repeated(a) is Some && repeated(a) == repeated(b)
}

/// `op` has a positive count, and a loop's body is folded.
pub open spec fn op_is_folded(op: Op) -> bool
    decreases op,
{
    match op {
        Op::Loop(body) => is_folded(body),
        _ => count_of(op) >= 1,
    }
}

/// Every run of one operator has become a single instruction: counts are
/// positive and no two neighbours repeat the same operator, at every depth.
pub open spec fn is_folded(p: Seq<Op>) -> bool
    decreases p,
{
    &&& forall|i: int| 0 <= i < p.len() ==> op_is_folded(#[trigger] p[i])
    &&& forall|i: int| 0 < i < p.len() ==> !mergeable(p[i - 1], #[trigger] p[i])
}

/// The counted instruction that repeats `symbol` `n` times.
pub open spec fn counted(symbol: char, n: nat) -> Op {
    if symbol == '+' {
        Op::Increase(n)
    } else if symbol == '-' {
        Op::Decrease(n)
    } else if symbol == '>' {
        Op::Right(n)
    } else {
        Op::Left(n)
    }
}

/// The four operators that fold into a count.
pub open spec fn is_repeatable(c: char) -> bool {
    c == '+' || c == '-' || c == '>' || c == '<'
}

/// A counted instruction stands for a run of its operator.
pub proof fn lemma_render_counted(symbol: char, n: nat)
    requires
        is_repeatable(symbol),
    ensures
        render_op(counted(symbol, n)) == run_of(symbol, n),
        repeated(counted(symbol, n)) == Some(symbol),
        count_of(counted(symbol, n)) == n,
{
}

/// Appending an instruction appends what it stands for.
pub proof fn lemma_render_push(p: Seq<Op>, op: Op)
    ensures
        render(p.push(op)) == render(p) + render_op(op),
{
    assert(p.push(op).drop_last() == p);
}

/// A folded program stays folded when an instruction is appended that is
/// folded itself and does not repeat the operator of the last one.
pub proof fn lemma_folded_push(p: Seq<Op>, op: Op)
    requires
        is_folded(p),
        op_is_folded(op),
        p.len() > 0 ==> !mergeable(p.last(), op),
    ensures
        is_folded(p.push(op)),
{
    let after = p.push(op);
    assert forall|i: int| 0 < i < after.len() implies !mergeable(
        after[i - 1],
        #[trigger] after[i],
    ) by {
        if i < p.len() {
            assert(!mergeable(p[i - 1], p[i]));
        }
    }
    assert forall|i: int| 0 <= i < after.len() implies op_is_folded(#[trigger] after[i]) by {
        if i < p.len() {
            assert(op_is_folded(p[i]));
        }
    }
}

/// A run one longer is the run with one more character.
pub proof fn lemma_run_of_push(c: char, n: nat)
    ensures
        run_of(c, n + 1) == run_of(c, n).push(c),
{
}
/// A run of a character that is no bracket is balanced.
pub proof fn lemma_run_balanced(c: char, n: nat)
    requires
        weight(c) == 0,
    ensures
        balanced(run_of(c, n)),
    decreases n,
{
    if n == 0 {
        lemma_balanced_empty();
    } else {
        lemma_run_balanced(c, (n - 1) as nat);
        lemma_run_of_push(c, (n - 1) as nat);
        lemma_push_keeps_open(run_of(c, (n - 1) as nat), c);
    }
}

/// What an instruction stands for is balanced.
pub proof fn lemma_render_op_balanced(op: Op)
    ensures
        balanced(render_op(op)),
    decreases op,
{
    match op {
        Op::Increase(n) => lemma_run_balanced('+', n),
        Op::Decrease(n) => lemma_run_balanced('-', n),
        Op::Right(n) => lemma_run_balanced('>', n),
        Op::Left(n) => lemma_run_balanced('<', n),
        Op::Print => {
            assert(seq!['.'] == run_of('.', 1));
            lemma_run_balanced('.', 1)
        },
        Op::Read => {
            assert(seq![','] == run_of(',', 1));
            lemma_run_balanced(',', 1)
        },
        Op::Loop(body) => {
            lemma_render_balanced(body);
            lemma_balanced_empty();
            lemma_balanced_loop(Seq::empty(), render(body));
            assert(Seq::<char>::empty() + seq!['['] + render(body) + seq![']'] == seq!['[']
                + render(body) + seq![']']);
        },
    }
}

/// What a program stands for is balanced.
pub proof fn lemma_render_balanced(p: Seq<Op>)
    ensures
        balanced(render(p)),
    decreases p,
{
    if p.len() == 0 {
        lemma_balanced_empty();
    } else {
        lemma_render_balanced(p.drop_last());
        lemma_render_op_balanced(p.last());
        lemma_balanced_concat(render(p.drop_last()), render_op(p.last()));
    }
}

/// A folded program without its last instruction is folded.
pub proof fn lemma_folded_drop_last(p: Seq<Op>)
    requires
        is_folded(p),
        p.len() > 0,
    ensures
        is_folded(p.drop_last()),
{
    let front = p.drop_last();
    assert forall|i: int| 0 < i < front.len() implies !mergeable(
        front[i - 1],
        #[trigger] front[i],
    ) by {
        assert(!mergeable(p[i - 1], p[i]));
    }
    assert forall|i: int| 0 <= i < front.len() implies op_is_folded(#[trigger] front[i]) by {
        assert(op_is_folded(p[i]));
    }
}

} // verus!
