//! Why a text has one folded program at most.
use vstd::prelude::*;
use crate::program::{
    count_of, is_folded, is_repeatable, lemma_folded_drop_last, lemma_render_balanced,
    lemma_render_counted, mergeable, op_is_folded, render, render_op, repeated, run_of, Op,
};
use crate::source::{balanced, depth, lemma_depth_concat, lemma_depth_single};

verus! {

/// The character that the text of `op` ends with.
pub open spec fn closing_symbol(op: Op) -> char {
    match op {
        Op::Increase(_) => '+',
        Op::Decrease(_) => '-',
        Op::Right(_) => '>',
        Op::Left(_) => '<',
        Op::Print => '.',
        Op::Read => ',',
        Op::Loop(_) => ']',
    }
}

/// The text of a folded instruction is not empty and ends with its closing symbol.
proof fn lemma_render_op_last(op: Op)
    requires
        op_is_folded(op),
    ensures
        render_op(op).len() >= 1,
        render_op(op).last() == closing_symbol(op),
{
}

/// The text of a folded program that is not empty is not empty, and ends with
/// the closing symbol of the last instruction.
proof fn lemma_render_last(p: Seq<Op>)
    requires
        is_folded(p),
        p.len() > 0,
    ensures
        render(p).len() >= 1,
        render(p).last() == closing_symbol(p.last()),
{
    lemma_render_op_last(p.last());
}

/// Two texts that agree and end in parts of one length agree part by part.
proof fn lemma_split_equal(a: Seq<char>, x: Seq<char>, b: Seq<char>, y: Seq<char>)
    requires
        a + x == b + y,
        x.len() == y.len(),
    ensures
        a == b,
        x == y,
{
    assert((a + x).len() == a.len() + x.len());
    assert((b + y).len() == b.len() + y.len());
    assert forall|i: int| 0 <= i < a.len() implies a[i] == b[i] by {
        assert(a[i] == (a + x)[i]);
        assert(b[i] == (b + y)[i]);
    }
    assert forall|i: int| 0 <= i < x.len() implies x[i] == y[i] by {
        assert(x[i] == (a + x)[a.len() + i]);
        assert(y[i] == (b + y)[b.len() + i]);
    }
}

/// A folded program whose last instruction repeats an operator `n` times
/// stands for a text that ends in exactly `n` of that operator: were the run
/// in the text longer, the instruction before would repeat the operator too.
proof fn lemma_run_is_maximal(p: Seq<Op>, head: Seq<char>, symbol: char, extra: nat)
    requires
        is_folded(p),
        p.len() > 0,
        is_repeatable(symbol),
        repeated(p.last()) == Some(symbol),
        render(p.drop_last()) == head + run_of(symbol, extra),
    ensures
        extra == 0,
{
    if extra > 0 {
        let front = p.drop_last();
        assert(render(front).last() == symbol);
        lemma_folded_drop_last(p);
        lemma_render_last(front);
        assert(mergeable(p[p.len() - 2], p[p.len() - 1]));
    }
}

/// Folded programs that stand for the same text are the same program.
pub proof fn lemma_render_injective(p: Seq<Op>, q: Seq<Op>)
    requires
        is_folded(p),
        is_folded(q),
        render(p) == render(q),
    ensures
        p == q,
    decreases p,
{
    if p.len() == 0 {
        if q.len() > 0 {
            lemma_render_last(q);
        }
    } else if q.len() == 0 {
        lemma_render_last(p);
    } else {
        lemma_render_last(p);
        lemma_render_last(q);
        lemma_folded_drop_last(p);
        lemma_folded_drop_last(q);
        let pf = p.drop_last();
        let qf = q.drop_last();
        let a = p.last();
        let b = q.last();
        assert(closing_symbol(a) == closing_symbol(b));
        match a {
            Op::Loop(inner) => {
                let other = b->Loop_0;
                assert(render(p) == render(pf) + render_op(a));
                assert(render_op(a) == seq!['['] + render(inner) + seq![']']);
                assert(render(q) == render(qf) + render_op(b));
                assert(render_op(b) == seq!['['] + render(other) + seq![']']);
                lemma_render_balanced(inner);
                lemma_render_balanced(other);
                lemma_loop_bodies_agree(render(pf), render(inner), render(qf), render(other));
                lemma_render_injective(inner, other);
                lemma_render_injective(pf, qf);
            },
            Op::Print | Op::Read => {
                lemma_split_equal(render(pf), render_op(a), render(qf), render_op(b));
                lemma_render_injective(pf, qf);
            },
            _ => {
                let symbol = closing_symbol(a);
                let n = count_of(a);
                let m = count_of(b);
                lemma_render_counted(symbol, n);
                lemma_render_counted(symbol, m);
                if n < m {
                    let extra = (m - n) as nat;
                    assert(render(qf) + run_of(symbol, m) == (render(qf) + run_of(symbol, extra))
                        + run_of(symbol, n));
                    lemma_split_equal(
                        render(pf),
                        run_of(symbol, n),
                        render(qf) + run_of(symbol, extra),
                        run_of(symbol, n),
                    );
                    lemma_run_is_maximal(p, render(qf), symbol, extra);
                } else if m < n {
                    let extra = (n - m) as nat;
                    assert(render(pf) + run_of(symbol, n) == (render(pf) + run_of(symbol, extra))
                        + run_of(symbol, m));
                    lemma_split_equal(
                        render(qf),
                        run_of(symbol, m),
                        render(pf) + run_of(symbol, extra),
                        run_of(symbol, m),
                    );
                    lemma_run_is_maximal(q, render(pf), symbol, extra);
                }
                lemma_split_equal(render(pf), render_op(a), render(qf), render_op(b));
                lemma_render_injective(pf, qf);
            },
        }
        assert(p =~= pf.push(a));
        assert(q =~= qf.push(b));
    }
}

/// Two texts that each end in a bracketed balanced text and agree as a whole
/// agree on what is in the brackets and on what is before them.
proof fn lemma_loop_bodies_agree(a: Seq<char>, x: Seq<char>, b: Seq<char>, y: Seq<char>)
    requires
        balanced(x),
        balanced(y),
        a + (seq!['['] + x + seq![']']) == b + (seq!['['] + y + seq![']']),
    ensures
        a == b,
        x == y,
{
    let open = seq!['['];
    let close = seq![']'];
    let left = a + (open + x + close);
    let right = b + (open + y + close);
    assert(left.len() == a.len() + x.len() + 2);
    assert(right.len() == b.len() + y.len() + 2);
    lemma_bracket_inside(a, x, b, y);
    lemma_bracket_inside(b, y, a, x);
    assert forall|i: int| 0 <= i < a.len() implies a[i] == b[i] by {
        assert(a[i] == left[i]);
        assert(b[i] == right[i]);
    }
    assert forall|i: int| 0 <= i < x.len() implies x[i] == y[i] by {
        assert(x[i] == left[a.len() + 1 + i]);
        assert(y[i] == right[b.len() + 1 + i]);
    }
}

/// Of two bracketed balanced texts that end one whole text, the second is
/// not the longer: the first would lie inside it, behind a prefix that closes
/// a loop it never opened.
proof fn lemma_bracket_inside(a: Seq<char>, x: Seq<char>, b: Seq<char>, y: Seq<char>)
    requires
        balanced(x),
        balanced(y),
        a + (seq!['['] + x + seq![']']) == b + (seq!['['] + y + seq![']']),
    ensures
        y.len() <= x.len(),
{
    if x.len() < y.len() {
        let open = seq!['['];
        let close = seq![']'];
        let left = a + (open + x + close);
        let right = b + (open + y + close);
        assert(left.len() == a.len() + x.len() + 2);
        assert(right.len() == b.len() + y.len() + 2);
        // `y` ends with `[` followed by `x`.
        let cut = y.len() - x.len() - 1;
        let front = y.take(cut);
        assert(y =~= front + open + x) by {
            assert forall|i: int| 0 <= i < y.len() implies y[i] == (front + open + x)[i] by {
                assert(y[i] == right[b.len() + 1 + i]);
                if i == cut {
                    assert(left[a.len() as int] == '[');
                } else if i > cut {
                    assert(x[i - cut - 1] == left[a.len() + 1 + (i - cut - 1)]);
                }
            }
        }
        lemma_depth_concat(front + open, x);
        lemma_depth_concat(front, open);
        lemma_depth_single('[');
        assert(depth(front) == -1);
    }
}

} // verus!
