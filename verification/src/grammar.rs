//! The relation between a text and the program it is parsed to: the rules
//! that make it up, and what follows from them.
use vstd::prelude::*;
use crate::parser::ParseError;
use crate::program::{
    count_of, counted, is_folded, is_repeatable, lemma_folded_push, lemma_render_counted,
    lemma_render_push, lemma_run_of_push, mergeable, op_is_folded, render, repeated, run_of, Op,
};
use crate::source::{
    balanced, closes_unopened, depth, is_operator, lemma_balanced_empty, lemma_balanced_loop,
    lemma_depth_concat, lemma_depth_single, lemma_no_brackets_balanced, lemma_open_depth,
    lemma_open_tail, lemma_operators_concat, lemma_operators_len, lemma_operators_push,
    lemma_push_keeps_open, operators, weight,
};
use crate::unique::lemma_render_injective;

verus! {

/// `p` is a parse of `s`: the text is balanced, and `p` is the folded program
/// that stands for exactly the operators of `s`.
pub open spec fn parses_to(s: Seq<char>, p: Seq<Op>) -> bool {
    &&& balanced(s)
    &&& is_folded(p)
    &&& render(p) == operators(s)
}

/// The error that `s` is rejected with, if it is rejected. An unopened `]`
/// is met before the end of input and so takes precedence.
pub open spec fn rejection(s: Seq<char>) -> Option<ParseError> {
    if closes_unopened(s) {
        Some(ParseError::UnmatchedCloseBracket)
    } else if depth(s) > 0 {
        Some(ParseError::UnterminatedLoop)
    } else {
        None
    }
}

/// The folded program `p` with one more `symbol` accounted for: the count of
/// the last instruction grows by one if that instruction repeats `symbol`,
/// else an instruction with count 1 is appended.
pub open spec fn with_one_more(p: Seq<Op>, symbol: char) -> Seq<Op> {
    if p.len() > 0 && repeated(p.last()) == Some(symbol) {
        p.update(p.len() - 1, counted(symbol, count_of(p.last()) + 1))
    } else {
        p.push(counted(symbol, 1))
    }
}

/// Accounting for one more `symbol` keeps a program folded and appends
/// `symbol` to the text it stands for.
pub proof fn lemma_one_more(p: Seq<Op>, symbol: char)
    requires
        is_repeatable(symbol),
        is_folded(p),
    ensures
        is_folded(with_one_more(p, symbol)),
        render(with_one_more(p, symbol)) == render(p).push(symbol),
{
    let after = with_one_more(p, symbol);
    if p.len() > 0 && repeated(p.last()) == Some(symbol) {
        let n = count_of(p.last());
        lemma_render_counted(symbol, n);
        lemma_render_counted(symbol, n + 1);
        lemma_run_of_push(symbol, n);
        assert(p.last() == counted(symbol, n));
        assert(after.drop_last() == p.drop_last());
        assert(render(after) == render(p.drop_last()) + run_of(symbol, n + 1));
        assert(render(p) == render(p.drop_last()) + run_of(symbol, n));
        assert forall|i: int| 0 < i < after.len() implies !mergeable(
            after[i - 1],
            #[trigger] after[i],
        ) by {
            assert(!mergeable(p[i - 1], p[i]));
        }
        assert forall|i: int| 0 <= i < after.len() implies op_is_folded(#[trigger] after[i]) by {
            assert(op_is_folded(p[i]));
        }
    } else {
        lemma_render_counted(symbol, 1);
        lemma_render_push(p, counted(symbol, 1));
        lemma_folded_push(p, counted(symbol, 1));
        assert(run_of(symbol, 1) == seq![symbol]);
    }
}

/// The empty text parses to the empty program.
pub proof fn lemma_parses_nothing()
    ensures
        parses_to(Seq::empty(), Seq::empty()),
{
    lemma_balanced_empty();
    lemma_operators_len(Seq::empty());
    assert(operators(Seq::empty()) =~= render(Seq::empty()));
}

/// A comment character adds nothing to the program.
pub proof fn lemma_parses_comment(s: Seq<char>, p: Seq<Op>, c: char)
    requires
        parses_to(s, p),
        !is_operator(c),
    ensures
        parses_to(s.push(c), p),
{
    lemma_operators_push(s, c);
    lemma_push_keeps_open(s, c);
}

/// One of `+ - > <` is accounted for in the count of the last instruction,
/// or in a new one.
pub proof fn lemma_parses_counted(s: Seq<char>, p: Seq<Op>, symbol: char)
    requires
        parses_to(s, p),
        is_repeatable(symbol),
    ensures
        parses_to(s.push(symbol), with_one_more(p, symbol)),
{
    lemma_operators_push(s, symbol);
    lemma_push_keeps_open(s, symbol);
    lemma_one_more(p, symbol);
}

/// A `.` adds a print instruction.
pub proof fn lemma_parses_print(s: Seq<char>, p: Seq<Op>)
    requires
        parses_to(s, p),
    ensures
        parses_to(s.push('.'), p.push(Op::Print)),
{
    lemma_operators_push(s, '.');
    lemma_push_keeps_open(s, '.');
    lemma_render_push(p, Op::Print);
    lemma_folded_push(p, Op::Print);
    assert(render(p.push(Op::Print)) =~= operators(s.push('.')));
}

/// A `,` adds a read instruction.
pub proof fn lemma_parses_read(s: Seq<char>, p: Seq<Op>)
    requires
        parses_to(s, p),
    ensures
        parses_to(s.push(','), p.push(Op::Read)),
{
    lemma_operators_push(s, ',');
    lemma_push_keeps_open(s, ',');
    lemma_render_push(p, Op::Read);
    lemma_folded_push(p, Op::Read);
    assert(render(p.push(Op::Read)) =~= operators(s.push(',')));
}

/// A text in brackets adds a loop whose body is what that text parses to.
pub proof fn lemma_parses_loop(s: Seq<char>, p: Seq<Op>, inner: Seq<char>, body: Seq<Op>)
    requires
        parses_to(s, p),
        parses_to(inner, body),
    ensures
        parses_to(s + seq!['['] + inner + seq![']'], p.push(Op::Loop(body))),
{
    let open = seq!['['];
    let close = seq![']'];
    lemma_balanced_loop(s, inner);
    lemma_operators_concat(s + open + inner, close);
    lemma_operators_concat(s + open, inner);
    lemma_operators_concat(s, open);
    lemma_operators_push(Seq::empty(), '[');
    lemma_operators_push(Seq::empty(), ']');
    lemma_operators_len(Seq::empty());
    assert(Seq::<char>::empty().push('[') == open);
    assert(Seq::<char>::empty().push(']') == close);
    lemma_render_push(p, Op::Loop(body));
    lemma_folded_push(p, Op::Loop(body));
    assert(render(p.push(Op::Loop(body))) =~= operators(s + open + inner + close));
}

/// A `]` after a balanced text has the whole text rejected, whatever follows.
pub proof fn lemma_rejects_close(s: Seq<char>, rest: Seq<char>)
    requires
        balanced(s),
    ensures
        rejection(s.push(']') + rest) == Some(ParseError::UnmatchedCloseBracket),
{
    let text = s.push(']') + rest;
    assert(text.take(s.len() as int + 1) == s.push(']'));
    assert(s.push(']').drop_last() == s);
}

/// A `[` after a balanced text has the whole text rejected if what follows
/// does not close it.
pub proof fn lemma_rejects_open(s: Seq<char>, rest: Seq<char>)
    requires
        balanced(s),
        !closes_unopened(rest),
    ensures
        rejection(s + seq!['['] + rest) == Some(ParseError::UnterminatedLoop),
{
    lemma_open_tail(s, rest);
}

/// A text has at most one parse, so what parsing returns on success is fixed
/// by the text alone.
pub proof fn lemma_parse_unique(s: Seq<char>, p: Seq<Op>, q: Seq<Op>)
    requires
        parses_to(s, p),
        parses_to(s, q),
    ensures
        p == q,
{
    lemma_render_injective(p, q);
}

/// A text is rejected exactly when it is not balanced, and so exactly when
/// it has no parse.
pub proof fn lemma_rejected_iff_unbalanced(s: Seq<char>)
    ensures
        rejection(s) is None <==> balanced(s),
{
    if !closes_unopened(s) {
        lemma_open_depth(s);
    }
}

/// A run of `n` of one of `+ - > <`, with nothing but comments in between,
/// parses to the one instruction that carries the count `n`.
pub proof fn lemma_run_folds_to_one(s: Seq<char>, symbol: char, n: nat, p: Seq<Op>)
    requires
        is_repeatable(symbol),
        n >= 1,
        operators(s) == run_of(symbol, n),
    ensures
        rejection(s) is None,
        parses_to(s, seq![counted(symbol, n)]),
        parses_to(s, p) ==> p == seq![counted(symbol, n)],
{
    let one = seq![counted(symbol, n)];
    lemma_render_counted(symbol, n);
    assert(render(one) == run_of(symbol, n)) by {
        assert(one.drop_last() == Seq::<Op>::empty());
        assert(render(Seq::<Op>::empty()) == Seq::<char>::empty());
    }
    assert(balanced(s)) by {
        assert forall|i: int| 0 <= i < s.len() implies weight(#[trigger] s[i]) == 0 by {
            if is_operator(s[i]) {
                s.lemma_filter_contains(|c: char| is_operator(c), i);
            }
        }
        lemma_no_brackets_balanced(s);
    }
    lemma_open_depth(s);
    if parses_to(s, p) {
        lemma_render_injective(p, one);
    }
}

/// The `]` at `close` answers the `[` at `open`: what stands between them
/// closes as many loops as it opens.
pub open spec fn answers(s: Seq<char>, open: int, close: int) -> bool {
    &&& 0 <= open < close < s.len()
    &&& s[open] == '['
    &&& s[close] == ']'
    &&& depth(s.subrange(open + 1, close)) == 0
}

/// A `[` that no `]` answers has the text rejected as an unterminated loop,
/// unless a `]` that closes nothing open is met first.
pub proof fn lemma_unclosed_loop_rejected(s: Seq<char>, at: int)
    requires
        0 <= at < s.len(),
        s[at] == '[',
        forall|j: int| !answers(s, at, j),
        !closes_unopened(s),
    ensures
        rejection(s) == Some(ParseError::UnterminatedLoop),
{
    let rest = s.subrange(at + 1, s.len() as int);
    assert forall|k: int| 0 <= k <= rest.len() implies depth(#[trigger] rest.take(k)) >= 0 by {
        lemma_unclosed_stays_open(s, at, k);
    }
    assert(s == s.take(at) + seq!['['] + rest);
    lemma_depth_concat(s.take(at) + seq!['['], rest);
    lemma_depth_concat(s.take(at), seq!['[']);
    lemma_depth_single('[');
    lemma_open_depth(rest);
}

/// After a `[` that no `]` answers, the depth never returns below where it
/// was.
proof fn lemma_unclosed_stays_open(s: Seq<char>, at: int, k: int)
    requires
        0 <= at < s.len(),
        s[at] == '[',
        forall|j: int| !answers(s, at, j),
        0 <= k <= s.len() - at - 1,
    ensures
        depth(s.subrange(at + 1, s.len() as int).take(k)) >= 0,
    decreases k,
{
    let rest = s.subrange(at + 1, s.len() as int);
    if k > 0 {
        lemma_unclosed_stays_open(s, at, k - 1);
        assert(rest.take(k).drop_last() == rest.take(k - 1));
        assert(rest.take(k - 1) == s.subrange(at + 1, at + k));
        assert(!answers(s, at, at + k));
    }
}

/// A `]` that stands where no loop is open, as many having been closed as
/// were opened, has the text rejected as an unmatched close bracket.
pub proof fn lemma_unopened_close_rejected(s: Seq<char>, at: int)
    requires
        0 <= at < s.len(),
        s[at] == ']',
        depth(s.take(at)) <= 0,
    ensures
        rejection(s) == Some(ParseError::UnmatchedCloseBracket),
{
    assert(s.take(at + 1).drop_last() == s.take(at));
}

} // verus!
