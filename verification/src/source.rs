//! Source text as a sequence of characters: which characters count, and how
//! brackets nest.
use vstd::prelude::*;

verus! {

/// The eight characters that carry meaning; every other character is a comment.
pub open spec fn is_operator(c: char) -> bool {
    c == '+' || c == '-' || c == '<' || c == '>' || c == '.' || c == ',' || c == '[' || c == ']'
}

/// The text with its comments removed.
pub open spec fn operators(s: Seq<char>) -> Seq<char> {
    s.filter(|c: char| is_operator(c))
}

/// What one character adds to the nesting depth.
pub open spec fn weight(c: char) -> int {
    if c == '[' {
        1
    } else if c == ']' {
        -1
    } else {
        0
    }
}

/// Loops opened minus loops closed over the whole of `s`.
pub open spec fn depth(s: Seq<char>) -> int
    decreases s.len(),
{
    if s.len() == 0 {
        0
    } else {
        depth(s.drop_last()) + weight(s.last())
    }
}

/// Some `]` in `s` closes a loop that was never opened: a prefix of `s`
/// closes more loops than it opens.
pub open spec fn closes_unopened(s: Seq<char>) -> bool {
    exists|k: int| 0 <= k <= s.len() && depth(#[trigger] s.take(k)) < 0
}

/// Every `]` closes an open loop and every `[` is closed.
pub open spec fn balanced(s: Seq<char>) -> bool {
    !closes_unopened(s) && depth(s) == 0
}

/// The characters of `text`, one element each.
pub(crate) fn characters(text: &str) -> (chars: Vec<char>)
    ensures
        chars@ == text@,
{
    let mut chars: Vec<char> = Vec::new();
    for c in it: text.chars()
        invariant
            chars@ == it.seq().take(it.index() as int),
    {
        chars.push(c);
    }
    chars
}

/// Appending one character appends it to the operators if it is one.
pub proof fn lemma_operators_push(s: Seq<char>, c: char)
    ensures
        operators(s.push(c)) == if is_operator(c) {
            operators(s).push(c)
        } else {
            operators(s)
        },
{
    reveal(Seq::filter);
    assert(s.push(c).drop_last() == s);
}

/// Removing comments from two texts in a row is removing them from each.
pub proof fn lemma_operators_concat(a: Seq<char>, b: Seq<char>)
    ensures
        operators(a + b) == operators(a) + operators(b),
{
    Seq::filter_distributes_over_add(a, b, |c: char| is_operator(c));
}

/// Removing comments never lengthens a text.
pub proof fn lemma_operators_len(s: Seq<char>)
    ensures
        operators(s).len() <= s.len(),
{
    s.lemma_filter_len(|c: char| is_operator(c));
}

/// Depth adds up over concatenation.
pub proof fn lemma_depth_concat(a: Seq<char>, b: Seq<char>)
    ensures
        depth(a + b) == depth(a) + depth(b),
    decreases b.len(),
{
    if b.len() > 0 {
        assert((a + b).drop_last() == a + b.drop_last());
        lemma_depth_concat(a, b.drop_last());
    }
}

/// Depth of a text of one character.
pub proof fn lemma_depth_single(c: char)
    ensures
        depth(seq![c]) == weight(c),
{
    assert(seq![c].drop_last() == Seq::<char>::empty());
    assert(depth(Seq::<char>::empty()) == 0);
}

/// A text that closes nothing unopened still does so after `b`, as long as
/// no prefix of `b` closes more than `a` has left open.
pub proof fn lemma_concat_keeps_open(a: Seq<char>, b: Seq<char>)
    requires
        !closes_unopened(a),
        forall|k: int| 0 <= k <= b.len() ==> depth(a) + depth(#[trigger] b.take(k)) >= 0,
    ensures
        !closes_unopened(a + b),
{
    assert forall|k: int| 0 <= k <= (a + b).len() implies depth(#[trigger] (a + b).take(k))
        >= 0 by {
        if k <= a.len() {
            assert((a + b).take(k) == a.take(k));
        } else {
            assert((a + b).take(k) == a + b.take(k - a.len()));
            lemma_depth_concat(a, b.take(k - a.len()));
        }
    }
}

/// The special case of [`lemma_concat_keeps_open`] for one more character.
pub proof fn lemma_push_keeps_open(s: Seq<char>, c: char)
    requires
        !closes_unopened(s),
        depth(s) + weight(c) >= 0,
    ensures
        !closes_unopened(s.push(c)),
        depth(s.push(c)) == depth(s) + weight(c),
{
    assert(s.push(c).drop_last() == s);
    assert forall|k: int| 0 <= k <= s.push(c).len() implies depth(#[trigger] s.push(c).take(k))
        >= 0 by {
        if k <= s.len() {
            assert(s.push(c).take(k) == s.take(k));
        } else {
            assert(s.push(c).take(k) == s.push(c));
        }
    }
}

/// A text whose every prefix is at depth zero or more ends at depth zero or more.
pub proof fn lemma_open_depth(s: Seq<char>)
    requires
        !closes_unopened(s),
    ensures
        depth(s) >= 0,
{
    assert(s.take(s.len() as int) == s);
}

/// A text without brackets is balanced.
pub proof fn lemma_no_brackets_balanced(s: Seq<char>)
    requires
        forall|i: int| 0 <= i < s.len() ==> weight(#[trigger] s[i]) == 0,
    ensures
        balanced(s),
    decreases s.len(),
{
    if s.len() == 0 {
        lemma_balanced_empty();
    } else {
        lemma_no_brackets_balanced(s.drop_last());
        lemma_push_keeps_open(s.drop_last(), s.last());
        assert(s.drop_last().push(s.last()) == s);
    }
}

/// Two balanced texts in a row are balanced.
pub proof fn lemma_balanced_concat(a: Seq<char>, b: Seq<char>)
    requires
        balanced(a),
        balanced(b),
    ensures
        balanced(a + b),
{
    assert forall|k: int| 0 <= k <= b.len() implies depth(a) + depth(#[trigger] b.take(k))
        >= 0 by {}
    lemma_concat_keeps_open(a, b);
    lemma_depth_concat(a, b);
}

/// The empty text is balanced.
pub proof fn lemma_balanced_empty()
    ensures
        balanced(Seq::<char>::empty()),
{
    let empty = Seq::<char>::empty();
    assert forall|k: int| 0 <= k <= empty.len() implies depth(#[trigger] empty.take(k)) >= 0 by {}
}

/// A balanced text followed by a balanced text in brackets is balanced.
pub proof fn lemma_balanced_loop(a: Seq<char>, inner: Seq<char>)
    requires
        balanced(a),
        balanced(inner),
    ensures
        balanced(a + seq!['['] + inner + seq![']']),
{
    let open = seq!['['];
    let close = seq![']'];
    lemma_depth_single('[');
    lemma_depth_single(']');
    assert(a + open == a.push('['));
    lemma_push_keeps_open(a, '[');
    assert forall|k: int| 0 <= k <= inner.len() implies depth(a + open) + depth(
        #[trigger] inner.take(k),
    ) >= 0 by {}
    lemma_concat_keeps_open(a + open, inner);
    lemma_depth_concat(a + open, inner);
    assert(a + open + inner + close == (a + open + inner).push(']'));
    lemma_push_keeps_open(a + open + inner, ']');
}

/// A balanced text followed by `[` and a text that closes nothing unopened
/// leaves a loop open and closes nothing unopened.
pub proof fn lemma_open_tail(a: Seq<char>, rest: Seq<char>)
    requires
        balanced(a),
        !closes_unopened(rest),
    ensures
        !closes_unopened(a + seq!['['] + rest),
        depth(a + seq!['['] + rest) > 0,
{
    let open = seq!['['];
    lemma_depth_single('[');
    assert(a + open == a.push('['));
    lemma_push_keeps_open(a, '[');
    assert forall|k: int| 0 <= k <= rest.len() implies depth(a + open) + depth(
        #[trigger] rest.take(k),
    ) >= 0 by {}
    lemma_concat_keeps_open(a + open, rest);
    lemma_depth_concat(a + open, rest);
    lemma_open_depth(rest);
}

} // verus!
