//! From source text to instructions.
use vstd::prelude::*;
use crate::brainfuck::{lemma_models_push, lemma_models_update, models, Instruction};
use crate::grammar::{
    lemma_parses_comment, lemma_parses_counted, lemma_parses_loop, lemma_parses_nothing,
    lemma_parses_print, lemma_parses_read, lemma_rejects_close, lemma_rejects_open, parses_to,
    rejection, with_one_more,
};
use crate::program::{
    counted, is_repeatable, lemma_render_counted, lemma_render_push, render, repeated, Op,
};
use crate::source::{
    balanced, characters, closes_unopened, depth, lemma_open_depth, lemma_operators_len,
    lemma_push_keeps_open,
};
use crate::unique::lemma_render_injective;

verus! {

/// Why a text is not a program.
#[derive(Debug, Clone, Copy, PartialEq, Eq)]
pub enum ParseError {
    /// A `]` stands where no loop is open.
    UnmatchedCloseBracket,
    /// A `[` is never closed.
    UnterminatedLoop,
}

impl ParseError {
    /// A sentence that says what is wrong with the text.
    pub fn message(&self) -> (text: String)
        ensures
            text@ == match self {
                ParseError::UnmatchedCloseBracket => "End of loop without beginning."@,
                ParseError::UnterminatedLoop => "Beginning of loop without end."@,
            },
    {
        match self {
            ParseError::UnmatchedCloseBracket => "End of loop without beginning.".to_owned(),
            ParseError::UnterminatedLoop => "Beginning of loop without end.".to_owned(),
        }
    }
}

/// The count of `last` if it repeats `symbol`.
fn run_length(last: &Instruction, symbol: char) -> (count: Option<usize>)
    ensures
        count is Some <==> repeated(last.model()) == Some(symbol),
        count matches Some(n) ==> last.model() == counted(symbol, n as nat),
{
    match last {
        Instruction::IncreaseCell(n) => if symbol == '+' {
            Some(*n)
        } else {
            None
        },
        Instruction::DecreaseCell(n) => if symbol == '-' {
            Some(*n)
        } else {
            None
        },
        Instruction::MoveRight(n) => if symbol == '>' {
            Some(*n)
        } else {
            None
        },
        Instruction::MoveLeft(n) => if symbol == '<' {
            Some(*n)
        } else {
            None
        },
        _ => None,
    }
}

/// The instruction that repeats `symbol` `count` times.
fn repeat(symbol: char, count: usize) -> (instruction: Instruction)
    requires
        is_repeatable(symbol),
    ensures
        instruction.model() == counted(symbol, count as nat),
{
    if symbol == '+' {
        Instruction::IncreaseCell(count)
    } else if symbol == '-' {
        Instruction::DecreaseCell(count)
    } else if symbol == '>' {
        Instruction::MoveRight(count)
    } else {
        Instruction::MoveLeft(count)
    }
}

/// Accounts for one more `symbol`: the last instruction's count grows by one
/// if it repeats `symbol`, else a new instruction with count 1 is appended.
fn fold(instructions: &mut Vec<Instruction>, symbol: char)
    requires
        is_repeatable(symbol),
        render(models(old(instructions)@)).len() < usize::MAX,
    ensures
        models(final(instructions)@) == with_one_more(models(old(instructions)@), symbol),
{
    let len = instructions.len();
    if len > 0 {
        if let Some(n) = run_length(&instructions[len - 1], symbol) {
            proof {
                lemma_render_counted(symbol, n as nat);
                lemma_render_push(models(instructions@).drop_last(), counted(symbol, n as nat));
                assert(models(instructions@).drop_last().push(counted(symbol, n as nat))
                    == models(instructions@));
            }
            let longer = repeat(symbol, n + 1);
            proof {
                lemma_models_update(instructions@, len - 1, longer);
            }
            instructions.set(len - 1, longer);
            return ;
        }
    }
    let single = repeat(symbol, 1);
    proof {
        lemma_models_push(instructions@, single);
    }
    instructions.push(single);
}

/// Looks in `chars[from..end]` for the `]` that closes a loop opened just
/// before `from`, counting the loops that open and close on the way.
fn find_close(chars: &Vec<char>, from: usize, end: usize) -> (close: Option<usize>)
    requires
        from <= end <= chars.len(),
    ensures
        match close {
            Some(at) => {
                &&& from <= at < end
                &&& chars[at as int] == ']'
                &&& balanced(chars@.subrange(from as int, at as int))
            },
            None => !closes_unopened(chars@.subrange(from as int, end as int)),
        },
{
    let mut nesting: usize = 0;
    let mut at = from;
    proof {
        assert(!closes_unopened(chars@.subrange(from as int, from as int))) by {
            let empty = chars@.subrange(from as int, from as int);
            assert forall|k: int| 0 <= k <= empty.len() implies depth(#[trigger] empty.take(k))
                >= 0 by {}
        }
    }
    while at < end
        invariant
            from <= at <= end <= chars.len(),
            nesting <= at - from,
            nesting == depth(chars@.subrange(from as int, at as int)),
            !closes_unopened(chars@.subrange(from as int, at as int)),
        decreases end - at,
    {
        let c = chars[at];
        if c == ']' && nesting == 0 {
            return Some(at);
        }
        proof {
            let seen = chars@.subrange(from as int, at as int);
            assert(chars@.subrange(from as int, at + 1) == seen.push(c));
            lemma_push_keeps_open(seen, c);
        }
        if c == ']' {
            nesting = nesting - 1;
        } else if c == '[' {
            nesting = nesting + 1;
        }
        at = at + 1;
    }
    None
}

/// Parses `chars[start..end]`, calling itself on the inside of each loop.
fn parse_range(chars: &Vec<char>, start: usize, end: usize) -> (result: Result<
    Vec<Instruction>,
    ParseError,
>)
    requires
        start <= end <= chars.len(),
    ensures
        match result {
            Ok(instructions) => parses_to(
                chars@.subrange(start as int, end as int),
                models(instructions@),
            ),
            Err(error) => rejection(chars@.subrange(start as int, end as int)) == Some(error),
        },
    decreases end - start,
{
    let ghost text = chars@.subrange(start as int, end as int);
    let mut instructions: Vec<Instruction> = Vec::new();
    let mut index = start;
    proof {
        lemma_parses_nothing();
        assert(chars@.subrange(start as int, start as int) == Seq::<char>::empty());
        assert(models(instructions@) == Seq::<Op>::empty());
    }
    while index < end
        invariant
            start <= index <= end <= chars.len(),
            text == chars@.subrange(start as int, end as int),
            parses_to(chars@.subrange(start as int, index as int), models(instructions@)),
        decreases end - index,
    {
        let c = chars[index];
        let ghost seen = chars@.subrange(start as int, index as int);
        let ghost rest = chars@.subrange(index + 1, end as int);
        let ghost before = models(instructions@);
        proof {
            assert(chars@.subrange(start as int, index + 1) == seen.push(c));
            assert(text == seen.push(c) + rest);
        }
        if c == '+' || c == '-' || c == '>' || c == '<' {
            proof {
                lemma_operators_len(seen);
                lemma_parses_counted(seen, before, c);
            }
            fold(&mut instructions, c);
        } else if c == '.' {
            proof {
                lemma_models_push(instructions@, Instruction::PrintCharacter);
                lemma_parses_print(seen, before);
            }
            instructions.push(Instruction::PrintCharacter);
        } else if c == ',' {
            proof {
                lemma_models_push(instructions@, Instruction::ReadCharacter);
                lemma_parses_read(seen, before);
            }
            instructions.push(Instruction::ReadCharacter);
        } else if c == '[' {
            match find_close(chars, index + 1, end) {
                None => {
                    proof {
                        assert(text == seen + seq!['['] + rest);
                        lemma_rejects_open(seen, rest);
                    }
                    return Err(ParseError::UnterminatedLoop);
                },
                Some(close) => {
                    let ghost inside = chars@.subrange(index + 1, close as int);
                    let body = match parse_range(chars, index + 1, close) {
                        Ok(body) => body,
                        Err(error) => {
                            // Never taken: what the brackets enclose is balanced.
                            return Err(error);
                        },
                    };
                    let looping = Instruction::Loop(body);
                    proof {
                        assert(chars@.subrange(start as int, close + 1) == seen + seq!['[']
                            + inside + seq![']']);
                        lemma_models_push(instructions@, looping);
                        lemma_parses_loop(seen, before, inside, models(body@));
                    }
                    instructions.push(looping);
                    index = close;
                },
            }
        } else if c == ']' {
            proof {
                lemma_rejects_close(seen, rest);
            }
            return Err(ParseError::UnmatchedCloseBracket);
        } else {
            proof {
                lemma_parses_comment(seen, before, c);
            }
        }
        index = index + 1;
    }
    proof {
        assert(chars@.subrange(start as int, index as int) == text);
    }
    Ok(instructions)
}

/// Parses source text into a program.
///
/// Characters other than the eight operators are skipped. A run of `+`, `-`,
/// `>` or `<` that no other operator interrupts becomes one instruction that
/// carries the length of the run; `.` and `,` become one instruction each;
/// the text between a `[` and the `]` that closes it becomes the body of a
/// loop. The text is rejected if a `]` closes a loop that is not open, or
/// else if a `[` is still open at the end.
///
/// What comes back is fixed by the text: an error exactly when the text is
/// rejected, and then the error it is rejected with; otherwise a parse of the
/// text, and the text has no other.
pub fn parse(program: &str) -> (result: Result<Vec<Instruction>, ParseError>)
    ensures
        match result {
            Ok(instructions) => {
                &&& rejection(program@) is None
                &&& parses_to(program@, models(instructions@))
                &&& forall|other: Seq<Op>| #[trigger]
                    parses_to(program@, other) ==> other == models(instructions@)
            },
            Err(error) => rejection(program@) == Some(error),
        },
{
    let chars = characters(program);
    proof {
        assert(chars@.subrange(0, chars@.len() as int) == chars@);
    }
    let result = parse_range(&chars, 0, chars.len());
    proof {
        if result is Ok {
            let found = models(result->Ok_0@);
            assert forall|other: Seq<Op>| #[trigger] parses_to(program@, other) implies other
                == found by {
                lemma_render_injective(other, found);
            }
            lemma_open_depth(program@);
        }
    }
    result
}

} // verus!
