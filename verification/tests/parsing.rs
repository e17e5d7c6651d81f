use brainfuck_interpreter::{parse, Instruction, ParseError};

fn run_of(symbol: char, n: usize) -> String {
    let mut text = String::new();
    for _ in 0..n {
        text.push(symbol);
    }
    text
}

#[test]
fn folds_runs_and_keeps_order() {
    assert_eq!(
        parse("++>+."),
        Ok(vec![
            Instruction::IncreaseCell(2),
            Instruction::MoveRight(1),
            Instruction::IncreaseCell(1),
            Instruction::PrintCharacter,
        ])
    );
}

#[test]
fn empty_source_is_empty_program() {
    assert_eq!(parse(""), Ok(vec![]));
}

#[test]
fn source_of_comments_only_is_empty_program() {
    assert_eq!(parse("no operators here\n"), Ok(vec![]));
}

#[test]
fn three_pluses_and_a_space_are_one_instruction() {
    assert_eq!(parse("+++ "), Ok(vec![Instruction::IncreaseCell(3)]));
}

#[test]
fn a_run_of_any_length_is_one_instruction() {
    for n in [1usize, 2, 3, 7, 255, 256, 1000] {
        assert_eq!(parse(&run_of('+', n)), Ok(vec![Instruction::IncreaseCell(n)]));
        assert_eq!(parse(&run_of('-', n)), Ok(vec![Instruction::DecreaseCell(n)]));
        assert_eq!(parse(&run_of('>', n)), Ok(vec![Instruction::MoveRight(n)]));
        assert_eq!(parse(&run_of('<', n)), Ok(vec![Instruction::MoveLeft(n)]));
    }
}

#[test]
fn comments_do_not_interrupt_a_run() {
    assert_eq!(parse("+ a\n+\t+ plus +"), Ok(vec![Instruction::IncreaseCell(4)]));
    assert_eq!(parse("<é<\u{1F600}<"), Ok(vec![Instruction::MoveLeft(3)]));
}

#[test]
fn another_operator_interrupts_a_run() {
    assert_eq!(
        parse("+>+"),
        Ok(vec![
            Instruction::IncreaseCell(1),
            Instruction::MoveRight(1),
            Instruction::IncreaseCell(1),
        ])
    );
    assert_eq!(
        parse("++-++"),
        Ok(vec![
            Instruction::IncreaseCell(2),
            Instruction::DecreaseCell(1),
            Instruction::IncreaseCell(2),
        ])
    );
    assert_eq!(
        parse("><<>"),
        Ok(vec![
            Instruction::MoveRight(1),
            Instruction::MoveLeft(2),
            Instruction::MoveRight(1),
        ])
    );
    assert_eq!(
        parse("+.+"),
        Ok(vec![
            Instruction::IncreaseCell(1),
            Instruction::PrintCharacter,
            Instruction::IncreaseCell(1),
        ])
    );
}

#[test]
fn print_and_read_are_never_folded() {
    assert_eq!(
        parse("..,,"),
        Ok(vec![
            Instruction::PrintCharacter,
            Instruction::PrintCharacter,
            Instruction::ReadCharacter,
            Instruction::ReadCharacter,
        ])
    );
}

#[test]
fn brackets_become_a_loop() {
    assert_eq!(
        parse("+[>+<-]"),
        Ok(vec![
            Instruction::IncreaseCell(1),
            Instruction::Loop(vec![
                Instruction::MoveRight(1),
                Instruction::IncreaseCell(1),
                Instruction::MoveLeft(1),
                Instruction::DecreaseCell(1),
            ]),
        ])
    );
}

#[test]
fn empty_loop_has_empty_body() {
    assert_eq!(parse("[]"), Ok(vec![Instruction::Loop(vec![])]));
}

#[test]
fn loops_nest() {
    assert_eq!(
        parse("[[+]-][.]"),
        Ok(vec![
            Instruction::Loop(vec![
                Instruction::Loop(vec![Instruction::IncreaseCell(1)]),
                Instruction::DecreaseCell(1),
            ]),
            Instruction::Loop(vec![Instruction::PrintCharacter]),
        ])
    );
}

#[test]
fn a_run_does_not_reach_across_a_bracket() {
    assert_eq!(
        parse("+[+]+"),
        Ok(vec![
            Instruction::IncreaseCell(1),
            Instruction::Loop(vec![Instruction::IncreaseCell(1)]),
            Instruction::IncreaseCell(1),
        ])
    );
    assert_eq!(
        parse("[-][-]"),
        Ok(vec![
            Instruction::Loop(vec![Instruction::DecreaseCell(1)]),
            Instruction::Loop(vec![Instruction::DecreaseCell(1)]),
        ])
    );
}

#[test]
fn deep_nesting_parses() {
    let mut text = String::new();
    for _ in 0..200 {
        text.push('[');
    }
    text.push('+');
    for _ in 0..200 {
        text.push(']');
    }
    let mut expected = vec![Instruction::IncreaseCell(1)];
    for _ in 0..200 {
        expected = vec![Instruction::Loop(expected)];
    }
    assert_eq!(parse(&text), Ok(expected));
}

#[test]
fn unterminated_loop_is_rejected() {
    assert_eq!(parse("["), Err(ParseError::UnterminatedLoop));
    assert_eq!(parse("+["), Err(ParseError::UnterminatedLoop));
    assert_eq!(parse("+[>+<-"), Err(ParseError::UnterminatedLoop));
    assert_eq!(parse("[[]"), Err(ParseError::UnterminatedLoop));
    assert_eq!(parse("[][[][]"), Err(ParseError::UnterminatedLoop));
    assert_eq!(parse("[ and nothing more"), Err(ParseError::UnterminatedLoop));
}

#[test]
fn unmatched_close_is_rejected() {
    assert_eq!(parse("]"), Err(ParseError::UnmatchedCloseBracket));
    assert_eq!(parse("+]"), Err(ParseError::UnmatchedCloseBracket));
    assert_eq!(parse("[]]"), Err(ParseError::UnmatchedCloseBracket));
    assert_eq!(parse("[+[-]]>]<"), Err(ParseError::UnmatchedCloseBracket));
}

#[test]
fn the_bracket_met_first_decides_the_error() {
    assert_eq!(parse("]["), Err(ParseError::UnmatchedCloseBracket));
    assert_eq!(parse("[]]["), Err(ParseError::UnmatchedCloseBracket));
    assert_eq!(parse("[[]]["), Err(ParseError::UnterminatedLoop));
}

#[test]
fn parse_error_messages() {
    assert_eq!(
        ParseError::UnmatchedCloseBracket.message(),
        "End of loop without beginning."
    );
    assert_eq!(
        ParseError::UnterminatedLoop.message(),
        "Beginning of loop without end."
    );
}
