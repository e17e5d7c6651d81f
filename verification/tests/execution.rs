use brainfuck_interpreter::{
    parse, Action, BrainfuckContext, Event, Execution, Instruction, RuntimeError, CELL_AMOUNT,
};

const MIDDLE: usize = CELL_AMOUNT / 2;

/// Runs `program` on `context` to its end, serving each read with the next of
/// `lines` and with the end of input when they are used up. Gives back what
/// was written and how many lines were asked for.
fn drive(
    context: &mut BrainfuckContext,
    program: &[Instruction],
    lines: &[&str],
    budget: usize,
) -> (String, usize) {
    let mut execution = Execution::new(program);
    let mut output = String::new();
    let mut asked = 0;
    let mut event = Event::Resume;
    for _ in 0..1_000_000 {
        match context.execute(&mut execution, event, budget) {
            Ok(Action::Halt) => return (output, asked),
            Ok(Action::Continue) => event = Event::Resume,
            Ok(Action::Write(c)) => {
                output.push(c);
                event = Event::Resume;
            }
            Ok(Action::ReadLine) => {
                event = match lines.get(asked) {
                    Some(line) => Event::Line(line.to_string()),
                    None => Event::EndOfInput,
                };
                asked += 1;
            }
            Err(error) => panic!("{}", error.message()),
        }
    }
    panic!("the program did not end");
}

fn run(source: &str, lines: &[&str]) -> (String, BrainfuckContext) {
    let program = parse(source).unwrap();
    let mut context = BrainfuckContext::new();
    let (output, _) = drive(&mut context, &program, lines, 1000);
    (output, context)
}

#[test]
fn new_context_is_blank() {
    let context = BrainfuckContext::new();
    assert_eq!(context.cursor(), 150_000);
    assert_eq!(context.current_cell(), 0);
    assert_eq!(context.pending_input(), 0);
    assert_eq!(context.cell(0), Some(0));
    assert_eq!(context.cell(150_000), Some(0));
    assert_eq!(context.cell(299_999), Some(0));
    assert_eq!(context.cell(300_000), None);
    for index in 0..CELL_AMOUNT {
        assert_eq!(context.cell(index), Some(0));
    }
}

#[test]
fn tape_has_three_hundred_thousand_cells() {
    assert_eq!(CELL_AMOUNT, 300_000);
}

#[test]
fn increase_wraps_at_256() {
    let mut context = BrainfuckContext::new();
    context.increase_cell(5);
    assert_eq!(context.current_cell(), 5);
    context.increase_cell(250);
    assert_eq!(context.current_cell(), 255);
    context.increase_cell(1);
    assert_eq!(context.current_cell(), 0);
    context.increase_cell(300);
    assert_eq!(context.current_cell(), 44);
    context.increase_cell(usize::MAX);
    assert_eq!(context.current_cell(), 43);
}

#[test]
fn decrease_wraps_at_256() {
    let mut context = BrainfuckContext::new();
    context.decrease_cell(1);
    assert_eq!(context.current_cell(), 255);
    context.decrease_cell(255);
    assert_eq!(context.current_cell(), 0);
    context.decrease_cell(300);
    assert_eq!(context.current_cell(), 212);
    context.decrease_cell(usize::MAX);
    assert_eq!(context.current_cell(), 213);
}

#[test]
fn incrementing_256_times_comes_round() {
    for start in [0usize, 1, 77, 255] {
        let mut context = BrainfuckContext::new();
        context.increase_cell(start);
        for _ in 0..256 {
            context.increase_cell(1);
        }
        assert_eq!(context.current_cell() as usize, start);
        context.increase_cell(256);
        assert_eq!(context.current_cell() as usize, start);
        for _ in 0..256 {
            context.decrease_cell(1);
        }
        assert_eq!(context.current_cell() as usize, start);
        context.decrease_cell(256);
        assert_eq!(context.current_cell() as usize, start);
    }
}

#[test]
fn cursor_wraps_at_tape_length() {
    let mut context = BrainfuckContext::new();
    context.move_right(149_999);
    assert_eq!(context.cursor(), 299_999);
    context.move_right(1);
    assert_eq!(context.cursor(), 0);
    context.move_left(1);
    assert_eq!(context.cursor(), 299_999);
    context.move_left(300_001);
    assert_eq!(context.cursor(), 299_998);
    context.move_right(600_005);
    assert_eq!(context.cursor(), 3);
    context.move_right(usize::MAX);
    assert_eq!(context.cursor(), (3 + usize::MAX % 300_000) % 300_000);
    let here = context.cursor();
    context.move_left(usize::MAX);
    assert_eq!(context.cursor(), 3);
    assert_ne!(here, 3);
}

#[test]
fn moving_300000_times_comes_round() {
    let mut context = BrainfuckContext::new();
    context.move_right(12_345);
    let start = context.cursor();
    for _ in 0..300_000 {
        context.move_right(1);
    }
    assert_eq!(context.cursor(), start);
    context.move_right(300_000);
    assert_eq!(context.cursor(), start);
    for _ in 0..300_000 {
        context.move_left(1);
    }
    assert_eq!(context.cursor(), start);
    context.move_left(300_000);
    assert_eq!(context.cursor(), start);
}

#[test]
fn moving_changes_no_cell_and_arithmetic_moves_no_cursor() {
    let mut context = BrainfuckContext::new();
    context.increase_cell(9);
    assert_eq!(context.cursor(), MIDDLE);
    context.move_right(2);
    assert_eq!(context.current_cell(), 0);
    assert_eq!(context.cell(MIDDLE), Some(9));
    context.move_left(2);
    assert_eq!(context.current_cell(), 9);
}

#[test]
fn print_gives_the_character_of_the_cell() {
    let mut context = BrainfuckContext::new();
    assert_eq!(context.print_character(), '\0');
    context.increase_cell(65);
    assert_eq!(context.print_character(), 'A');
    context.increase_cell(168);
    assert_eq!(context.print_character(), '\u{e9}');
    context.increase_cell(22);
    assert_eq!(context.print_character(), '\u{ff}');
}

#[test]
fn feed_line_strips_one_line_feed() {
    let mut context = BrainfuckContext::new();
    context.feed_line("ab\n");
    assert_eq!(context.pending_input(), 2);
    context.feed_line("c");
    assert_eq!(context.pending_input(), 3);
    context.feed_line("\n");
    assert_eq!(context.pending_input(), 3);
    context.feed_line("");
    assert_eq!(context.pending_input(), 3);
    context.feed_line("d\n\n");
    assert_eq!(context.pending_input(), 5);
    let mut seen = Vec::new();
    while context.read_character() {
        seen.push(context.current_cell());
    }
    assert_eq!(seen, vec![b'a', b'b', b'c', b'd', b'\n']);
}

#[test]
fn feed_line_keeps_a_carriage_return() {
    let mut context = BrainfuckContext::new();
    context.feed_line("x\r\n");
    assert_eq!(context.pending_input(), 2);
    assert!(context.read_character());
    assert_eq!(context.current_cell(), b'x');
    assert!(context.read_character());
    assert_eq!(context.current_cell(), b'\r');
}

#[test]
fn read_character_without_input_changes_nothing() {
    let mut context = BrainfuckContext::new();
    context.increase_cell(7);
    assert!(!context.read_character());
    assert_eq!(context.current_cell(), 7);
    assert_eq!(context.cursor(), MIDDLE);
}

#[test]
fn read_character_keeps_the_low_eight_bits() {
    let mut context = BrainfuckContext::new();
    context.feed_line("\u{e9}\u{100}\u{141}\u{1F600}");
    assert!(context.read_character());
    assert_eq!(context.current_cell(), 0xe9);
    assert!(context.read_character());
    assert_eq!(context.current_cell(), 0x00);
    assert!(context.read_character());
    assert_eq!(context.current_cell(), 0x41);
    assert!(context.read_character());
    assert_eq!(context.current_cell(), 0x00);
    assert!(!context.read_character());
}

#[test]
fn scenario_print_code_point_one() {
    let (output, context) = run("++>+.", &[]);
    assert_eq!(output, "\u{1}");
    assert_eq!(context.cell(MIDDLE), Some(2));
    assert_eq!(context.cell(MIDDLE + 1), Some(1));
    assert_eq!(context.cursor(), MIDDLE + 1);
}

#[test]
fn scenario_copy_loop() {
    let (output, context) = run("+[>+<-]", &[]);
    assert_eq!(output, "");
    assert_eq!(context.cell(MIDDLE), Some(0));
    assert_eq!(context.cell(MIDDLE + 1), Some(1));
    assert_eq!(context.cursor(), MIDDLE);
}

#[test]
fn scenario_echo_one_character() {
    let (output, _) = run(",.", &["A\n"]);
    assert_eq!(output, "A");
    let (output, _) = run(",.", &["A"]);
    assert_eq!(output, "A");
}

#[test]
fn scenario_empty_program() {
    let program = parse("").unwrap();
    assert!(program.is_empty());
    let mut context = BrainfuckContext::new();
    let mut execution = Execution::new(&program);
    assert_eq!(context.execute(&mut execution, Event::Resume, 10), Ok(Action::Halt));
    assert_eq!(context.cursor(), MIDDLE);
    assert_eq!(context.current_cell(), 0);
    let (output, asked) = drive(&mut context, &program, &[], 10);
    assert_eq!(output, "");
    assert_eq!(asked, 0);
}

#[test]
fn loop_is_skipped_when_cell_is_zero() {
    let (output, context) = run("[+.]", &[]);
    assert_eq!(output, "");
    assert_eq!(context.current_cell(), 0);
}

#[test]
fn loop_runs_until_cell_is_zero() {
    let (output, context) = run("+++[>++<-]", &[]);
    assert_eq!(output, "");
    assert_eq!(context.cell(MIDDLE), Some(0));
    assert_eq!(context.cell(MIDDLE + 1), Some(6));
}

#[test]
fn nested_loops_multiply() {
    let (_, context) = run("+++[>++++[>+++++<-]<-]", &[]);
    assert_eq!(context.cell(MIDDLE + 2), Some(60));
    assert_eq!(context.cell(MIDDLE + 1), Some(0));
    assert_eq!(context.cell(MIDDLE), Some(0));
}

#[test]
fn loop_relies_on_wrapping() {
    let (_, context) = run("-[>+<-]", &[]);
    assert_eq!(context.cell(MIDDLE + 1), Some(255));
    let (_, context) = run("+[+]", &[]);
    assert_eq!(context.current_cell(), 0);
}

#[test]
fn tape_is_circular_for_programs() {
    let mut source = String::from("+");
    for _ in 0..300_000 {
        source.push('>');
    }
    source.push('+');
    let (_, context) = run(&source, &[]);
    assert_eq!(context.cursor(), MIDDLE);
    assert_eq!(context.current_cell(), 2);
}

#[test]
fn hello_world() {
    let source = "++++++++[>++++[>++>+++>+++>+<<<<-]>+>+>->>+[<]<-]>>.>---.+++++++..+++.\
                  >>.<-.<.+++.------.--------.>>+.>++.";
    let (output, _) = run(source, &[]);
    assert_eq!(output, "Hello World!\n");
}

#[test]
fn output_comes_in_program_order() {
    let (output, _) = run("+.+.+.>,.<.", &["x\n"]);
    assert_eq!(output, "\u{1}\u{2}\u{3}x\u{3}");
}

#[test]
fn a_line_is_consumed_first_character_first() {
    let program = parse(",.,.,.").unwrap();
    let mut context = BrainfuckContext::new();
    let (output, asked) = drive(&mut context, &program, &["abc\n"], 100);
    assert_eq!(output, "abc");
    assert_eq!(asked, 1);
}

#[test]
fn a_new_line_is_asked_for_when_none_is_pending() {
    let program = parse(",.,.,.").unwrap();
    let mut context = BrainfuckContext::new();
    let (output, asked) = drive(&mut context, &program, &["a\n", "bc\n"], 100);
    assert_eq!(output, "abc");
    assert_eq!(asked, 2);
}

#[test]
fn end_of_input_leaves_the_cell_unchanged() {
    let program = parse("+++,.").unwrap();
    let mut context = BrainfuckContext::new();
    let (output, asked) = drive(&mut context, &program, &[], 100);
    assert_eq!(output, "\u{3}");
    assert_eq!(asked, 1);
    assert_eq!(context.current_cell(), 3);
}

#[test]
fn an_empty_line_leaves_the_cell_unchanged() {
    let program = parse("+++,.,.").unwrap();
    let mut context = BrainfuckContext::new();
    let (output, asked) = drive(&mut context, &program, &["\n", "z\n"], 100);
    assert_eq!(output, "\u{3}z");
    assert_eq!(asked, 2);
}

#[test]
fn execute_stops_at_each_request() {
    let program = parse("+.,-").unwrap();
    let mut context = BrainfuckContext::new();
    let mut execution = Execution::new(&program);
    assert_eq!(
        context.execute(&mut execution, Event::Resume, 100),
        Ok(Action::Write('\u{1}'))
    );
    assert_eq!(context.current_cell(), 1);
    assert_eq!(context.execute(&mut execution, Event::Resume, 100), Ok(Action::ReadLine));
    assert_eq!(context.execute(&mut execution, Event::Resume, 100), Ok(Action::ReadLine));
    assert_eq!(context.current_cell(), 1);
    assert_eq!(
        context.execute(&mut execution, Event::Line("5\n".to_string()), 100),
        Ok(Action::Halt)
    );
    assert_eq!(context.current_cell(), b'5' - 1);
    assert_eq!(context.execute(&mut execution, Event::Resume, 100), Ok(Action::Halt));
    assert_eq!(context.current_cell(), b'5' - 1);
}

#[test]
fn execute_hands_back_when_the_budget_is_spent() {
    let program = parse("+[]").unwrap();
    let mut context = BrainfuckContext::new();
    let mut execution = Execution::new(&program);
    for _ in 0..50 {
        assert_eq!(context.execute(&mut execution, Event::Resume, 1000), Ok(Action::Continue));
        assert_eq!(context.current_cell(), 1);
    }
}

#[test]
fn budget_counts_steps() {
    let program = parse("+++>++").unwrap();
    let mut context = BrainfuckContext::new();
    let mut execution = Execution::new(&program);
    assert_eq!(context.execute(&mut execution, Event::Resume, 0), Ok(Action::Continue));
    assert_eq!(context.current_cell(), 0);
    assert_eq!(context.execute(&mut execution, Event::Resume, 1), Ok(Action::Continue));
    assert_eq!(context.current_cell(), 3);
    assert_eq!(context.cursor(), MIDDLE);
    assert_eq!(context.execute(&mut execution, Event::Resume, 2), Ok(Action::Continue));
    assert_eq!(context.cursor(), MIDDLE + 1);
    assert_eq!(context.current_cell(), 2);
    assert_eq!(context.execute(&mut execution, Event::Resume, 1), Ok(Action::Halt));
}

#[test]
fn budget_may_be_spent_in_parts() {
    let source = "++++++++[>++++[>++>+++>+++>+<<<<-]>+>+>->>+[<]<-]";
    let program = parse(source).unwrap();
    let mut whole = BrainfuckContext::new();
    let mut execution = Execution::new(&program);
    assert_eq!(whole.execute(&mut execution, Event::Resume, 100_000), Ok(Action::Halt));
    let mut parts = BrainfuckContext::new();
    let (_, _) = drive(&mut parts, &program, &[], 7);
    assert_eq!(parts.cursor(), whole.cursor());
    for index in MIDDLE - 10..MIDDLE + 10 {
        assert_eq!(parts.cell(index), whole.cell(index));
    }
}

#[test]
fn step_runs_one_instruction() {
    let program = parse("++[-]").unwrap();
    let mut context = BrainfuckContext::new();
    let mut execution = Execution::new(&program);
    assert_eq!(execution.depth(), 0);
    assert_eq!(context.step(&mut execution), Action::Continue);
    assert_eq!(context.current_cell(), 2);
    assert_eq!(context.step(&mut execution), Action::Continue);
    assert_eq!(execution.depth(), 1);
    assert_eq!(context.step(&mut execution), Action::Continue);
    assert_eq!(context.current_cell(), 1);
    assert_eq!(context.step(&mut execution), Action::Continue);
    assert_eq!(execution.depth(), 1);
    assert_eq!(context.step(&mut execution), Action::Continue);
    assert_eq!(context.current_cell(), 0);
    assert_eq!(context.step(&mut execution), Action::Continue);
    assert_eq!(execution.depth(), 0);
    assert_eq!(context.step(&mut execution), Action::Halt);
    assert_eq!(context.step(&mut execution), Action::Halt);
}

#[test]
fn io_failure_abandons_the_run_where_it_stands() {
    let program = parse("++.+").unwrap();
    let mut context = BrainfuckContext::new();
    let mut execution = Execution::new(&program);
    assert_eq!(
        context.execute(&mut execution, Event::Resume, 100),
        Ok(Action::Write('\u{2}'))
    );
    assert_eq!(
        context.execute(&mut execution, Event::IoFailure, 100),
        Err(RuntimeError::IoFailure)
    );
    assert_eq!(context.current_cell(), 2);
    assert_eq!(context.cursor(), MIDDLE);
    assert_eq!(RuntimeError::IoFailure.message(), "Input or output failed.");
}

#[test]
fn a_line_handed_over_early_is_kept_for_later() {
    let program = parse("+,.").unwrap();
    let mut context = BrainfuckContext::new();
    let mut execution = Execution::new(&program);
    assert_eq!(
        context.execute(&mut execution, Event::Line("q\n".to_string()), 100),
        Ok(Action::Write('q'))
    );
    assert_eq!(context.pending_input(), 0);
}

#[test]
fn instructions_can_be_run_without_parsing() {
    let program = vec![
        Instruction::IncreaseCell(513),
        Instruction::Loop(vec![
            Instruction::MoveLeft(300_001),
            Instruction::IncreaseCell(2),
            Instruction::MoveRight(1),
            Instruction::DecreaseCell(257),
        ]),
        Instruction::MoveLeft(1),
        Instruction::PrintCharacter,
    ];
    let mut context = BrainfuckContext::new();
    let (output, _) = drive(&mut context, &program, &[], 3);
    assert_eq!(output, "\u{2}");
    assert_eq!(context.cursor(), MIDDLE - 1);
}

/// Runs `program` the plain way, each loop body by a call of this function,
/// with nothing but the context's own instructions.
fn walk(
    context: &mut BrainfuckContext,
    program: &[Instruction],
    lines: &[&str],
    asked: &mut usize,
    output: &mut String,
) {
    for instruction in program {
        match instruction {
            Instruction::IncreaseCell(n) => context.increase_cell(*n),
            Instruction::DecreaseCell(n) => context.decrease_cell(*n),
            Instruction::MoveRight(n) => context.move_right(*n),
            Instruction::MoveLeft(n) => context.move_left(*n),
            Instruction::PrintCharacter => output.push(context.print_character()),
            Instruction::ReadCharacter => {
                if context.pending_input() == 0 {
                    if let Some(line) = lines.get(*asked) {
                        context.feed_line(line);
                    }
                    *asked += 1;
                }
                context.read_character();
            }
            Instruction::Loop(body) => {
                while context.current_cell() != 0 {
                    walk(context, body, lines, asked, output);
                }
            }
        }
    }
}

#[test]
fn stepping_agrees_with_walking_the_tree() {
    let cases: [(&str, &[&str]); 8] = [
        ("", &[]),
        ("++>+.", &[]),
        ("+[>+<-]", &[]),
        (",.", &["A\n"]),
        (",[.,]", &["abc\n", "de\u{0}\n"]),
        ("+++[>,.<-]", &["x\n", "yz"]),
        ("++++++++[>++++[>++>+++>+++>+<<<<-]>+>+>->>+[<]<-]>>.>---.+++++++..+++.", &[]),
        (">>+++[<+++[<+++>-]>-]<<[>+>+<<-]>.>.,.,.,.", &["1\n"]),
    ];
    for (source, lines) in cases {
        let program = parse(source).unwrap();
        let mut walked = BrainfuckContext::new();
        let mut walked_asked = 0;
        let mut walked_output = String::new();
        walk(&mut walked, &program, lines, &mut walked_asked, &mut walked_output);
        for budget in [1usize, 2, 5, 1000] {
            let mut stepped = BrainfuckContext::new();
            let (output, asked) = drive(&mut stepped, &program, lines, budget);
            assert_eq!(output, walked_output);
            assert_eq!(asked, walked_asked);
            assert_eq!(stepped.cursor(), walked.cursor());
            assert_eq!(stepped.pending_input(), walked.pending_input());
            for index in MIDDLE - 20..MIDDLE + 20 {
                assert_eq!(stepped.cell(index), walked.cell(index));
            }
        }
    }
}
