use brainfreeze::interpreter::{Fault, Interpret, Interpreter, State, MEMORY_SIZE};
use brainfreeze::lexer::Lexer;
use brainfreeze::parser::{Command, Iteration, Operator, Parser, Program};

fn program(text: &str) -> Program {
    let tokens = Lexer::new(text.to_string()).scan_tokens().unwrap();
    Parser::new(tokens).parse().unwrap()
}

fn run(text: &str, input: &[u8]) -> (Result<(), Fault>, State) {
    let mut interpreter = Interpreter::new(input.to_vec());
    let outcome = interpreter.interpret(&program(text));
    (outcome, interpreter.state)
}

#[test]
fn new_machine_is_blank() {
    let state = State::new(vec![1, 2, 3]);
    assert_eq!(MEMORY_SIZE, 256);
    assert_eq!(state.memory, vec![0; 256]);
    assert_eq!(state.pointer, 0);
    assert_eq!(state.input, vec![1, 2, 3]);
    assert_eq!(state.output, vec![]);
    assert_eq!(state.steps, u64::MAX);
    assert_eq!(Interpreter::new(vec![1, 2, 3]).state, state);
}

#[test]
fn increment_and_decrement_wrap_within_a_byte() {
    let mut state = State::new(vec![]);
    assert_eq!(Operator::Increment(3).interpret(&mut state), Ok(()));
    assert_eq!(state.memory[0], 3);
    assert_eq!(Operator::Decrement(5).interpret(&mut state), Ok(()));
    assert_eq!(state.memory[0], 254);
    assert_eq!(Operator::Increment(300).interpret(&mut state), Ok(()));
    assert_eq!(state.memory[0], 42);
    assert_eq!(Operator::Decrement(256 * 7 + 43).interpret(&mut state), Ok(()));
    assert_eq!(state.memory[0], 255);
    assert_eq!(Operator::Increment(usize::MAX).interpret(&mut state), Ok(()));
    assert_eq!(state.memory[0], 254);
}

#[test]
fn pointer_moves_by_the_count() {
    let mut state = State::new(vec![]);
    assert_eq!(Operator::Right(200).interpret(&mut state), Ok(()));
    assert_eq!(state.pointer, 200);
    assert_eq!(Operator::Left(55).interpret(&mut state), Ok(()));
    assert_eq!(state.pointer, 145);
    assert_eq!(Operator::Increment(1).interpret(&mut state), Ok(()));
    assert_eq!(state.memory[145], 1);
}

#[test]
fn pointer_cannot_leave_its_range() {
    let mut state = State::new(vec![]);
    assert_eq!(Operator::Left(1).interpret(&mut state), Err(Fault::PointerOverflow));
    assert_eq!(state, State::new(vec![]));
    assert_eq!(Operator::Right(1).interpret(&mut state), Ok(()));
    assert_eq!(Operator::Right(usize::MAX).interpret(&mut state), Err(Fault::PointerOverflow));
    assert_eq!(state.pointer, 1);
}

#[test]
fn no_cell_is_touched_outside_the_memory() {
    for operator in [
        Operator::Increment(1),
        Operator::Decrement(1),
        Operator::PutChar,
        Operator::ReadChar,
    ] {
        let mut state = State::new(vec![9]);
        assert_eq!(Operator::Right(256).interpret(&mut state), Ok(()));
        let before = state.clone();
        assert_eq!(operator.interpret(&mut state), Err(Fault::OutOfBounds));
        assert_eq!(state, before);
        assert_eq!(Operator::Left(1).interpret(&mut state), Ok(()));
        assert_eq!(operator.interpret(&mut state), Ok(()));
    }
    let (outcome, state) = run(">>", &[]);
    assert_eq!(outcome, Ok(()));
    assert_eq!(state.pointer, 2);
}

#[test]
fn loop_outside_the_memory_is_a_fault() {
    let mut state = State::new(vec![]);
    state.pointer = 256;
    let empty = Iteration { program: Program { commands: vec![] } };
    assert_eq!(empty.interpret(&mut state), Err(Fault::OutOfBounds));
    assert_eq!(state.steps, u64::MAX);
}

#[test]
fn output_is_appended() {
    let (outcome, state) = run("+++.+.", &[]);
    assert_eq!(outcome, Ok(()));
    assert_eq!(state.output, vec![3, 4]);
}

#[test]
fn input_is_taken_from_the_back_and_runs_out_to_zero() {
    let (outcome, state) = run(",>,>+,>+,", &[1, 2]);
    assert_eq!(outcome, Ok(()));
    assert_eq!(&state.memory[..4], &[2, 1, 0, 0]);
    assert_eq!(state.input, vec![]);
}

#[test]
fn loop_runs_while_the_cell_is_not_zero() {
    let (outcome, state) = run("++++[>+++<-]>.", &[]);
    assert_eq!(outcome, Ok(()));
    assert_eq!(state.output, vec![12]);
    assert_eq!(state.memory[0], 0);
    assert_eq!(state.pointer, 1);
    assert_eq!(state.steps, u64::MAX - 4);
}

#[test]
fn loop_on_a_zero_cell_is_skipped() {
    let (outcome, state) = run("[+.]", &[]);
    assert_eq!(outcome, Ok(()));
    assert_eq!(state, State::new(vec![]));
}

#[test]
fn nested_loops_multiply() {
    let (outcome, state) = run("+++[>++[>++++<-]<-]>>.", &[]);
    assert_eq!(outcome, Ok(()));
    assert_eq!(state.output, vec![24]);
    assert_eq!(state.steps, u64::MAX - 3 - 6);
}

#[test]
fn loop_stops_when_the_steps_are_spent() {
    let mut state = State::new(vec![]);
    state.steps = 5;
    assert_eq!(program("+[>+<]").interpret(&mut state), Err(Fault::StepLimit));
    assert_eq!(state.steps, 0);
    assert_eq!(state.memory[1], 5);
    assert_eq!(state.pointer, 0);
}

#[test]
fn steps_are_spent_once_for_each_round() {
    let mut state = State::new(vec![]);
    state.steps = 3;
    assert_eq!(program("+++[-]").interpret(&mut state), Ok(()));
    assert_eq!(state.steps, 0);
    let mut state = State::new(vec![]);
    state.steps = 2;
    assert_eq!(program("+++[-].").interpret(&mut state), Err(Fault::StepLimit));
    assert_eq!(state.memory[0], 1);
    assert_eq!(state.output, vec![]);
}

#[test]
fn fault_ends_the_program_where_it_happens() {
    let (outcome, state) = run("+.<+.", &[]);
    assert_eq!(outcome, Err(Fault::PointerOverflow));
    assert_eq!(state.output, vec![1]);
    assert_eq!(state.memory[0], 1);
    let (outcome, state) = run("+[.<]+", &[]);
    assert_eq!(outcome, Err(Fault::PointerOverflow));
    assert_eq!(state.output, vec![1]);
    assert_eq!(state.memory[0], 1);
    assert_eq!(state.steps, u64::MAX - 1);
}

#[test]
fn command_runs_as_what_it_holds() {
    let mut state = State::new(vec![]);
    assert_eq!(Command::Operator(Operator::Increment(2)).interpret(&mut state), Ok(()));
    let body = Program { commands: vec![Command::Operator(Operator::Decrement(1))] };
    assert_eq!(Command::Iteration(Iteration { program: body }).interpret(&mut state), Ok(()));
    assert_eq!(state.memory[0], 0);
    assert_eq!(state.steps, u64::MAX - 2);
}

#[test]
fn machine_is_kept_between_programs() {
    let mut interpreter = Interpreter::new(vec![]);
    assert_eq!(interpreter.interpret(&program("++>")), Ok(()));
    assert_eq!(interpreter.interpret(&program("+<.>.")), Ok(()));
    assert_eq!(interpreter.state.output, vec![2, 1]);
}
