use brainfreeze::lexer::{Lexer, Position, Token, TokenKind};
use brainfreeze::parser::{
    holds_end, Command, Iteration, Operator, ParseError, Parser, Program,
};

fn tokens_of(text: &str) -> Vec<Token> {
    Lexer::new(text.to_string()).scan_tokens().unwrap()
}

fn parse(text: &str) -> Result<Program, Vec<ParseError>> {
    Parser::new(tokens_of(text)).parse()
}

fn operators(operators: &[Operator]) -> Vec<Command> {
    operators.iter().map(|operator| Command::Operator(*operator)).collect()
}

fn looping(commands: Vec<Command>) -> Command {
    Command::Iteration(Iteration { program: Program { commands } })
}

#[test]
fn end_of_program_alone_is_the_empty_program() {
    assert_eq!(parse(""), Ok(Program { commands: vec![] }));
}

#[test]
fn operators_keep_their_counts() {
    assert_eq!(
        parse("+++-->><.,"),
        Ok(Program {
            commands: operators(&[
                Operator::Increment(3),
                Operator::Decrement(2),
                Operator::Right(2),
                Operator::Left(1),
                Operator::PutChar,
                Operator::ReadChar,
            ]),
        })
    );
}

#[test]
fn loops_nest() {
    let inner = looping(operators(&[Operator::Decrement(1)]));
    let mut body = operators(&[Operator::Right(1)]);
    body.push(inner);
    body.push(looping(vec![]));
    body.push(Command::Operator(Operator::Left(1)));
    let mut commands = operators(&[Operator::Increment(2)]);
    commands.push(looping(body));
    commands.push(Command::Operator(Operator::PutChar));
    assert_eq!(parse("++[>[-][]<]."), Ok(Program { commands }));
}

#[test]
fn parser_starts_at_the_first_token() {
    let parser = Parser::new(tokens_of("+."));
    assert_eq!(parser.current, 0);
    assert_eq!(parser.errors, vec![]);
    assert_eq!(parser.tokens, tokens_of("+."));
    assert_eq!(*parser.peek(), Token::new(TokenKind::Increment(1), Position::new(0, 2)));
    assert!(!parser.at_end());
}

#[test]
fn cursor_stops_at_the_end_of_the_program() {
    let mut parser = Parser::new(tokens_of("+."));
    assert_eq!(*parser.advance().kind(), TokenKind::Increment(1));
    assert_eq!(*parser.previous().kind(), TokenKind::Increment(1));
    assert_eq!(*parser.peek().kind(), TokenKind::PutChar);
    assert_eq!(*parser.advance().kind(), TokenKind::PutChar);
    assert!(parser.at_end());
    assert_eq!(*parser.advance().kind(), TokenKind::PutChar);
    assert_eq!(parser.current, 2);
    assert!(parser.at_end());
}

#[test]
fn operator_takes_one_token() {
    let mut parser = Parser::new(tokens_of(">>["));
    assert_eq!(parser.operator(), Some(Command::Operator(Operator::Right(2))));
    assert_eq!(parser.current, 1);
    assert_eq!(parser.operator(), None);
    assert_eq!(parser.current, 1);
}

#[test]
fn iteration_takes_a_whole_loop() {
    let mut parser = Parser::new(tokens_of("[+]-"));
    assert_eq!(parser.iteration(), Some(looping(operators(&[Operator::Increment(1)]))));
    assert_eq!(parser.current, 3);
    assert_eq!(parser.iteration(), None);
    assert_eq!(parser.current, 3);
    assert_eq!(parser.errors, vec![]);
}

#[test]
fn program_stops_at_a_loop_end() {
    let mut parser = Parser::new(tokens_of("+-]+"));
    assert_eq!(
        parser.program(),
        Program { commands: operators(&[Operator::Increment(1), Operator::Decrement(1)]) }
    );
    assert_eq!(parser.current, 2);
}

#[test]
fn push_error_takes_the_place_of_the_current_token() {
    let mut parser = Parser::new(tokens_of("\n  +."));
    parser.advance();
    parser.push_error("here".to_string());
    assert_eq!(parser.errors, vec![(Position::new(1, 4), "here".to_string())]);
}

#[test]
fn loop_without_end_is_reported_at_the_end() {
    assert_eq!(parse("+["), Err(vec![(Position::new(0, 2), "Expected ']'".to_string())]));
}

#[test]
fn every_open_loop_is_reported() {
    assert_eq!(
        parse("[[-][+["),
        Err(vec![
            (Position::new(0, 7), "Expected ']'".to_string()),
            (Position::new(0, 7), "Expected ']'".to_string()),
            (Position::new(0, 7), "Expected ']'".to_string()),
        ])
    );
}

#[test]
fn loop_end_without_start_is_unexpected() {
    assert_eq!(parse("]"), Err(vec![(Position::new(0, 1), "Unexpected token \"]\"".to_string())]));
}

#[test]
fn everything_after_an_unexpected_token_is_unexpected() {
    assert_eq!(
        parse("+]+[."),
        Err(vec![
            (Position::new(0, 2), "Unexpected token \"]\"".to_string()),
            (Position::new(0, 4), "Unexpected token \"+\"".to_string()),
            (Position::new(0, 4), "Unexpected token \"[\"".to_string()),
            (Position::new(0, 5), "Unexpected token \".\"".to_string()),
        ])
    );
}

#[test]
fn tokens_after_the_first_end_of_program_are_not_parsed() {
    let tokens = vec![
        Token::new(TokenKind::PutChar, Position::new(0, 0)),
        Token::new(TokenKind::EOF, Position::new(0, 1)),
        Token::new(TokenKind::LoopEnd, Position::new(0, 2)),
        Token::new(TokenKind::EOF, Position::new(0, 3)),
    ];
    assert_eq!(
        Parser::new(tokens).parse(),
        Ok(Program { commands: operators(&[Operator::PutChar]) })
    );
}

#[test]
fn end_of_program_is_found_anywhere() {
    let end = Token::new(TokenKind::EOF, Position::new(0, 0));
    let other = Token::new(TokenKind::PutChar, Position::new(0, 0));
    assert!(!holds_end(&vec![]));
    assert!(!holds_end(&vec![other, other]));
    assert!(holds_end(&vec![end]));
    assert!(holds_end(&vec![other, end]));
    assert!(holds_end(&vec![end, other]));
    assert!(holds_end(&tokens_of("")));
}

#[test]
fn parser_stops_at_an_end_of_program_that_is_not_last() {
    let tokens = vec![
        Token::new(TokenKind::LoopStart, Position::new(0, 1)),
        Token::new(TokenKind::EOF, Position::new(0, 2)),
        Token::new(TokenKind::LoopEnd, Position::new(0, 3)),
    ];
    assert_eq!(
        Parser::new(tokens).parse(),
        Err(vec![(Position::new(0, 2), "Expected ']'".to_string())])
    );
}
