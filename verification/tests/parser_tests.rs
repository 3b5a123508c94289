use ccbf::parser::{parse, ParseError, Statement};
use ccbf::tokenizer::Token;

#[test]
fn simple_jump_expression() {
    let got = parse(&vec![
        Token::Increment,
        Token::LeftBracket,
        Token::Decrement,
        Token::RightBracket,
    ]);
    assert_eq!(
        got,
        Ok(vec![
            Statement::Increment,
            Statement::JumpIfZero(0),
            Statement::Decrement,
            Statement::JumpIfNotZero(0)
        ])
    );
}

#[test]
fn parser_nested_jump_expressions() {
    let got = parse(&vec![
        Token::Increment,
        Token::LeftBracket,
        Token::LeftBracket,
        Token::MovePointerLeft,
        Token::RightBracket,
        Token::Decrement,
        Token::RightBracket,
    ]);

    assert_eq!(
        got,
        Ok(vec![
            Statement::Increment,
            Statement::JumpIfZero(0),
            Statement::JumpIfZero(1),
            Statement::ShiftLeft,
            Statement::JumpIfNotZero(1),
            Statement::Decrement,
            Statement::JumpIfNotZero(0)
        ])
    )
}

#[test]
fn unbalanced_expression() {
    let got = parse(&vec![
        Token::Increment,
        Token::LeftBracket,
        Token::Decrement,
    ]);
    assert_eq!(got, Err(ParseError::UnbalancedBrackets));
}

#[test]
fn unmatched_close_is_unbalanced() {
    let got = parse(&vec![Token::RightBracket]);
    assert_eq!(got, Err(ParseError::UnbalancedBrackets));
    let got = parse(&vec![Token::RightBracket, Token::LeftBracket]);
    assert_eq!(got, Err(ParseError::UnbalancedBrackets));
}

#[test]
fn sibling_groups_reuse_depths() {
    let got = parse(&vec![
        Token::LeftBracket,
        Token::RightBracket,
        Token::LeftBracket,
        Token::RightBracket,
    ]);
    assert_eq!(
        got,
        Ok(vec![
            Statement::JumpIfZero(0),
            Statement::JumpIfNotZero(0),
            Statement::JumpIfZero(0),
            Statement::JumpIfNotZero(0)
        ])
    );
}

#[test]
fn empty_input_parses_empty() {
    assert_eq!(parse(&vec![]), Ok(vec![]));
}
