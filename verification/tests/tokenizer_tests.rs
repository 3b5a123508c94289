use ccbf::tokenizer::{tokenize, Token};

#[test]
fn right_angled_bracket() {
    let got = tokenize(">");
    assert_eq!(got, vec![Token::MovePointerRight]);
}

#[test]
fn left_angled_bracket() {
    let got = tokenize("<");
    assert_eq!(got, vec![Token::MovePointerLeft]);
}

#[test]
fn increment_operator() {
    let got = tokenize("+");
    assert_eq!(got, vec![Token::Increment]);
}

#[test]
fn print_instruction() {
    let got = tokenize(".");
    assert_eq!(got, vec![Token::Print]);
}

#[test]
fn complex_expression() {
    let got = tokenize(">+++.<,[-THIS IS A COMMENT]");
    assert_eq!(
        got,
        vec![
            Token::MovePointerRight,
            Token::Increment,
            Token::Increment,
            Token::Increment,
            Token::Print,
            Token::MovePointerLeft,
            Token::Read,
            Token::LeftBracket,
            Token::Decrement,
            Token::RightBracket
        ]
    );
}

#[test]
fn comments_are_dropped_in_order() {
    let got = tokenize("a+b-c");
    assert_eq!(got, vec![Token::Increment, Token::Decrement]);
    assert!(tokenize("no meaningful characters at all").len() <= "no meaningful characters at all".len());
    assert_eq!(tokenize(""), vec![]);
}

#[test]
fn all_eight_symbols_decode() {
    let got = tokenize("><+-.,[]");
    assert_eq!(
        got,
        vec![
            Token::MovePointerRight,
            Token::MovePointerLeft,
            Token::Increment,
            Token::Decrement,
            Token::Print,
            Token::Read,
            Token::LeftBracket,
            Token::RightBracket
        ]
    );
}
