use combo_shorthand::tokenizer::tokenize;
use combo_shorthand::tokenizer::Token;

#[test]
fn test_blank() {
    let tokens = tokenize(&String::from(""));
    assert!(tokens.is_empty())
}

#[test]
fn test_text() {
    let tokens = tokenize(&String::from("x"));

    let expected = [Token::Text(String::from("x"))];

    assert_eq!(tokens, expected);
}

#[test]
fn test_addition() {
    let tokens = tokenize(&String::from("x + y"));

    let expected = [
        Token::Text(String::from("x")),
        Token::Plus,
        Token::Text(String::from("y")),
    ];

    assert_eq!(tokens, expected);
}

#[test]
fn test_option() {
    let tokens = tokenize(&String::from("{x, y}"));

    let expected = [
        Token::OptionStart,
        Token::Text(String::from("x")),
        Token::Comma,
        Token::Text(String::from("y")),
        Token::OptionEnd,
    ];

    assert_eq!(tokens, expected);
}

#[test]
fn tokenizer_test_range() {
    let tokens = tokenize(&String::from("{0-9}"));

    let expected = [
        Token::OptionStart,
        Token::Text(String::from("0")),
        Token::RangeSeparator,
        Token::Text(String::from("9")),
        Token::OptionEnd,
    ];

    assert_eq!(tokens, expected);
}
