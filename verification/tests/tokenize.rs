use sexpr::tokenize::{tokenize, Token};

#[test]
fn should_tokenize_parentheses() {
    let input: &str = "()";
    let result: [Token; 2] = [Token::parenthesis('('), Token::parenthesis(')')];

    assert!(tokenize(input).unwrap().iter().eq(result.iter()))
}

#[test]
fn should_ignore_whitespace() {
    let input: &str = "              ";
    let result: [Token; 0] = [];

    assert!(tokenize(input).unwrap().iter().eq(result.iter()))
}

#[test]
fn should_tokenize_single_digit() {
    let input: &str = "5";
    let result: [Token; 1] = [Token::number(5 as u32)];

    assert!(tokenize(input).unwrap().iter().eq(result.iter()))
}

#[test]
fn should_tokenize_single_numbers_in_expressions() {
    let input: &str = "(1 2)";
    let result: [Token; 4] = [
        Token::parenthesis('('),
        Token::number(1 as u32),
        Token::number(2 as u32),
        Token::parenthesis(')'),
    ];

    assert!(tokenize(input).unwrap().iter().eq(result.iter()))
}

#[test]
fn should_tokenize_single_letters_in_expressions() {
    let input: &str = "(a b)";
    let result: [Token; 4] = [
        Token::parenthesis('('),
        Token::name("a"),
        Token::name("b"),
        Token::parenthesis(')'),
    ];

    assert!(tokenize(input).unwrap().iter().eq(result.iter()))
}

#[test]
fn should_tokenize_multi_digit_numbers() {
    let input: &str = "(11 22)";
    let result: [Token; 4] = [
        Token::parenthesis('('),
        Token::number(11 as u32),
        Token::number(22 as u32),
        Token::parenthesis(')'),
    ];

    assert!(tokenize(input).unwrap().iter().eq(result.iter()))
}

#[test]
fn should_tokenize_a_simple_expression() {
    let input: &str = "(add 2 3)";
    let result: [Token; 5] = [
        Token::parenthesis('('),
        Token::name("add"),
        Token::number(2 as u32),
        Token::number(3 as u32),
        Token::parenthesis(')'),
    ];

    assert!(tokenize(input).unwrap().iter().eq(result.iter()))
}

#[test]
fn should_ignore_more_whitespace() {
    let input: &str = "   (add   2 3)";
    let result: [Token; 5] = [
        Token::parenthesis('('),
        Token::name("add"),
        Token::number(2 as u32),
        Token::number(3 as u32),
        Token::parenthesis(')'),
    ];

    assert!(tokenize(input).unwrap().iter().eq(result.iter()))
}

#[test]
fn should_tokenize_strings() {
    let input: &str = "(log \"hello\" \"world\")";
    let result: [Token; 5] = [
        Token::parenthesis('('),
        Token::name("log"),
        Token::string("hello"),
        Token::string("world"),
        Token::parenthesis(')'),
    ];

    assert!(tokenize(input).unwrap().iter().eq(result.iter()))
}
