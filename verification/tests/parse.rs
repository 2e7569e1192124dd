use sexpr::parse::{parse, TreeElement};
use sexpr::tokenize::Token;

#[test]
fn should_return_element_of_type_numeric_literal_for_number() {
    let value = 2 as u32;
    let input: Vec<Token> = vec![Token::number(value)];
    let result = TreeElement::numeric_literal(value);

    assert!(parse(input).unwrap().eq(&result))
}

#[test]
fn should_return_element_of_type_string_literal_for_string() {
    let value = "hello";
    let input: Vec<Token> = vec![Token::string(value)];
    let result = TreeElement::string_literal(value);

    assert!(parse(input).unwrap().eq(&result))
}

#[test]
fn should_return_element_of_type_identifier_for_names() {
    let value = 'x';
    let input: Vec<Token> = vec![Token::name(&value.to_string())];
    let result = TreeElement::identifier(&value.to_string());

    assert!(parse(input).unwrap().eq(&result))
}

#[test]
fn should_return_an_ast_for_a_basic_data_structure() {
    let input: Vec<Token> = vec![
        Token::parenthesis('('),
        Token::name("add"),
        Token::number(2 as u32),
        Token::number(3 as u32),
        Token::parenthesis(')'),
    ];
    let result = TreeElement::call_expression(
        "add",
        vec![
            TreeElement::numeric_literal(2 as u32),
            TreeElement::numeric_literal(3 as u32),
        ],
    );

    assert!(parse(input).unwrap().eq(&result))
}

#[test]
fn should_return_an_ast_for_a_nested_data_structure() {
    let input: Vec<Token> = vec![
        Token::parenthesis('('),
        Token::name("add"),
        Token::number(2 as u32),
        Token::number(3 as u32),
        Token::parenthesis('('),
        Token::name("subtract"),
        Token::number(4 as u32),
        Token::number(2 as u32),
        Token::parenthesis(')'),
        Token::parenthesis(')'),
    ];
    let result = TreeElement::call_expression(
        "add",
        vec![
            TreeElement::numeric_literal(2 as u32),
            TreeElement::numeric_literal(3 as u32),
            TreeElement::call_expression(
                "subtract",
                vec![
                    TreeElement::numeric_literal(4 as u32),
                    TreeElement::numeric_literal(2 as u32),
                ],
            ),
        ],
    );

    assert!(parse(input).unwrap().eq(&result))
}
