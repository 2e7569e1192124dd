use sexpr::identify::{
    is_closing_parenthesis, is_letter, is_number, is_opening_parenthesis, is_operator,
    is_parenthesis, is_quote, is_whitespace,
};
use sexpr::parse::{classify, parenthesize, parse, Item, TreeElement};
use sexpr::tokenize::{tokenize, LexError, Token};

#[test]
fn empty_input_gives_no_tokens() {
    assert_eq!(tokenize(""), Ok(vec![]));
}

#[test]
fn whitespace_only_input_gives_no_tokens() {
    assert_eq!(tokenize("   "), Ok(vec![]));
}

#[test]
fn tabs_and_newlines_are_whitespace() {
    assert_eq!(tokenize("\t\n\r "), Ok(vec![]));
}

#[test]
fn unrecognized_characters_are_skipped() {
    assert_eq!(
        tokenize("a!b"),
        Ok(vec![Token::name("a"), Token::name("b")])
    );
}

#[test]
fn operator_characters_are_not_lexed() {
    assert_eq!(
        tokenize("1+2"),
        Ok(vec![Token::number(1), Token::number(2)])
    );
}

#[test]
fn digits_do_not_extend_names() {
    assert_eq!(
        tokenize("ab1cd"),
        Ok(vec![
            Token::name("ab"),
            Token::number(1),
            Token::name("cd"),
        ])
    );
}

#[test]
fn empty_string_literal_is_one_token() {
    assert_eq!(tokenize("\"\""), Ok(vec![Token::string("")]));
}

#[test]
fn string_contents_are_taken_verbatim() {
    assert_eq!(
        tokenize("\"a (1) b\""),
        Ok(vec![Token::string("a (1) b")])
    );
}

#[test]
fn largest_number_is_accepted() {
    assert_eq!(
        tokenize("4294967295"),
        Ok(vec![Token::number(4294967295)])
    );
}

#[test]
fn numeric_overflow_is_reported_with_its_position() {
    assert_eq!(
        tokenize("4294967296"),
        Err(LexError::NumericOverflow { at: 0 })
    );
    assert_eq!(
        tokenize("(add 99999999999)"),
        Err(LexError::NumericOverflow { at: 5 })
    );
}

#[test]
fn unterminated_string_is_reported_with_its_position() {
    assert_eq!(
        tokenize("\"abc"),
        Err(LexError::UnterminatedString { at: 0 })
    );
    assert_eq!(
        tokenize("abc\""),
        Err(LexError::UnterminatedString { at: 3 })
    );
}

#[test]
fn tokenize_is_deterministic() {
    let input = "(log \"hello\" 42) trailing ! 99";
    assert_eq!(tokenize(input), tokenize(input));
}

#[test]
fn parse_is_deterministic() {
    let tokens = tokenize("(add 2 (subtract 4 2))").unwrap();
    assert_eq!(parse(tokens.clone()), parse(tokens));
}

#[test]
fn parse_of_no_tokens_gives_nothing() {
    assert_eq!(parse(vec![]), None);
}

#[test]
fn parse_composes_with_tokenize() {
    let result = TreeElement::call_expression(
        "add",
        vec![
            TreeElement::numeric_literal(2),
            TreeElement::numeric_literal(3),
        ],
    );
    assert_eq!(parse(tokenize("(add 2 3)").unwrap()), Some(result));
}

#[test]
fn nesting_depth_is_preserved() {
    let result = TreeElement::call_expression(
        "a",
        vec![TreeElement::call_expression(
            "b",
            vec![TreeElement::call_expression(
                "c",
                vec![TreeElement::numeric_literal(1)],
            )],
        )],
    );
    assert_eq!(parse(tokenize("(a (b (c 1)))").unwrap()), Some(result));
}

#[test]
fn group_without_leading_name_gives_nothing() {
    assert_eq!(parse(tokenize("(2 3)").unwrap()), None);
}

#[test]
fn lone_closing_parenthesis_gives_nothing() {
    assert_eq!(parse(vec![Token::parenthesis(')')]), None);
}

#[test]
fn unmatched_open_parenthesis_is_tolerated() {
    let result = TreeElement::call_expression("add", vec![TreeElement::numeric_literal(2)]);
    assert_eq!(parse(tokenize("(add 2").unwrap()), Some(result));
}

#[test]
fn trailing_tokens_are_ignored() {
    let result = TreeElement::numeric_literal(5);
    assert_eq!(parse(tokenize("5 6").unwrap()), Some(result));
}

#[test]
fn unclassifiable_arguments_are_dropped() {
    let result = TreeElement::call_expression("add", vec![TreeElement::numeric_literal(2)]);
    assert_eq!(parse(tokenize("(add () 2)").unwrap()), Some(result));
}

#[test]
fn grouping_consumes_the_closing_parenthesis() {
    let tokens = tokenize("()").unwrap();
    assert_eq!(parenthesize(&tokens, 0), (Some(Item::Collection(vec![])), 2));
}

#[test]
fn grouping_nests_collections() {
    let tokens = tokenize("(a (b))").unwrap();
    let tree = Item::Collection(vec![
        Item::Value(Token::name("a")),
        Item::Collection(vec![Item::Value(Token::name("b"))]),
    ]);
    assert_eq!(parenthesize(&tokens, 0), (Some(tree), 6));
}

#[test]
fn grouping_wraps_a_lone_token_as_a_leaf() {
    let tokens = vec![Token::number(7), Token::number(8)];
    assert_eq!(
        parenthesize(&tokens, 0),
        (Some(Item::Value(Token::number(7))), 1)
    );
}

#[test]
fn grouping_past_the_end_gives_nothing() {
    let tokens = vec![Token::number(7)];
    assert_eq!(parenthesize(&tokens, 1), (None, 1));
}

#[test]
fn classify_turns_leaves_into_literals() {
    assert_eq!(
        classify(&Item::Value(Token::number(9))),
        Some(TreeElement::numeric_literal(9))
    );
    assert_eq!(
        classify(&Item::Value(Token::name("x"))),
        Some(TreeElement::identifier("x"))
    );
    assert_eq!(
        classify(&Item::Value(Token::string("s"))),
        Some(TreeElement::string_literal("s"))
    );
    assert_eq!(classify(&Item::Value(Token::parenthesis('('))), None);
}

#[test]
fn letters_are_ascii_alphabetic_only() {
    assert!(is_letter(&'a') && is_letter(&'z') && is_letter(&'A') && is_letter(&'Z'));
    assert!(!is_letter(&'1') && !is_letter(&'_') && !is_letter(&' '));
}

#[test]
fn digits_are_ascii_decimal_only() {
    assert!(is_number(&'0') && is_number(&'9'));
    assert!(!is_number(&'a') && !is_number(&' '));
}

#[test]
fn whitespace_covers_space_equivalent_characters() {
    assert!(is_whitespace(&' ') && is_whitespace(&'\t') && is_whitespace(&'\n'));
    assert!(!is_whitespace(&'a') && !is_whitespace(&'('));
}

#[test]
fn parentheses_are_the_two_round_brackets() {
    assert!(is_opening_parenthesis(&'(') && !is_opening_parenthesis(&')'));
    assert!(is_closing_parenthesis(&')') && !is_closing_parenthesis(&'('));
    assert!(is_parenthesis(&'(') && is_parenthesis(&')') && !is_parenthesis(&'['));
}

#[test]
fn quotes_and_operators_are_recognized() {
    assert!(is_quote(&'"') && !is_quote(&'\''));
    assert!(is_operator(&'+') && is_operator(&'%') && !is_operator(&'a'));
}
