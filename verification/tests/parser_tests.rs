use sexpr::parser::{parse, AbstractSyntaxTree, AstCallExpression, ParserError};
use sexpr::tokenizer::Token;

fn example_tokens() -> Vec<Token> {
    vec![
        Token::OpeningParenthesis,
        Token::Identifier("add".to_string()),
        Token::Number("2".to_string()),
        Token::OpeningParenthesis,
        Token::Identifier("subtract".to_string()),
        Token::Number("4".to_string()),
        Token::Number("2".to_string()),
        Token::ClosingParenthesis,
        Token::ClosingParenthesis,
    ]
}

fn example_ast() -> Vec<AbstractSyntaxTree> {
    vec![AbstractSyntaxTree::CallExpression(AstCallExpression {
        name: "add".to_string(),
        params: vec![
            AbstractSyntaxTree::NumberLiteral("2".to_string()),
            AbstractSyntaxTree::CallExpression(AstCallExpression {
                name: "subtract".to_string(),
                params: vec![
                    AbstractSyntaxTree::NumberLiteral("4".to_string()),
                    AbstractSyntaxTree::NumberLiteral("2".to_string()),
                ],
            }),
        ],
    })]
}

#[test]
fn parser_test() {
    let actual = parse(example_tokens()).unwrap();
    assert_eq!(actual, example_ast());
}

#[test]
fn empty_token_sequence_parses_to_nothing() {
    assert_eq!(parse(Vec::new()).unwrap(), Vec::new());
}

#[test]
fn lone_closing_parenthesis_is_unexpected() {
    let err = parse(vec![Token::ClosingParenthesis]).unwrap_err();
    assert!(matches!(err, ParserError::UnexpectedClosingParenthesis));
}

#[test]
fn call_without_name_expects_identifier() {
    let err = parse(vec![Token::OpeningParenthesis, Token::ClosingParenthesis]).unwrap_err();
    match err {
        ParserError::ExpectedIdentifier(t) => assert_eq!(t, Token::ClosingParenthesis),
        other => panic!("wrong error: {:?}", other),
    }
}

#[test]
fn unclosed_call_misses_closing_parenthesis() {
    let err = parse(vec![
        Token::OpeningParenthesis,
        Token::Identifier("f".to_string()),
    ])
    .unwrap_err();
    assert!(matches!(err, ParserError::MissingClosingParenthesis));
}

#[test]
fn opening_parenthesis_at_end_misses_identifier() {
    let err = parse(vec![Token::OpeningParenthesis]).unwrap_err();
    assert!(matches!(err, ParserError::MissingIdentifier));
}

#[test]
fn bare_identifier_is_unexpected() {
    let err = parse(vec![Token::Identifier("x".to_string())]).unwrap_err();
    match err {
        ParserError::UnexpectedIdentifier(name) => assert_eq!(name, "x"),
        other => panic!("wrong error: {:?}", other),
    }
}

#[test]
fn bare_identifier_inside_call_is_unexpected() {
    let err = parse(vec![
        Token::OpeningParenthesis,
        Token::Identifier("f".to_string()),
        Token::Identifier("g".to_string()),
        Token::ClosingParenthesis,
    ])
    .unwrap_err();
    match err {
        ParserError::UnexpectedIdentifier(name) => assert_eq!(name, "g"),
        other => panic!("wrong error: {:?}", other),
    }
}

#[test]
fn literals_parse_at_top_level() {
    let ast = parse(vec![
        Token::Number("7".to_string()),
        Token::String("hi".to_string()),
    ])
    .unwrap();
    assert_eq!(
        ast,
        vec![
            AbstractSyntaxTree::NumberLiteral("7".to_string()),
            AbstractSyntaxTree::StringLiteral("hi".to_string()),
        ],
    );
}

#[test]
fn extra_closing_parenthesis_after_call_is_unexpected() {
    let err = parse(vec![
        Token::OpeningParenthesis,
        Token::Identifier("f".to_string()),
        Token::ClosingParenthesis,
        Token::ClosingParenthesis,
    ])
    .unwrap_err();
    assert!(matches!(err, ParserError::UnexpectedClosingParenthesis));
}

#[test]
fn parser_error_messages_name_the_cause() {
    assert_eq!(
        ParserError::MissingIdentifier.message(),
        "Parser error: missing identifier in CallExpression",
    );
    assert_eq!(
        ParserError::ExpectedIdentifier(Token::ClosingParenthesis).message(),
        "Parser error: expected identifier in CallExpression, but got ClosingParenthesis",
    );
    assert_eq!(
        ParserError::ExpectedIdentifier(Token::Number("2".to_string())).message(),
        "Parser error: expected identifier in CallExpression, but got Number(\"2\")",
    );
    assert_eq!(
        ParserError::MissingClosingParenthesis.message(),
        "Parser error: missing closing parenthesis",
    );
    assert_eq!(
        ParserError::UnexpectedClosingParenthesis.message(),
        "Parser error: unexpected closing parenthesis",
    );
    assert_eq!(
        ParserError::UnexpectedIdentifier("x".to_string()).message(),
        "Parser error: unexpected identifier 'x'",
    );
}

fn count_call_nodes(nodes: &[AbstractSyntaxTree]) -> usize {
    let mut total = 0;
    for node in nodes {
        if let AbstractSyntaxTree::CallExpression(call) = node {
            total += 1 + count_call_nodes(&call.params);
        }
    }
    total
}

#[test]
fn call_nodes_never_exceed_opening_parentheses() {
    let tokens = example_tokens();
    let opens = tokens
        .iter()
        .filter(|t| matches!(t, Token::OpeningParenthesis))
        .count();
    let ast = parse(tokens).unwrap();
    assert!(count_call_nodes(&ast) <= opens);
    assert_eq!(count_call_nodes(&ast), 2);
    assert_eq!(opens, 2);
}
