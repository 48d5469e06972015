use sexpr::tokenizer::{tokenizer, Token};

fn expected_tokens() -> Vec<Token> {
    vec![
        Token::OpeningParenthesis,
        Token::Identifier("add".to_string()),
        Token::Number("2".to_string()),
        Token::OpeningParenthesis,
        Token::Identifier("subtract".to_string()),
        Token::Number("4".to_string()),
        Token::Number("2".to_string()),
        Token::ClosingParenthesis,
        Token::ClosingParenthesis,
    ]
}

#[test]
fn tokenizer_test() {
    let actual = tokenizer("(add 2 (subtract 4 2))").unwrap();
    let expected = expected_tokens();
    assert_eq!(
        actual, expected,
        "Tokenizer test failed: {:?} != {:?}",
        actual, expected,
    );
}

#[test]
fn empty_input_gives_no_tokens() {
    assert_eq!(tokenizer("").unwrap(), Vec::<Token>::new());
}

#[test]
fn pure_whitespace_gives_no_tokens() {
    assert_eq!(tokenizer("   ").unwrap(), Vec::<Token>::new());
    assert_eq!(tokenizer(" \t\n\r ").unwrap(), Vec::<Token>::new());
}

#[test]
fn unrecognized_character_is_reported() {
    let err = tokenizer("#").unwrap_err();
    assert_eq!(err.character, '#');
}

#[test]
fn first_unrecognized_character_wins() {
    let err = tokenizer("(add 2 # !)").unwrap_err();
    assert_eq!(err.character, '#');
}

#[test]
fn number_run_is_maximal() {
    assert_eq!(
        tokenizer("2a").unwrap(),
        vec![
            Token::Number("2".to_string()),
            Token::Identifier("a".to_string()),
        ],
    );
    assert_eq!(
        tokenizer("123").unwrap(),
        vec![Token::Number("123".to_string())],
    );
}

#[test]
fn identifier_run_is_maximal() {
    assert_eq!(
        tokenizer("abc12").unwrap(),
        vec![
            Token::Identifier("abc".to_string()),
            Token::Number("12".to_string()),
        ],
    );
}

#[test]
fn string_literal_keeps_text_verbatim() {
    assert_eq!(
        tokenizer("\"hi there\"").unwrap(),
        vec![Token::String("hi there".to_string())],
    );
}

#[test]
fn unterminated_string_is_implicitly_closed() {
    assert_eq!(
        tokenizer("\"ab").unwrap(),
        vec![Token::String("ab".to_string())],
    );
}

#[test]
fn tokenizer_error_message_names_the_character() {
    let err = tokenizer("@").unwrap_err();
    assert_eq!(
        err.message(),
        "Tokenizer error: cannot understand character @",
    );
}
