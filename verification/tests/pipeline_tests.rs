use sexpr::parser::{parse, AbstractSyntaxTree, AstCallExpression};
use sexpr::tokenizer::tokenizer;

#[test]
fn tokenize_then_parse_builds_the_tree() {
    let tokens = tokenizer("(add 2 (subtract 4 2))").unwrap();
    let ast = parse(tokens).unwrap();
    assert_eq!(
        ast,
        vec![AbstractSyntaxTree::CallExpression(AstCallExpression {
            name: "add".to_string(),
            params: vec![
                AbstractSyntaxTree::NumberLiteral("2".to_string()),
                AbstractSyntaxTree::CallExpression(AstCallExpression {
                    name: "subtract".to_string(),
                    params: vec![
                        AbstractSyntaxTree::NumberLiteral("4".to_string()),
                        AbstractSyntaxTree::NumberLiteral("2".to_string()),
                    ],
                }),
            ],
        })],
    );
}

#[test]
fn front_end_is_deterministic() {
    let source = "(mul 3 (add 1 2) \"note\")";
    let first = parse(tokenizer(source).unwrap()).unwrap();
    let second = parse(tokenizer(source).unwrap()).unwrap();
    assert_eq!(first, second);
}

#[test]
fn several_top_level_expressions_keep_their_order() {
    let ast = parse(tokenizer("(f 1) (g 2)").unwrap()).unwrap();
    assert_eq!(
        ast,
        vec![
            AbstractSyntaxTree::CallExpression(AstCallExpression {
                name: "f".to_string(),
                params: vec![AbstractSyntaxTree::NumberLiteral("1".to_string())],
            }),
            AbstractSyntaxTree::CallExpression(AstCallExpression {
                name: "g".to_string(),
                params: vec![AbstractSyntaxTree::NumberLiteral("2".to_string())],
            }),
        ],
    );
}

#[test]
fn string_parameters_flow_through() {
    let ast = parse(tokenizer("(say \"hello world\")").unwrap()).unwrap();
    assert_eq!(
        ast,
        vec![AbstractSyntaxTree::CallExpression(AstCallExpression {
            name: "say".to_string(),
            params: vec![AbstractSyntaxTree::StringLiteral("hello world".to_string())],
        })],
    );
}
