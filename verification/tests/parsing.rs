use arraylang::lexer::LiteralType;
use arraylang::lexer::SourceCursor;
use arraylang::lexer::TokenType;
use arraylang::parser::Parser;
use arraylang::runtime::Runtime;
use arraylang::value::render;

fn eval_line(line: &str) -> String {
    let source = SourceCursor::new(vec![line.to_string()]);
    let mut parser = Parser::new(source);
    let expr = parser.parse_expr().unwrap().unwrap();
    let rt = Runtime::new();
    let value = rt.eval_expr(&expr, None).unwrap();
    render(&value)
}

#[test]
fn tokenize_identifiers_and_numbers() {
    let mut source = SourceCursor::new(vec!["foo 42 + (".to_string()]);
    let mut tokens = source.tokenize_line().unwrap().unwrap();
    // tokens come reversed: the first token of the line is popped last
    let t = tokens.pop().unwrap();
    assert_eq!(t.token_type, TokenType::Identifier);
    assert_eq!(t.content, "foo");
    let t = tokens.pop().unwrap();
    assert_eq!(t.token_type, TokenType::Literal(LiteralType::Number));
    assert_eq!(t.content, "42");
    let t = tokens.pop().unwrap();
    assert_eq!(t.token_type, TokenType::Operator);
    assert_eq!(t.content, "+");
    let t = tokens.pop().unwrap();
    assert_eq!(t.token_type, TokenType::SyntaxToken);
    assert_eq!(t.content, "(");
    assert!(tokens.pop().is_none());
    assert!(source.tokenize_line().is_none());
}

#[test]
fn tokenize_string_literal_and_invalid_character() {
    let mut source = SourceCursor::new(vec![
        "\"hello there\"".to_string(),
        "1 ? 2".to_string(),
    ]);
    let mut tokens = source.tokenize_line().unwrap().unwrap();
    let t = tokens.pop().unwrap();
    assert_eq!(t.token_type, TokenType::Literal(LiteralType::String));
    assert_eq!(t.content, "hello there");
    let err = source.tokenize_line().unwrap().unwrap_err();
    assert_eq!(err.character, '?');
}

#[test]
fn parse_and_eval_binary_line() {
    assert_eq!(eval_line("1 + 2"), "3");
}

#[test]
fn parse_and_eval_array_broadcast() {
    assert_eq!(eval_line("[1 2 3] + 10"), "[11 12 13]");
}

#[test]
fn parse_and_eval_table_modifier() {
    assert_eq!(eval_line("[1 2] +:* [10 20]"), "[[11 21] [12 22]]");
}

#[test]
fn parse_and_eval_flip_modifier() {
    assert_eq!(eval_line("3 -:| 10"), "7");
}

#[test]
fn parse_and_eval_unary_fold() {
    assert_eq!(eval_line("- [1 2 3 4]"), "-2");
}

#[test]
fn parse_and_eval_range() {
    assert_eq!(eval_line("1 .. 5"), "[1 2 3 4 5]");
}

#[test]
fn parse_and_eval_lambda_call() {
    assert_eq!(eval_line("$:$0:[3 4]"), "3");
    assert_eq!(eval_line("$:$1:[3 4]"), "4");
}

#[test]
fn parse_and_eval_library_call() {
    assert_eq!(eval_line("idx: [5 0 7]"), "[0 0 2]");
}

#[test]
fn parse_and_eval_nested_arrays() {
    assert_eq!(eval_line("[[1 2] [3]]"), "[[1 2] [3]]");
    assert_eq!(eval_line("[]"), "[]");
}

#[test]
fn parse_and_eval_parentheses() {
    assert_eq!(eval_line("(1 + 2) * 4"), "12");
}

#[test]
fn parse_and_eval_big_literals() {
    assert_eq!(
        eval_line("340282366920938463463374607431768211455 + 1"),
        "340282366920938463463374607431768211456"
    );
}

#[test]
fn parse_reports_unexpected_end_of_line() {
    let source = SourceCursor::new(vec!["1 +".to_string()]);
    let mut parser = Parser::new(source);
    let out = parser.parse_expr().unwrap();
    assert!(out.is_err());
}

#[test]
fn tokenize_skips_unicode_whitespace() {
    // an ogham space mark and an ideographic space separate tokens too
    let mut source = SourceCursor::new(vec!["a\u{1680}b\u{3000}1".to_string()]);
    let mut tokens = source.tokenize_line().unwrap().unwrap();
    let t = tokens.pop().unwrap();
    assert_eq!(t.token_type, TokenType::Identifier);
    assert_eq!(t.content, "a");
    let t = tokens.pop().unwrap();
    assert_eq!(t.token_type, TokenType::Identifier);
    assert_eq!(t.content, "b");
    let t = tokens.pop().unwrap();
    assert_eq!(t.token_type, TokenType::Literal(LiteralType::Number));
    assert_eq!(t.content, "1");
}

#[test]
fn binary_chains_group_to_the_right() {
    // a term followed by an operator recurses on the whole rest:
    // 10 - 2 - 3 parses as 10 - (2 - 3)
    assert_eq!(eval_line("10 - 2 - 3"), "11");
}

#[test]
fn argument_index_too_large_is_rejected() {
    let source = SourceCursor::new(vec!["$ 99999999999999999999999999".to_string()]);
    let mut parser = Parser::new(source);
    let out = parser.parse_expr().unwrap();
    assert!(out.is_err());
}
