use lox_syntax::parsing::ParseError;
use lox_syntax::{parse_expression, scan_tokens, AstNode, Token, TokenType};

fn render(node: &AstNode) -> String {
    if node.children.is_empty() {
        node.val.clone()
    } else {
        let parts: Vec<String> = node.children.iter().map(render).collect();
        format!("({} {})", node.val, parts.join(" "))
    }
}

fn parse_source(source: &str) -> Result<AstNode, ParseError> {
    let (tokens, _) = scan_tokens(source);
    parse_expression(&tokens)
}

fn parsed(source: &str) -> String {
    match parse_source(source) {
        Ok(node) => render(&node),
        Err(_) => panic!("{source:?} should parse"),
    }
}

fn token(kind: TokenType, lexeme: &str, literal: Option<&str>) -> Token {
    Token { kind, lexeme: lexeme.to_string(), literal: literal.map(|l| l.to_string()) }
}

fn count_tokens(node: &AstNode) -> usize {
    let below: usize = node.children.iter().map(count_tokens).sum();
    match node.children.len() {
        0 => 1,
        1 if node.val == "group" => 2 + below,
        _ => 1 + below,
    }
}

#[test]
fn literals_and_names_are_leaves() {
    assert_eq!(parsed("42"), "42.0");
    assert_eq!(parsed("3.1400"), "3.140");
    assert_eq!(parsed("\"hello\""), "hello");
    assert_eq!(parsed("true"), "true");
    assert_eq!(parsed("false"), "false");
    assert_eq!(parsed("nil"), "nil");
    assert_eq!(parsed("answer"), "answer");
}

#[test]
fn multiplication_binds_tighter_than_addition() {
    assert_eq!(parsed("1 + 2 * 3"), "(+ 1.0 (* 2.0 3.0))");
    assert_eq!(parsed("1 * 2 + 3"), "(+ (* 1.0 2.0) 3.0)");
    assert_eq!(parsed("8 / 4 - 1"), "(- (/ 8.0 4.0) 1.0)");
}

#[test]
fn operators_group_to_the_left() {
    assert_eq!(parsed("1 - 2 - 3"), "(- (- 1.0 2.0) 3.0)");
    assert_eq!(parsed("8 / 4 / 2"), "(/ (/ 8.0 4.0) 2.0)");
}

#[test]
fn parentheses_make_groups() {
    assert_eq!(parsed("(1 + 2) * 3"), "(* (group (+ 1.0 2.0)) 3.0)");
    assert_eq!(parsed("((nil))"), "(group (group nil))");
    assert_eq!(parsed("2 * (3 - (4 / 5))"), "(* 2.0 (group (- 3.0 (group (/ 4.0 5.0)))))");
}

#[test]
fn prefix_operators() {
    assert_eq!(parsed("-1"), "(- 1.0)");
    assert_eq!(parsed("!true"), "(! true)");
    assert_eq!(parsed("!!false"), "(! (! false))");
    assert_eq!(parsed("1 - -2"), "(- 1.0 (- 2.0))");
    assert_eq!(parsed("-2 * 3"), "(* (- 2.0) 3.0)");
    assert_eq!(parsed("(1) - 2"), "(- (group 1.0) 2.0)");
}

#[test]
fn empty_input_has_no_tokens() {
    assert!(matches!(parse_expression(&[]), Err(ParseError::NoTokens)));
    assert!(matches!(parse_source(""), Err(ParseError::NoTokens)));
    assert!(matches!(parse_source("()"), Err(ParseError::NoTokens)));
}

#[test]
fn missing_operand_has_no_tokens() {
    assert!(matches!(parse_source("1 +"), Err(ParseError::NoTokens)));
    assert!(matches!(parse_source("* 2"), Err(ParseError::NoTokens)));
    assert!(matches!(parse_source("!"), Err(ParseError::NoTokens)));
}

#[test]
fn unexpected_primary_reports_its_tokens() {
    match parse_source("1 2") {
        Err(ParseError::UnexpectedPrimary(tokens)) => {
            let lexemes: Vec<&str> = tokens.iter().map(|t| t.lexeme.as_str()).collect();
            assert_eq!(lexemes, vec!["1", "2"]);
        }
        _ => panic!("expected an unexpected primary"),
    }
    match parse_source("(1") {
        Err(ParseError::UnexpectedPrimary(tokens)) => {
            let kinds: Vec<TokenType> = tokens.iter().map(|t| t.kind).collect();
            assert_eq!(kinds, vec![TokenType::LeftParen, TokenType::Number]);
        }
        _ => panic!("expected an unexpected primary"),
    }
    match parse_source("1 + var") {
        Err(ParseError::UnexpectedPrimary(tokens)) => {
            assert_eq!(tokens.len(), 1);
            assert_eq!(tokens[0].kind, TokenType::Var);
        }
        _ => panic!("expected an unexpected primary"),
    }
}

#[test]
fn a_sign_after_an_operator_is_not_a_split_point() {
    // The `-` after `*` is a sign, so the term splits at `+` only.
    assert_eq!(parsed("1 + 2 * -3"), "(+ 1.0 (* 2.0 (- 3.0)))");
}

#[test]
fn trailing_eof_is_ignored() {
    let with_eof = vec![
        token(TokenType::Number, "1", Some("1.0")),
        token(TokenType::Plus, "+", None),
        token(TokenType::Identifier, "x", None),
        token(TokenType::Eof, "", None),
    ];
    let without = &with_eof[..3];
    let a = render(&parse_expression(&with_eof).ok().unwrap());
    let b = render(&parse_expression(without).ok().unwrap());
    assert_eq!(a, "(+ 1.0 x)");
    assert_eq!(a, b);
}

#[test]
fn eof_is_only_ignored_at_the_end() {
    let tokens = vec![token(TokenType::Eof, "", None), token(TokenType::Number, "1", Some("1.0"))];
    assert!(matches!(parse_expression(&tokens), Err(ParseError::UnexpectedPrimary(_))));
}

#[test]
fn string_literal_values_are_the_leaves() {
    let tokens = vec![token(TokenType::String, "\"a b\"", Some("a b"))];
    assert_eq!(render(&parse_expression(&tokens).ok().unwrap()), "a b");
    let tokens = vec![token(TokenType::Number, "5", None)];
    assert_eq!(render(&parse_expression(&tokens).ok().unwrap()), "");
}

#[test]
fn a_parse_uses_every_token_once() {
    for source in ["1 + 2 * 3", "(1 + 2) * -(3 / x)", "!!((nil))", "\"s\" - 4.50 - y", "7"] {
        let (tokens, _) = scan_tokens(source);
        let node = parse_expression(&tokens).ok().unwrap();
        assert_eq!(count_tokens(&node), tokens.len() - 1);
    }
}

#[test]
fn tree_text_brackets_operators_and_groups() {
    for source in ["1 + 2 * 3", "(1 + 2) * -(3 / x)", "!!((nil))", "\"s\" - 4.50 - y", "7"] {
        let node = parse_source(source).ok().unwrap();
        assert_eq!(lox_syntax::tree_text(&node), render(&node));
    }
    let node = parse_source("-(a) + 2").ok().unwrap();
    assert_eq!(lox_syntax::tree_text(&node), "(+ (- (group a)) 2.0)");
}
