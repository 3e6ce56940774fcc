use lox_syntax::TokenType as K;
use lox_syntax::{scan_tokens, ScanError, Token, TokenType};

fn kinds(tokens: &[Token]) -> Vec<TokenType> {
    tokens.iter().map(|t| t.kind).collect()
}

fn lexemes(tokens: &[Token]) -> Vec<String> {
    tokens.iter().map(|t| t.lexeme.clone()).collect()
}

fn literals(tokens: &[Token]) -> Vec<Option<String>> {
    tokens.iter().map(|t| t.literal.clone()).collect()
}

fn messages(errors: &[ScanError]) -> Vec<(usize, String)> {
    errors.iter().map(|e| (e.line, e.message.clone())).collect()
}

#[test]
fn empty_source_gives_only_eof() {
    let (tokens, errors) = scan_tokens("");
    assert_eq!(kinds(&tokens), vec![TokenType::Eof]);
    assert_eq!(tokens[0].lexeme, "");
    assert_eq!(tokens[0].literal, None);
    assert!(errors.is_empty());
}

#[test]
fn punctuation_and_operators() {
    let (tokens, errors) = scan_tokens("(){};,+-*!===<=>=!=<>/.");
    assert_eq!(
        kinds(&tokens),
        vec![
            K::LeftParen, K::RightParen, K::LeftBrace, K::RightBrace, K::Semicolon, K::Comma, K::Plus, K::Minus, K::Star,
            K::BangEqual, K::EqualEqual, K::LessEqual, K::GreaterEqual, K::BangEqual, K::Less, K::Greater, K::Slash, K::Dot,
            K::Eof
        ]
    );
    assert_eq!(
        lexemes(&tokens),
        vec![
            "(", ")", "{", "}", ";", ",", "+", "-", "*", "!=", "==", "<=", ">=", "!=", "<", ">",
            "/", ".", ""
        ]
    );
    assert!(literals(&tokens).iter().all(|l| l.is_none()));
    assert!(errors.is_empty());
}

#[test]
fn single_comparison_characters() {
    let (tokens, _) = scan_tokens("= ! < >");
    assert_eq!(kinds(&tokens), vec![K::Equal, K::Bang, K::Less, K::Greater, K::Eof]);
    assert_eq!(lexemes(&tokens), vec!["=", "!", "<", ">", ""]);
}

#[test]
fn keywords_and_identifiers() {
    let source = "and class else false for fun if nil or print return super this true var while";
    let (tokens, errors) = scan_tokens(source);
    assert_eq!(
        kinds(&tokens),
        vec![
            K::And, K::Class, K::Else, K::False, K::For, K::Fun, K::If, K::Nil, K::Or, K::Print, K::Return, K::Super, K::This, K::True, K::Var,
            K::While, K::Eof
        ]
    );
    assert!(errors.is_empty());
    let (tokens, _) = scan_tokens("foo _bar x1 andy AND orchid Class_9");
    assert_eq!(
        kinds(&tokens),
        vec![K::Identifier, K::Identifier, K::Identifier, K::Identifier, K::Identifier, K::Identifier, K::Identifier, K::Eof]
    );
    assert_eq!(
        lexemes(&tokens),
        vec!["foo", "_bar", "x1", "andy", "AND", "orchid", "Class_9", ""]
    );
}

#[test]
fn whole_numbers_get_a_fraction() {
    let (tokens, _) = scan_tokens("123 0 42");
    assert_eq!(lexemes(&tokens), vec!["123", "0", "42", ""]);
    assert_eq!(
        literals(&tokens),
        vec![Some("123.0".to_string()), Some("0.0".to_string()), Some("42.0".to_string()), None]
    );
}

#[test]
fn trailing_zeros_of_a_fraction_are_cut_to_one() {
    let (tokens, _) = scan_tokens("1.000 1.500 1.50 12.34 100.00 0.0");
    assert_eq!(lexemes(&tokens), vec!["1.000", "1.500", "1.50", "12.34", "100.00", "0.0", ""]);
    assert_eq!(
        literals(&tokens),
        vec![
            Some("1.0".to_string()),
            Some("1.50".to_string()),
            Some("1.50".to_string()),
            Some("12.34".to_string()),
            Some("100.0".to_string()),
            Some("0.0".to_string()),
            None
        ]
    );
}

#[test]
fn dot_without_digits_is_left_for_the_next_token() {
    let (tokens, _) = scan_tokens("10.");
    assert_eq!(kinds(&tokens), vec![TokenType::Number, TokenType::Dot, TokenType::Eof]);
    assert_eq!(lexemes(&tokens), vec!["10", ".", ""]);
    assert_eq!(tokens[0].literal, Some("10.0".to_string()));

    let (tokens, _) = scan_tokens("1.2.3");
    assert_eq!(
        kinds(&tokens),
        vec![TokenType::Number, TokenType::Dot, TokenType::Number, TokenType::Eof]
    );
    assert_eq!(lexemes(&tokens), vec!["1.2", ".", "3", ""]);
    assert_eq!(tokens[0].literal, Some("1.2".to_string()));
    assert_eq!(tokens[2].literal, Some("3.0".to_string()));

    let (tokens, _) = scan_tokens("7.foo");
    assert_eq!(
        kinds(&tokens),
        vec![TokenType::Number, TokenType::Dot, TokenType::Identifier, TokenType::Eof]
    );
}

#[test]
fn strings_keep_their_quotes_in_the_lexeme() {
    let (tokens, errors) = scan_tokens("\"hello world\" \"\"");
    assert_eq!(kinds(&tokens), vec![TokenType::String, TokenType::String, TokenType::Eof]);
    assert_eq!(lexemes(&tokens), vec!["\"hello world\"", "\"\"", ""]);
    assert_eq!(
        literals(&tokens),
        vec![Some("hello world".to_string()), Some(String::new()), None]
    );
    assert!(errors.is_empty());
}

#[test]
fn strings_keep_non_ascii_text() {
    let (tokens, errors) = scan_tokens("\"héllo ✓\"");
    assert_eq!(tokens[0].lexeme, "\"héllo ✓\"");
    assert_eq!(tokens[0].literal, Some("héllo ✓".to_string()));
    assert!(errors.is_empty());
}

#[test]
fn unterminated_string_is_reported_on_the_last_line() {
    let (tokens, errors) = scan_tokens("+ \"abc\ndef");
    assert_eq!(kinds(&tokens), vec![TokenType::Plus, TokenType::Eof]);
    assert_eq!(messages(&errors), vec![(2, "Unterminated string.".to_string())]);
}

#[test]
fn newlines_inside_strings_count_as_lines() {
    let (tokens, errors) = scan_tokens("\"a\nb\"\n@");
    assert_eq!(kinds(&tokens), vec![TokenType::String, TokenType::Eof]);
    assert_eq!(messages(&errors), vec![(3, "Unexpected character: @".to_string())]);
}

#[test]
fn comments_run_to_the_end_of_the_line() {
    let (tokens, errors) = scan_tokens("// a comment (with $ symbols)\n+ // more\n-");
    assert_eq!(kinds(&tokens), vec![TokenType::Plus, TokenType::Minus, TokenType::Eof]);
    assert!(errors.is_empty());
    let (tokens, _) = scan_tokens("a/b//c");
    assert_eq!(
        kinds(&tokens),
        vec![TokenType::Identifier, TokenType::Slash, TokenType::Identifier, TokenType::Eof]
    );
}

#[test]
fn unexpected_characters_are_reported_and_skipped() {
    let (tokens, errors) = scan_tokens(",.$(#\n\t@");
    assert_eq!(
        kinds(&tokens),
        vec![TokenType::Comma, TokenType::Dot, TokenType::LeftParen, TokenType::Eof]
    );
    assert_eq!(
        messages(&errors),
        vec![
            (1, "Unexpected character: $".to_string()),
            (1, "Unexpected character: #".to_string()),
            (2, "Unexpected character: @".to_string())
        ]
    );
}

#[test]
fn carriage_return_is_unexpected() {
    let (_, errors) = scan_tokens("a\r\nb");
    assert_eq!(messages(&errors), vec![(1, "Unexpected character: \r".to_string())]);
}

#[test]
fn non_ascii_outside_strings_is_read_byte_by_byte() {
    // 'é' is the two bytes C3 A9, each reported as the character with that code.
    let (tokens, errors) = scan_tokens("é");
    assert_eq!(kinds(&tokens), vec![TokenType::Eof]);
    assert_eq!(
        messages(&errors),
        vec![
            (1, "Unexpected character: \u{c3}".to_string()),
            (1, "Unexpected character: \u{a9}".to_string())
        ]
    );
}

#[test]
fn scan_always_ends_with_a_single_eof() {
    for source in ["", "1 + 2", "\"open", "var x = 10;\n// done", "@@@", "a.b(c)"] {
        let (tokens, _) = scan_tokens(source);
        assert_eq!(tokens.last().unwrap().kind, TokenType::Eof);
        assert_eq!(tokens.iter().filter(|t| t.kind == TokenType::Eof).count(), 1);
    }
}

#[test]
fn scanned_tokens_are_well_formed() {
    let source = "var total = 3.1400 + count * 2; print \"sum\" and nil; 10. <= 7";
    let (tokens, errors) = scan_tokens(source);
    assert!(errors.is_empty());
    for t in &tokens[..tokens.len() - 1] {
        let literal_expected = t.kind == TokenType::Number || t.kind == TokenType::String;
        assert_eq!(t.literal.is_some(), literal_expected);
        if t.kind == TokenType::Number {
            let lit = t.literal.as_ref().unwrap();
            assert_eq!(lit.matches('.').count(), 1);
            assert!(!lit.starts_with('.') && !lit.ends_with('.'));
            assert!(!lit.ends_with("00"));
            assert!(lit.chars().all(|c| c == '.' || c.is_ascii_digit()));
        }
        if t.kind == TokenType::String {
            assert_eq!(t.lexeme, format!("\"{}\"", t.literal.as_ref().unwrap()));
        }
    }
    assert_eq!(tokens[3].literal, Some("3.140".to_string()));
}

#[test]
fn error_lines_start_at_one_and_are_in_order() {
    let (_, errors) = scan_tokens("@\n\n#\"x\ny\n\n\"%\n~\n\"unterminated\n");
    let lines: Vec<usize> = errors.iter().map(|e| e.line).collect();
    assert_eq!(lines, vec![1, 3, 6, 7, 9]);
    assert!(lines.windows(2).all(|w| w[0] <= w[1]));
}

#[test]
fn kind_names() {
    assert_eq!(TokenType::LeftParen.as_str(), "LEFT_PAREN");
    assert_eq!(TokenType::GreaterEqual.as_str(), "GREATER_EQUAL");
    assert_eq!(TokenType::Identifier.as_str(), "IDENTIFIER");
    assert_eq!(TokenType::Eof.as_str(), "EOF");
    assert_eq!(TokenType::While.as_str(), "WHILE");
}

#[test]
fn kind_names_are_distinct() {
    let all = [
        K::Comma, K::Dot, K::Minus, K::Plus, K::Semicolon, K::Star, K::LeftParen, K::RightParen, K::LeftBrace, K::RightBrace,
        K::Equal, K::Bang, K::Less, K::Greater, K::EqualEqual, K::BangEqual, K::LessEqual, K::GreaterEqual, K::And, K::Class,
        K::Else, K::False, K::For, K::Fun, K::If, K::Nil, K::Or, K::Print, K::Return, K::Super, K::This, K::True, K::Var, K::While,
        K::Identifier, K::String, K::Number, K::Slash, K::Eof,
    ];
    for a in all.iter() {
        for b in all.iter() {
            assert_eq!(a.as_str() == b.as_str(), a == b);
        }
    }
}

#[test]
fn tokens_are_pieces_of_the_source_in_order() {
    let source = "var s = \"naïve\" + 10. * (x1 >= 2.500) // tail\n!= nil";
    let (tokens, _) = scan_tokens(source);
    let mut from = 0;
    for t in &tokens[..tokens.len() - 1] {
        let at = source[from..].find(t.lexeme.as_str()).unwrap() + from;
        let between = &source[from..at];
        assert!(between.chars().all(|c| c == ' ' || c == '\n') || between.starts_with(" //"));
        from = at + t.lexeme.len();
    }
}

#[test]
fn token_lines() {
    let (tokens, _) = scan_tokens("var x = 1.50 + \"hi\"");
    let lines: Vec<String> = tokens.iter().map(lox_syntax::token_line).collect();
    assert_eq!(
        lines,
        vec![
            "VAR var null",
            "IDENTIFIER x null",
            "EQUAL = null",
            "NUMBER 1.50 1.50",
            "PLUS + null",
            "STRING \"hi\" hi",
            "EOF  null",
        ]
    );
}

#[test]
fn line_count_follows_the_newlines_read() {
    // each error is reported on one more than the newlines before it
    let source = "@\n#\n\n\"a\nb\"$\n// c\n%";
    let (_, errors) = scan_tokens(source);
    let lines: Vec<usize> = errors.iter().map(|e| e.line).collect();
    assert_eq!(lines, vec![1, 2, 5, 7]);
    let unterminated = "\n\n\"x\n";
    let (_, errors) = scan_tokens(unterminated);
    assert_eq!(errors[0].line, 1 + unterminated.matches('\n').count());
}

#[test]
fn scanning_joined_texts_joins_the_scans() {
    let a = "x = 1 >= 2.50 @ and\nfoo.";
    let b = "\"s\ntr\" / # // tail\n!";
    for sep in [" ", "\n"] {
        let joined = format!("{a}{sep}{b}");
        let (tj, ej) = scan_tokens(&joined);
        let (ta, ea) = scan_tokens(a);
        let (tb, eb) = scan_tokens(b);
        let shift = a.matches('\n').count() + sep.matches('\n').count();
        let mut expected: Vec<String> = ta[..ta.len() - 1].iter().map(lox_syntax::token_line).collect();
        expected.extend(tb.iter().map(lox_syntax::token_line));
        let got: Vec<String> = tj.iter().map(lox_syntax::token_line).collect();
        assert_eq!(got, expected);
        let mut expected_errors: Vec<(usize, String)> = messages(&ea);
        expected_errors.extend(eb.iter().map(|e| (e.line + shift, e.message.clone())));
        assert_eq!(messages(&ej), expected_errors);
    }
}
