//! The scanner: turns Lox source text into tokens and scan errors.

use vstd::prelude::*;
use vstd::string::StringSliceAdditionalSpecFns;
use vstd::utf8::encode_utf8_valid_utf8;

use crate::lexical::{
    count_newlines, digits_end, initial_state, is_comparison_char, is_digit, is_single_char,
    is_word_byte, keyword_kind, lemma_step_advances, lex_blank, lex_comparison, lex_from,
    lex_number, lex_single, lex_slash, lex_step, lex_string, lex_unexpected, lex_word, line_end,
    quote_end, scan, trim_zeros, unexpected_message, word_end, ScanState, fixed_lexeme,
};
use crate::text::{
    ascii_string, lemma_boundary_after_ascii, lemma_boundary_at_ascii, push_char, source_text,
    text_is,
};


verus! {

/// The kinds of token the scanner produces.
#[derive(Clone, Copy, Debug, PartialEq, Eq, Structural)]
pub enum TokenType {
    // Single-character tokens
    Comma,
    Dot,
    Minus,
    Plus,
    Semicolon,
    Star,
    LeftParen,
    RightParen,
    LeftBrace,
    RightBrace,
    // One or two character tokens
    Equal,
    Bang,
    Less,
    Greater,
    EqualEqual,
    BangEqual,
    LessEqual,
    GreaterEqual,
    // Keywords
    And,
    Class,
    Else,
    False,
    For,
    Fun,
    If,
    Nil,
    Or,
    Print,
    Return,
    Super,
    This,
    True,
    Var,
    While,
    // Literals
    Identifier,
    String,
    Number,
    // Slash
    Slash,
    // End of input
    Eof,
}

/// A token: its kind, the text it was scanned from, and, for numbers and
/// strings, its literal value.
#[derive(Clone, Debug)]
pub struct Token {
    pub kind: TokenType,
    pub lexeme: String,
    pub literal: Option<String>,
}

/// A problem found while scanning, with the line it was found on.
#[derive(Clone, Debug)]
pub struct ScanError {
    pub line: usize,
    pub message: String,
}

/// A token as a mathematical value.
pub struct TokenView {
    pub kind: TokenType,
    pub lexeme: Seq<char>,
    pub literal: Option<Seq<char>>,
}

/// A scan error as a mathematical value.
pub struct ScanErrorView {
    pub line: int,
    pub message: Seq<char>,
}

pub open spec fn option_text(o: Option<String>) -> Option<Seq<char>> {
    match o {
        Some(s) => Some(s@),
        None => None,
    }
}

impl View for Token {
    type V = TokenView;

    open spec fn view(&self) -> TokenView {
        TokenView { kind: self.kind, lexeme: self.lexeme@, literal: option_text(self.literal) }
    }
}

impl View for ScanError {
    type V = ScanErrorView;

    open spec fn view(&self) -> ScanErrorView {
        ScanErrorView { line: self.line as int, message: self.message@ }
    }
}

pub open spec fn token_views(tokens: Seq<Token>) -> Seq<TokenView> {
    tokens.map_values(|t: Token| t@)
}

pub open spec fn error_views(errors: Seq<ScanError>) -> Seq<ScanErrorView> {
    errors.map_values(|e: ScanError| e@)
}

impl TokenType {
    /// The upper-case name of the kind, as the token listing prints it.
    pub fn as_str(&self) -> (name: &str)
        ensures
            name@ == kind_name(*self),
    {
        match self {
            TokenType::Comma => "COMMA",
            TokenType::Dot => "DOT",
            TokenType::Minus => "MINUS",
            TokenType::Plus => "PLUS",
            TokenType::Semicolon => "SEMICOLON",
            TokenType::Star => "STAR",
            TokenType::LeftParen => "LEFT_PAREN",
            TokenType::RightParen => "RIGHT_PAREN",
            TokenType::LeftBrace => "LEFT_BRACE",
            TokenType::RightBrace => "RIGHT_BRACE",
            TokenType::Equal => "EQUAL",
            TokenType::Bang => "BANG",
            TokenType::Less => "LESS",
            TokenType::Greater => "GREATER",
            TokenType::EqualEqual => "EQUAL_EQUAL",
            TokenType::BangEqual => "BANG_EQUAL",
            TokenType::LessEqual => "LESS_EQUAL",
            TokenType::GreaterEqual => "GREATER_EQUAL",
            TokenType::And => "AND",
            TokenType::Class => "CLASS",
            TokenType::Else => "ELSE",
            TokenType::False => "FALSE",
            TokenType::For => "FOR",
            TokenType::Fun => "FUN",
            TokenType::If => "IF",
            TokenType::Nil => "NIL",
            TokenType::Or => "OR",
            TokenType::Print => "PRINT",
            TokenType::Return => "RETURN",
            TokenType::Super => "SUPER",
            TokenType::This => "THIS",
            TokenType::True => "TRUE",
            TokenType::Var => "VAR",
            TokenType::While => "WHILE",
            TokenType::Identifier => "IDENTIFIER",
            TokenType::String => "STRING",
            TokenType::Number => "NUMBER",
            TokenType::Slash => "SLASH",
            TokenType::Eof => "EOF",
        }
    }
}

/// The name that `as_str` gives each kind.
pub open spec fn kind_name(kind: TokenType) -> Seq<char> {
    match kind {
        TokenType::Comma => "COMMA"@,
        TokenType::Dot => "DOT"@,
        TokenType::Minus => "MINUS"@,
        TokenType::Plus => "PLUS"@,
        TokenType::Semicolon => "SEMICOLON"@,
        TokenType::Star => "STAR"@,
        TokenType::LeftParen => "LEFT_PAREN"@,
        TokenType::RightParen => "RIGHT_PAREN"@,
        TokenType::LeftBrace => "LEFT_BRACE"@,
        TokenType::RightBrace => "RIGHT_BRACE"@,
        TokenType::Equal => "EQUAL"@,
        TokenType::Bang => "BANG"@,
        TokenType::Less => "LESS"@,
        TokenType::Greater => "GREATER"@,
        TokenType::EqualEqual => "EQUAL_EQUAL"@,
        TokenType::BangEqual => "BANG_EQUAL"@,
        TokenType::LessEqual => "LESS_EQUAL"@,
        TokenType::GreaterEqual => "GREATER_EQUAL"@,
        TokenType::And => "AND"@,
        TokenType::Class => "CLASS"@,
        TokenType::Else => "ELSE"@,
        TokenType::False => "FALSE"@,
        TokenType::For => "FOR"@,
        TokenType::Fun => "FUN"@,
        TokenType::If => "IF"@,
        TokenType::Nil => "NIL"@,
        TokenType::Or => "OR"@,
        TokenType::Print => "PRINT"@,
        TokenType::Return => "RETURN"@,
        TokenType::Super => "SUPER"@,
        TokenType::This => "THIS"@,
        TokenType::True => "TRUE"@,
        TokenType::Var => "VAR"@,
        TokenType::While => "WHILE"@,
        TokenType::Identifier => "IDENTIFIER"@,
        TokenType::String => "STRING"@,
        TokenType::Number => "NUMBER"@,
        TokenType::Slash => "SLASH"@,
        TokenType::Eof => "EOF"@,
    }
}

/// The line that the token listing prints for a token: its kind's name, its
/// lexeme and its literal (or `null`), separated by spaces.
pub open spec fn token_line_text(t: TokenView) -> Seq<char> {
    kind_name(t.kind) + seq![' '] + t.lexeme + seq![' '] + match t.literal {
        Some(l) => l,
        None => "null"@,
    }
}

/// The line that the `tokenize` command prints for `t`.
pub fn token_line(t: &Token) -> (s: String)
    ensures
        s@ == token_line_text(t@),
{
    let mut s = t.kind.as_str().to_owned();
    push_char(&mut s, ' ');
    s.append(t.lexeme.as_str());
    push_char(&mut s, ' ');
    match &t.literal {
        Some(l) => s.append(l.as_str()),
        None => s.append("null"),
    }
    assert(s@ =~= token_line_text(t@));
    s
}

/// Law: the printed line of a token starts with its kind's name, a space, its
/// lexeme and a space, and the rest of the line is the token's literal, or
/// `null` when it has none.
pub proof fn lemma_token_line_fields(t: TokenView)
    ensures
        ({
            let line = token_line_text(t);
            let head = kind_name(t.kind) + seq![' '] + t.lexeme + seq![' '];
            &&& head.len() <= line.len()
            &&& line.subrange(0, head.len() as int) == head
            &&& t.literal matches Some(l) ==> line.subrange(head.len() as int, line.len() as int)
                == l
            &&& t.literal is None ==> line.subrange(head.len() as int, line.len() as int)
                == "null"@
        }),
{
    let line = token_line_text(t);
    let head = kind_name(t.kind) + seq![' '] + t.lexeme + seq![' '];
    assert(line.subrange(0, head.len() as int) =~= head);
    match t.literal {
        Some(l) => {
            assert(line.subrange(head.len() as int, line.len() as int) =~= l);
        },
        None => {
            assert(line.subrange(head.len() as int, line.len() as int) =~= "null"@);
        },
    }
}

/// The name of a character that spells an operator or punctuation.
pub open spec fn char_name(c: char) -> Seq<char> {
    if c == ',' {
        "COMMA"@
    } else if c == '.' {
        "DOT"@
    } else if c == '-' {
        "MINUS"@
    } else if c == '+' {
        "PLUS"@
    } else if c == ';' {
        "SEMICOLON"@
    } else if c == '*' {
        "STAR"@
    } else if c == '(' {
        "LEFT_PAREN"@
    } else if c == ')' {
        "RIGHT_PAREN"@
    } else if c == '{' {
        "LEFT_BRACE"@
    } else if c == '}' {
        "RIGHT_BRACE"@
    } else if c == '=' {
        "EQUAL"@
    } else if c == '!' {
        "BANG"@
    } else if c == '<' {
        "LESS"@
    } else if c == '>' {
        "GREATER"@
    } else if c == '/' {
        "SLASH"@
    } else {
        seq![]
    }
}

/// `w` with its lower-case ASCII letters made upper-case.
pub open spec fn upper(w: Seq<char>) -> Seq<char> {
    w.map_values(|c: char| if 'a' <= c <= 'z' { (c as int - 32) as char } else { c })
}

/// Law: the name of a kind follows its spelling. An operator or punctuation
/// kind is named by the names of its characters joined by `_` (`<=` is
/// `LESS_EQUAL`); a keyword kind is named by its keyword in upper case; the
/// remaining kinds are `IDENTIFIER`, `STRING`, `NUMBER` and `EOF`.
pub proof fn lemma_kind_names_follow_spelling(k: TokenType)
    ensures
        fixed_lexeme(k) matches Some(sp) ==> kind_name(k) == if sp.len() == 1 {
            char_name(sp[0])
        } else {
            char_name(sp[0]) + "_"@ + char_name(sp[1])
        },
        forall|w: Seq<char>|
            #[trigger] keyword_kind(w) == k && k != TokenType::Identifier ==> kind_name(k) == upper(
                w,
            ),
        k == TokenType::Identifier ==> kind_name(k) == "IDENTIFIER"@,
        k == TokenType::String ==> kind_name(k) == "STRING"@,
        k == TokenType::Number ==> kind_name(k) == "NUMBER"@,
        k == TokenType::Eof ==> kind_name(k) == "EOF"@,
{
    reveal_strlit("COMMA");
    reveal_strlit("DOT");
    reveal_strlit("MINUS");
    reveal_strlit("PLUS");
    reveal_strlit("SEMICOLON");
    reveal_strlit("STAR");
    reveal_strlit("LEFT_PAREN");
    reveal_strlit("RIGHT_PAREN");
    reveal_strlit("LEFT_BRACE");
    reveal_strlit("RIGHT_BRACE");
    reveal_strlit("EQUAL");
    reveal_strlit("BANG");
    reveal_strlit("LESS");
    reveal_strlit("GREATER");
    reveal_strlit("SLASH");
    reveal_strlit("and");
    reveal_strlit("class");
    reveal_strlit("else");
    reveal_strlit("false");
    reveal_strlit("for");
    reveal_strlit("fun");
    reveal_strlit("if");
    reveal_strlit("nil");
    reveal_strlit("or");
    reveal_strlit("print");
    reveal_strlit("return");
    reveal_strlit("super");
    reveal_strlit("this");
    reveal_strlit("true");
    reveal_strlit("var");
    reveal_strlit("while");
    reveal_strlit("AND");
    reveal_strlit("CLASS");
    reveal_strlit("ELSE");
    reveal_strlit("FALSE");
    reveal_strlit("FOR");
    reveal_strlit("FUN");
    reveal_strlit("IF");
    reveal_strlit("NIL");
    reveal_strlit("OR");
    reveal_strlit("PRINT");
    reveal_strlit("RETURN");
    reveal_strlit("SUPER");
    reveal_strlit("THIS");
    reveal_strlit("TRUE");
    reveal_strlit("VAR");
    reveal_strlit("WHILE");
    reveal_strlit("_");
    reveal_strlit("EQUAL_EQUAL");
    reveal_strlit("BANG_EQUAL");
    reveal_strlit("LESS_EQUAL");
    reveal_strlit("GREATER_EQUAL");
    reveal_strlit("IDENTIFIER");
    reveal_strlit("STRING");
    reveal_strlit("NUMBER");
    reveal_strlit("EOF");
    match k {
        TokenType::EqualEqual => {
            assert(char_name('=') + "_"@ + char_name('=') =~= "EQUAL_EQUAL"@);
        },
        TokenType::BangEqual => {
            assert(char_name('!') + "_"@ + char_name('=') =~= "BANG_EQUAL"@);
        },
        TokenType::LessEqual => {
            assert(char_name('<') + "_"@ + char_name('=') =~= "LESS_EQUAL"@);
        },
        TokenType::GreaterEqual => {
            assert(char_name('>') + "_"@ + char_name('=') =~= "GREATER_EQUAL"@);
        },
        _ => {},
    }
    assert forall|w: Seq<char>|
        #[trigger] keyword_kind(w) == k && k != TokenType::Identifier implies kind_name(k) == upper(
        w,
    ) by {
        match k {
            TokenType::And => {
                assert(w == "and"@);
                assert(upper(w) =~= "AND"@);
            },
            TokenType::Class => {
                assert(w == "class"@);
                assert(upper(w) =~= "CLASS"@);
            },
            TokenType::Else => {
                assert(w == "else"@);
                assert(upper(w) =~= "ELSE"@);
            },
            TokenType::False => {
                assert(w == "false"@);
                assert(upper(w) =~= "FALSE"@);
            },
            TokenType::For => {
                assert(w == "for"@);
                assert(upper(w) =~= "FOR"@);
            },
            TokenType::Fun => {
                assert(w == "fun"@);
                assert(upper(w) =~= "FUN"@);
            },
            TokenType::If => {
                assert(w == "if"@);
                assert(upper(w) =~= "IF"@);
            },
            TokenType::Nil => {
                assert(w == "nil"@);
                assert(upper(w) =~= "NIL"@);
            },
            TokenType::Or => {
                assert(w == "or"@);
                assert(upper(w) =~= "OR"@);
            },
            TokenType::Print => {
                assert(w == "print"@);
                assert(upper(w) =~= "PRINT"@);
            },
            TokenType::Return => {
                assert(w == "return"@);
                assert(upper(w) =~= "RETURN"@);
            },
            TokenType::Super => {
                assert(w == "super"@);
                assert(upper(w) =~= "SUPER"@);
            },
            TokenType::This => {
                assert(w == "this"@);
                assert(upper(w) =~= "THIS"@);
            },
            TokenType::True => {
                assert(w == "true"@);
                assert(upper(w) =~= "TRUE"@);
            },
            TokenType::Var => {
                assert(w == "var"@);
                assert(upper(w) =~= "VAR"@);
            },
            TokenType::While => {
                assert(w == "while"@);
                assert(upper(w) =~= "WHILE"@);
            },
            _ => {},
        }
    }
}

/// Law: `as_str` names every kind differently.
pub proof fn lemma_kind_names_distinct(a: TokenType, b: TokenType)
    requires
        kind_name(a) == kind_name(b),
    ensures
        a == b,
{
    reveal_strlit("COMMA");
    reveal_strlit("DOT");
    reveal_strlit("MINUS");
    reveal_strlit("PLUS");
    reveal_strlit("SEMICOLON");
    reveal_strlit("STAR");
    reveal_strlit("LEFT_PAREN");
    reveal_strlit("RIGHT_PAREN");
    reveal_strlit("LEFT_BRACE");
    reveal_strlit("RIGHT_BRACE");
    reveal_strlit("EQUAL");
    reveal_strlit("BANG");
    reveal_strlit("LESS");
    reveal_strlit("GREATER");
    reveal_strlit("EQUAL_EQUAL");
    reveal_strlit("BANG_EQUAL");
    reveal_strlit("LESS_EQUAL");
    reveal_strlit("GREATER_EQUAL");
    reveal_strlit("AND");
    reveal_strlit("CLASS");
    reveal_strlit("ELSE");
    reveal_strlit("FALSE");
    reveal_strlit("FOR");
    reveal_strlit("FUN");
    reveal_strlit("IF");
    reveal_strlit("NIL");
    reveal_strlit("OR");
    reveal_strlit("PRINT");
    reveal_strlit("RETURN");
    reveal_strlit("SUPER");
    reveal_strlit("THIS");
    reveal_strlit("TRUE");
    reveal_strlit("VAR");
    reveal_strlit("WHILE");
    reveal_strlit("IDENTIFIER");
    reveal_strlit("STRING");
    reveal_strlit("NUMBER");
    reveal_strlit("SLASH");
    reveal_strlit("EOF");
    let (x, y) = (kind_name(a), kind_name(b));
    assert(x.len() == y.len());
    // names of one length differ within their first seven characters
    assert(x[0] == y[0]);
    assert(x.len() > 1 ==> x[1] == y[1]);
    assert(x.len() > 2 ==> x[2] == y[2]);
    assert(x.len() > 3 ==> x[3] == y[3]);
    assert(x.len() > 4 ==> x[4] == y[4]);
    assert(x.len() > 5 ==> x[5] == y[5]);
    assert(x.len() > 6 ==> x[6] == y[6]);
}

/// The scanner's state while it walks through a source text.
pub struct Scanner<'a> {
    source: &'a str,
    line: usize,
    offset: usize,
    tokens: Vec<Token>,
    errors: Vec<ScanError>,
}

/// Scans `source` into its tokens, closed by an end-of-input token, and the
/// errors found on the way. Scanning never stops at an error. The byte length
/// of `source` must leave room for the line count in a `usize`.
pub fn scan_tokens(source: &str) -> (result: (Vec<Token>, Vec<ScanError>))
    requires
        source.spec_bytes().len() < usize::MAX,
    ensures
        token_views(result.0@) == scan(source.spec_bytes()).0,
        error_views(result.1@) == scan(source.spec_bytes()).1,
{
    let mut scanner = Scanner {
        source,
        line: 1,
        offset: 0,
        tokens: Vec::new(),
        errors: Vec::new(),
    };
    let len = source.as_bytes().len();
    assert(token_views(scanner.tokens@) =~= seq![]);
    assert(error_views(scanner.errors@) =~= seq![]);
    assert(scanner.state() =~= initial_state());
    while scanner.offset < len
        invariant
            scanner.wf(),
            scanner.source == source,
            len == source.spec_bytes().len(),
            lex_from(source.spec_bytes(), scanner.state()) == lex_from(
                source.spec_bytes(),
                initial_state(),
            ),
        decreases len - scanner.offset,
    {
        proof {
            lemma_step_advances(source.spec_bytes(), scanner.state());
        }
        scanner.scan_once();
    }
    scanner.emit(Token { kind: TokenType::Eof, lexeme: String::new(), literal: None });
    (scanner.tokens, scanner.errors)
}

/// The kind of a scanned word: its keyword, or `Identifier`.
fn keyword_type(word: &String) -> (kind: TokenType)
    ensures
        kind == keyword_kind(word@),
{
    if text_is(word, "and") {
        TokenType::And
    } else if text_is(word, "class") {
        TokenType::Class
    } else if text_is(word, "else") {
        TokenType::Else
    } else if text_is(word, "false") {
        TokenType::False
    } else if text_is(word, "for") {
        TokenType::For
    } else if text_is(word, "fun") {
        TokenType::Fun
    } else if text_is(word, "if") {
        TokenType::If
    } else if text_is(word, "nil") {
        TokenType::Nil
    } else if text_is(word, "or") {
        TokenType::Or
    } else if text_is(word, "print") {
        TokenType::Print
    } else if text_is(word, "return") {
        TokenType::Return
    } else if text_is(word, "super") {
        TokenType::Super
    } else if text_is(word, "this") {
        TokenType::This
    } else if text_is(word, "true") {
        TokenType::True
    } else if text_is(word, "var") {
        TokenType::Var
    } else if text_is(word, "while") {
        TokenType::While
    } else {
        TokenType::Identifier
    }
}

fn unexpected_text(c: char) -> (message: String)
    ensures
        message@ == unexpected_message(c),
{
    let mut message = "Unexpected character: ".to_owned();
    push_char(&mut message, c);
    assert(message@ =~= "Unexpected character: "@ + seq![c]);
    message
}

fn byte_is_digit(c: char) -> (r: bool)
    ensures
        r == is_digit(c),
{
    '0' <= c && c <= '9'
}

fn byte_is_word(c: char) -> (r: bool)
    ensures
        r == is_word_byte(c),
{
    c == '_' || ('a' <= c && c <= 'z') || ('A' <= c && c <= 'Z') || ('0' <= c && c <= '9')
}

impl<'a> Scanner<'a> {
    /// The bytes being scanned.
    pub closed spec fn src(&self) -> Seq<u8> {
        self.source.spec_bytes()
    }

    pub closed spec fn state(&self) -> ScanState {
        ScanState {
            offset: self.offset as int,
            line: self.line as int,
            tokens: token_views(self.tokens@),
            errors: error_views(self.errors@),
        }
    }

    /// The scanner stands within the source and has counted at most one line
    /// per byte read.
    pub closed spec fn wf(&self) -> bool {
        &&& self.src().len() < usize::MAX
        &&& self.offset <= self.src().len()
        &&& 1 <= self.line <= self.offset + 1
    }

    /// The scanner has just read the byte `c`.
    pub closed spec fn just_read(&self, c: char) -> bool {
        &&& self.src().len() < usize::MAX
        &&& 1 <= self.offset <= self.src().len()
        &&& self.src()[self.offset - 1] as char == c
        &&& 1 <= self.line <= self.offset
    }

    fn emit(&mut self, t: Token)
        ensures
            final(self).state() == old(self).state().emit(t@),
            final(self).source == old(self).source,
            final(self).offset == old(self).offset,
            final(self).line == old(self).line,
    {
        let ghost v = t@;
        self.tokens.push(t);
        assert(token_views(self.tokens@) =~= token_views(old(self).tokens@).push(v));
    }

    fn report(&mut self, message: String)
        requires
            old(self).line >= 0,
        ensures
            final(self).state() == old(self).state().report(message@),
            final(self).source == old(self).source,
            final(self).offset == old(self).offset,
            final(self).line == old(self).line,
    {
        let e = ScanError { line: self.line, message };
        let ghost v = e@;
        self.errors.push(e);
        assert(error_views(self.errors@) =~= error_views(old(self).errors@).push(v));
    }

    /// Reads one byte and whatever token, comment or error it starts.
    fn scan_once(&mut self)
        requires
            old(self).wf(),
            old(self).offset < old(self).src().len(),
        ensures
            final(self).wf(),
            final(self).source == old(self).source,
            final(self).state() == lex_step(old(self).src(), old(self).state()),
    {
        let c = self.source.as_bytes()[self.offset] as char;
        self.offset += 1;
        match c {
            // these two steps cannot fail on the characters that select them
            ',' | '.' | '-' | '+' | ';' | '*' | '(' | ')' | '{' | '}' => {
                let _ = self.scan_single_character(c);
            },
            '=' | '!' | '<' | '>' => {
                let _ = self.scan_one_or_two_character(c);
            },
            '_' | 'a'..='z' | 'A'..='Z' => self.scan_keywords_and_identifier(c),
            '0'..='9' => self.scan_number(c),
            '"' => self.scan_string(c),
            '/' => self.scan_slash(c),
            ' ' | '\t' | '\n' => self.scan_space(c),
            _ => self.unexpected_character(c),
        }
    }

    /// Emits the token of a single-character kind; fails, changing nothing,
    /// on any other character.
    fn scan_single_character(&mut self, c: char) -> (r: Result<(), String>)
        requires
            old(self).just_read(c),
        ensures
            final(self).wf(),
            final(self).source == old(self).source,
            r is Ok <==> is_single_char(c),
            r is Ok ==> final(self).state() == lex_single(old(self).state(), c),
            r matches Err(m) ==> m@ == unexpected_message(c) && final(self).state() == old(
                self,
            ).state(),
    {
        let kind = match c {
            ',' => TokenType::Comma,
            '.' => TokenType::Dot,
            '-' => TokenType::Minus,
            '+' => TokenType::Plus,
            ';' => TokenType::Semicolon,
            '*' => TokenType::Star,
            '(' => TokenType::LeftParen,
            ')' => TokenType::RightParen,
            '{' => TokenType::LeftBrace,
            '}' => TokenType::RightBrace,
            _ => return Err(unexpected_text(c)),
        };
        let mut lexeme = String::new();
        push_char(&mut lexeme, c);
        assert(lexeme@ =~= seq![c]);
        self.emit(Token { kind, lexeme, literal: None });
        Ok(())
    }

    /// Emits the token of a one- or two-character operator; fails on any other
    /// character, having only moved past a following `=`.
    fn scan_one_or_two_character(&mut self, c: char) -> (r: Result<(), String>)
        requires
            old(self).just_read(c),
        ensures
            final(self).wf(),
            final(self).source == old(self).source,
            r is Ok <==> is_comparison_char(c),
            r is Ok ==> final(self).state() == lex_comparison(
                old(self).src(),
                old(self).state(),
                c,
            ),
            r matches Err(m) ==> m@ == unexpected_message(c) && final(self).state() == old(
                self,
            ).state().at(lex_comparison(old(self).src(), old(self).state(), c).offset),
    {
        let bytes = self.source.as_bytes();
        let mut lexeme = String::new();
        push_char(&mut lexeme, c);
        let with_equal = self.offset < bytes.len() && bytes[self.offset] as char == '=';
        assert(lexeme@ =~= seq![c]);
        if with_equal {
            push_char(&mut lexeme, '=');
            assert(lexeme@ =~= seq![c, '=']);
        }
        if with_equal {
            self.offset += 1;
        }
        let kind = match (c, with_equal) {
            ('=', false) => TokenType::Equal,
            ('!', false) => TokenType::Bang,
            ('<', false) => TokenType::Less,
            ('>', false) => TokenType::Greater,
            ('=', true) => TokenType::EqualEqual,
            ('!', true) => TokenType::BangEqual,
            ('<', true) => TokenType::LessEqual,
            ('>', true) => TokenType::GreaterEqual,
            _ => return Err(unexpected_text(c)),
        };
        self.emit(Token { kind, lexeme, literal: None });
        Ok(())
    }

    fn scan_keywords_and_identifier(&mut self, c: char)
        requires
            old(self).just_read(c),
        ensures
            final(self).wf(),
            final(self).source == old(self).source,
            final(self).state() == lex_word(old(self).src(), old(self).state()),
    {
        let bytes = self.source.as_bytes();
        let start = self.offset - 1;
        let mut end = self.offset;
        while end < bytes.len() && byte_is_word(bytes[end] as char)
            invariant
                bytes@ == self.src(),
                self.offset <= end <= bytes@.len(),
                word_end(bytes@, self.offset as int) == word_end(bytes@, end as int),
            decreases bytes@.len() - end,
        {
            end += 1;
        }
        let lexeme = ascii_string(bytes, start, end);
        let kind = keyword_type(&lexeme);
        self.emit(Token { kind, lexeme, literal: None });
        self.offset = end;
    }

    fn scan_number(&mut self, c: char)
        requires
            old(self).just_read(c),
        ensures
            final(self).wf(),
            final(self).source == old(self).source,
            final(self).state() == lex_number(old(self).src(), old(self).state()),
    {
        let bytes = self.source.as_bytes();
        let len = bytes.len();
        let start = self.offset - 1;
        let mut int_end = self.offset;
        while int_end < len && byte_is_digit(bytes[int_end] as char)
            invariant
                bytes@ == self.src(),
                len == bytes@.len(),
                self.offset <= int_end <= len,
                digits_end(bytes@, self.offset as int) == digits_end(bytes@, int_end as int),
            decreases len - int_end,
        {
            int_end += 1;
        }
        if int_end + 1 < len && bytes[int_end] as char == '.' && byte_is_digit(bytes[int_end + 1] as char) {
            let lo = int_end + 1;
            let mut frac_end = lo;
            while frac_end < len && byte_is_digit(bytes[frac_end] as char)
                invariant
                    bytes@ == self.src(),
                    len == bytes@.len(),
                    lo <= frac_end <= len,
                    digits_end(bytes@, lo as int) == digits_end(bytes@, frac_end as int),
                decreases len - frac_end,
            {
                frac_end += 1;
            }
            let mut keep = frac_end;
            while keep - lo >= 2 && bytes[keep - 1] as char == '0' && bytes[keep - 2] as char == '0'
                invariant
                    bytes@ == self.src(),
                    lo <= keep <= frac_end <= len,
                    len == bytes@.len(),
                    trim_zeros(bytes@, lo as int, frac_end as int) == trim_zeros(
                        bytes@,
                        lo as int,
                        keep as int,
                    ),
                decreases keep,
            {
                keep -= 1;
            }
            let lexeme = ascii_string(bytes, start, frac_end);
            let literal = ascii_string(bytes, start, keep);
            self.emit(Token { kind: TokenType::Number, lexeme, literal: Some(literal) });
            self.offset = frac_end;
        } else {
            let lexeme = ascii_string(bytes, start, int_end);
            let mut literal = lexeme.clone();
            push_char(&mut literal, '.');
            push_char(&mut literal, '0');
            assert(literal@ =~= lexeme@ + seq!['.', '0']);
            self.emit(Token { kind: TokenType::Number, lexeme, literal: Some(literal) });
            self.offset = int_end;
        }
    }

    fn scan_string(&mut self, c: char)
        requires
            old(self).just_read(c),
            c == '"',
        ensures
            final(self).wf(),
            final(self).source == old(self).source,
            final(self).state() == lex_string(old(self).src(), old(self).state()),
    {
        let bytes = self.source.as_bytes();
        let len = bytes.len();
        let start = self.offset;
        let mut close = start;
        let mut line = self.line;
        while close < len && bytes[close] as char != '"'
            invariant
                bytes@ == self.src(),
                len == bytes@.len(),
                len < usize::MAX,
                start <= close <= len,
                1 <= self.line <= start,
                line == self.line + count_newlines(bytes@, start as int, close as int),
                self.line <= line <= self.line + (close - start),
                quote_end(bytes@, start as int) == quote_end(bytes@, close as int),
            decreases len - close,
        {
            if bytes[close] as char == '\n' {
                line += 1;
            }
            close += 1;
        }
        self.line = line;
        if close >= len {
            self.report("Unterminated string.".to_owned());
            self.offset = len;
            return;
        }
        proof {
            encode_utf8_valid_utf8(self.source@);
            lemma_boundary_after_ascii(bytes@, start as int);
            lemma_boundary_at_ascii(bytes@, close as int);
        }
        let contents = source_text(self.source, start, close);
        let mut lexeme = String::new();
        push_char(&mut lexeme, '"');
        lexeme.append(contents.as_str());
        push_char(&mut lexeme, '"');
        assert(lexeme@ =~= seq!['"'] + contents@ + seq!['"']);
        self.emit(Token { kind: TokenType::String, lexeme, literal: Some(contents) });
        self.offset = close + 1;
    }

    fn scan_slash(&mut self, c: char)
        requires
            old(self).just_read(c),
        ensures
            final(self).wf(),
            final(self).source == old(self).source,
            final(self).state() == lex_slash(old(self).src(), old(self).state()),
    {
        let bytes = self.source.as_bytes();
        let len = bytes.len();
        if self.offset < len && bytes[self.offset] as char == '/' {
            // a comment runs to the end of the line
            let mut end = self.offset + 1;
            while end < len && bytes[end] as char != '\n'
                invariant
                    bytes@ == self.src(),
                    len == bytes@.len(),
                    self.offset + 1 <= end <= len,
                    line_end(bytes@, self.offset + 1) == line_end(bytes@, end as int),
                decreases len - end,
            {
                end += 1;
            }
            self.offset = end;
            return;
        }
        let mut lexeme = String::new();
        push_char(&mut lexeme, '/');
        assert(lexeme@ =~= seq!['/']);
        self.emit(Token { kind: TokenType::Slash, lexeme, literal: None });
    }

    fn scan_space(&mut self, c: char)
        requires
            old(self).just_read(c),
        ensures
            final(self).wf(),
            final(self).source == old(self).source,
            final(self).state() == lex_blank(old(self).state(), c),
    {
        if c == '\n' {
            self.line += 1;
        }
    }

    fn unexpected_character(&mut self, c: char)
        requires
            old(self).just_read(c),
        ensures
            final(self).wf(),
            final(self).source == old(self).source,
            final(self).state() == lex_unexpected(old(self).state(), c),
    {
        self.report(unexpected_text(c));
    }
}

} // verus!
