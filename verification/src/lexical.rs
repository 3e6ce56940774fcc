//! The lexical grammar of Lox, stated over the UTF-8 bytes of the source.

use vstd::prelude::*;
use vstd::utf8::*;

use crate::scanning::{ScanErrorView, TokenType, TokenView};

verus! {

pub open spec fn is_digit(c: char) -> bool {
    '0' <= c <= '9'
}

pub open spec fn is_alpha(c: char) -> bool {
    ('a' <= c <= 'z') || ('A' <= c <= 'Z')
}

/// A byte that can start an identifier or keyword.
pub open spec fn is_word_start(c: char) -> bool {
    c == '_' || is_alpha(c)
}

/// A byte that can continue an identifier or keyword.
pub open spec fn is_word_byte(c: char) -> bool {
    is_word_start(c) || is_digit(c)
}

pub open spec fn is_single_char(c: char) -> bool {
    c == ',' || c == '.' || c == '-' || c == '+' || c == ';' || c == '*' || c == '('
        || c == ')' || c == '{' || c == '}'
}

/// A byte that starts a one- or two-character operator (the second one being `=`).
pub open spec fn is_comparison_char(c: char) -> bool {
    c == '=' || c == '!' || c == '<' || c == '>'
}

pub open spec fn is_blank(c: char) -> bool {
    c == ' ' || c == '\t' || c == '\n'
}

pub open spec fn single_kind(c: char) -> TokenType {
    if c == ',' {
        TokenType::Comma
    } else if c == '.' {
        TokenType::Dot
    } else if c == '-' {
        TokenType::Minus
    } else if c == '+' {
        TokenType::Plus
    } else if c == ';' {
        TokenType::Semicolon
    } else if c == '*' {
        TokenType::Star
    } else if c == '(' {
        TokenType::LeftParen
    } else if c == ')' {
        TokenType::RightParen
    } else if c == '{' {
        TokenType::LeftBrace
    } else {
        TokenType::RightBrace
    }
}

pub open spec fn comparison_kind(c: char, with_equal: bool) -> TokenType {
    if c == '=' {
        if with_equal { TokenType::EqualEqual } else { TokenType::Equal }
    } else if c == '!' {
        if with_equal { TokenType::BangEqual } else { TokenType::Bang }
    } else if c == '<' {
        if with_equal { TokenType::LessEqual } else { TokenType::Less }
    } else {
        if with_equal { TokenType::GreaterEqual } else { TokenType::Greater }
    }
}

/// The kind of a scanned word: its keyword, or `Identifier`.
pub open spec fn keyword_kind(word: Seq<char>) -> TokenType {
    if word == "and"@ {
        TokenType::And
    } else if word == "class"@ {
        TokenType::Class
    } else if word == "else"@ {
        TokenType::Else
    } else if word == "false"@ {
        TokenType::False
    } else if word == "for"@ {
        TokenType::For
    } else if word == "fun"@ {
        TokenType::Fun
    } else if word == "if"@ {
        TokenType::If
    } else if word == "nil"@ {
        TokenType::Nil
    } else if word == "or"@ {
        TokenType::Or
    } else if word == "print"@ {
        TokenType::Print
    } else if word == "return"@ {
        TokenType::Return
    } else if word == "super"@ {
        TokenType::Super
    } else if word == "this"@ {
        TokenType::This
    } else if word == "true"@ {
        TokenType::True
    } else if word == "var"@ {
        TokenType::Var
    } else if word == "while"@ {
        TokenType::While
    } else {
        TokenType::Identifier
    }
}

/// The bytes `src[a..b]`, each read as the character with that code.
pub open spec fn ascii_text(src: Seq<u8>, a: int, b: int) -> Seq<char> {
    src.subrange(a, b).map_values(|x: u8| x as char)
}

/// The characters that the UTF-8 bytes `src[a..b]` encode.
pub open spec fn utf8_text(src: Seq<u8>, a: int, b: int) -> Seq<char> {
    decode_utf8(src.subrange(a, b))
}

/// The end of the run of bytes satisfying `p` that starts at `i`: the first
/// index at or after `i` whose byte fails `p`, or the length of `src`.
pub open spec fn run_end(src: Seq<u8>, i: int, p: spec_fn(u8) -> bool) -> int
    decreases src.len() - i,
{
    if 0 <= i < src.len() && p(src[i]) {
        run_end(src, i + 1, p)
    } else {
        i
    }
}

pub open spec fn digits_end(src: Seq<u8>, i: int) -> int {
    run_end(src, i, |b: u8| is_digit(b as char))
}

pub open spec fn word_end(src: Seq<u8>, i: int) -> int {
    run_end(src, i, |b: u8| is_word_byte(b as char))
}

/// The index of the next `"` at or after `i`, or the length of `src`.
pub open spec fn quote_end(src: Seq<u8>, i: int) -> int {
    run_end(src, i, |b: u8| b as char != '"')
}

/// The index of the next newline at or after `i`, or the length of `src`.
pub open spec fn line_end(src: Seq<u8>, i: int) -> int {
    run_end(src, i, |b: u8| b as char != '\n')
}

/// The number of newline bytes in `src[a..b]`.
pub open spec fn count_newlines(src: Seq<u8>, a: int, b: int) -> int
    decreases b - a,
{
    if b <= a {
        0
    } else {
        count_newlines(src, a, b - 1) + if src[b - 1] as char == '\n' { 1int } else { 0int }
    }
}

/// The end of the fraction digits `src[lo..hi]` once a run of two or more
/// trailing zeros is cut down to one zero.
pub open spec fn trim_zeros(src: Seq<u8>, lo: int, hi: int) -> int
    decreases hi - lo,
{
    if hi - lo >= 2 && src[hi - 1] as char == '0' && src[hi - 2] as char == '0' {
        trim_zeros(src, lo, hi - 1)
    } else {
        hi
    }
}

/// Where the scanner stands: the next byte to read, the current line, and what
/// it has produced so far.
pub struct ScanState {
    pub offset: int,
    pub line: int,
    pub tokens: Seq<TokenView>,
    pub errors: Seq<ScanErrorView>,
}

impl ScanState {
    pub open spec fn emit(self, t: TokenView) -> ScanState {
        ScanState { tokens: self.tokens.push(t), ..self }
    }

    pub open spec fn report(self, message: Seq<char>) -> ScanState {
        ScanState { errors: self.errors.push(ScanErrorView { line: self.line, message }), ..self }
    }

    pub open spec fn at(self, offset: int) -> ScanState {
        ScanState { offset, ..self }
    }
}

pub open spec fn token(kind: TokenType, lexeme: Seq<char>, literal: Option<Seq<char>>) -> TokenView {
    TokenView { kind, lexeme, literal }
}

// Each of the following describes one token class. `st` is the state just
// after the byte that selected the class, and `c` is that byte read as a character.

pub open spec fn lex_single(st: ScanState, c: char) -> ScanState {
    st.emit(token(single_kind(c), seq![c], None))
}

pub open spec fn lex_comparison(src: Seq<u8>, st: ScanState, c: char) -> ScanState {
    let with_equal = st.offset < src.len() && src[st.offset] as char == '=';
    if with_equal {
        st.emit(token(comparison_kind(c, true), seq![c, '='], None)).at(st.offset + 1)
    } else {
        st.emit(token(comparison_kind(c, false), seq![c], None))
    }
}

pub open spec fn lex_word(src: Seq<u8>, st: ScanState) -> ScanState {
    let end = word_end(src, st.offset);
    let word = ascii_text(src, st.offset - 1, end);
    st.emit(token(keyword_kind(word), word, None)).at(end)
}

/// A number is digits, optionally followed by `.` and at least one digit. Its
/// literal always has a fraction: `.0` is added to a whole number, and a run of
/// trailing zeros in the fraction is cut down to one. A `.` not followed by a
/// digit is left for the next token.
pub open spec fn lex_number(src: Seq<u8>, st: ScanState) -> ScanState {
    let start = st.offset - 1;
    let int_end = digits_end(src, st.offset);
    if int_end + 1 < src.len() && src[int_end] as char == '.' && is_digit(src[int_end + 1] as char) {
        let frac_end = digits_end(src, int_end + 1);
        let keep = trim_zeros(src, int_end + 1, frac_end);
        st.emit(
            token(
                TokenType::Number,
                ascii_text(src, start, frac_end),
                Some(ascii_text(src, start, keep)),
            ),
        ).at(frac_end)
    } else {
        let digits = ascii_text(src, start, int_end);
        st.emit(token(TokenType::Number, digits, Some(digits + seq!['.', '0']))).at(int_end)
    }
}

/// A string runs to the next `"`; newlines inside it count as lines. Without a
/// closing `"` it is an error reported on the last line of the source.
pub open spec fn lex_string(src: Seq<u8>, st: ScanState) -> ScanState {
    let close = quote_end(src, st.offset);
    let line = st.line + count_newlines(src, st.offset, close);
    if close >= src.len() {
        ScanState { line, ..st }.report("Unterminated string."@).at(src.len() as int)
    } else {
        let contents = utf8_text(src, st.offset, close);
        ScanState { line, ..st }.emit(
            token(TokenType::String, seq!['"'] + contents + seq!['"'], Some(contents)),
        ).at(close + 1)
    }
}

/// `//` starts a comment that runs to the end of the line; a lone `/` is a token.
pub open spec fn lex_slash(src: Seq<u8>, st: ScanState) -> ScanState {
    if st.offset < src.len() && src[st.offset] as char == '/' {
        st.at(line_end(src, st.offset + 1))
    } else {
        st.emit(token(TokenType::Slash, seq!['/'], None))
    }
}

pub open spec fn lex_blank(st: ScanState, c: char) -> ScanState {
    if c == '\n' {
        ScanState { line: st.line + 1, ..st }
    } else {
        st
    }
}

/// The message for a character that starts no token.
pub open spec fn unexpected_message(c: char) -> Seq<char> {
    "Unexpected character: "@ + seq![c]
}

pub open spec fn lex_unexpected(st: ScanState, c: char) -> ScanState {
    st.report(unexpected_message(c))
}

/// One step of the scanner from `st`, which must stand before the end of `src`.
pub open spec fn lex_step(src: Seq<u8>, st: ScanState) -> ScanState {
    let c = src[st.offset] as char;
    let next = st.at(st.offset + 1);
    if is_single_char(c) {
        lex_single(next, c)
    } else if is_comparison_char(c) {
        lex_comparison(src, next, c)
    } else if is_word_start(c) {
        lex_word(src, next)
    } else if is_digit(c) {
        lex_number(src, next)
    } else if c == '"' {
        lex_string(src, next)
    } else if c == '/' {
        lex_slash(src, next)
    } else if is_blank(c) {
        lex_blank(next, c)
    } else {
        lex_unexpected(next, c)
    }
}

pub proof fn lemma_run_end_bounds(src: Seq<u8>, i: int, p: spec_fn(u8) -> bool)
    requires
        0 <= i <= src.len(),
    ensures
        i <= run_end(src, i, p) <= src.len(),
    decreases src.len() - i,
{
    if 0 <= i < src.len() && p(src[i]) {
        lemma_run_end_bounds(src, i + 1, p);
    }
}

pub proof fn lemma_trim_zeros_bounds(src: Seq<u8>, lo: int, hi: int)
    requires
        lo <= hi,
    ensures
        lo <= trim_zeros(src, lo, hi) <= hi,
    decreases hi - lo,
{
    if hi - lo >= 2 && src[hi - 1] as char == '0' && src[hi - 2] as char == '0' {
        lemma_trim_zeros_bounds(src, lo, hi - 1);
    }
}

/// Every step moves forward and stays within the source.
pub proof fn lemma_step_advances(src: Seq<u8>, st: ScanState)
    requires
        0 <= st.offset < src.len(),
    ensures
        st.offset < lex_step(src, st).offset <= src.len(),
{
    let c = src[st.offset] as char;
    let o = st.offset + 1;
    lemma_run_end_bounds(src, o, |b: u8| is_word_byte(b as char));
    lemma_run_end_bounds(src, o, |b: u8| is_digit(b as char));
    lemma_run_end_bounds(src, o, |b: u8| b as char != '"');
    if o < src.len() {
        lemma_run_end_bounds(src, o + 1, |b: u8| b as char != '\n');
    }
    if is_digit(c) {
        let int_end = digits_end(src, o);
        if int_end + 1 < src.len() {
            lemma_run_end_bounds(src, int_end + 1, |b: u8| is_digit(b as char));
        }
    }
}

/// The scanner run from `st` to the end of `src`.
pub open spec fn lex_from(src: Seq<u8>, st: ScanState) -> ScanState
    decreases src.len() - st.offset,
{
    if 0 <= st.offset < src.len() {
        proof {
            lemma_step_advances(src, st);
        }
        lex_from(src, lex_step(src, st))
    } else {
        st
    }
}

pub open spec fn initial_state() -> ScanState {
    ScanState { offset: 0, line: 1, tokens: seq![], errors: seq![] }
}

pub open spec fn eof_token() -> TokenView {
    token(TokenType::Eof, seq![], None)
}

/// What scanning `src` gives: its tokens, closed by an end-of-input token, and
/// the errors found.
pub open spec fn scan(src: Seq<u8>) -> (Seq<TokenView>, Seq<ScanErrorView>) {
    let last = lex_from(src, initial_state());
    (last.tokens.push(eof_token()), last.errors)
}

// ---------------------------------------------------------------------------
// What every scan guarantees.

pub open spec fn is_word_kind(kind: TokenType) -> bool {
    kind == TokenType::Identifier || kind == TokenType::And || kind == TokenType::Class || kind
        == TokenType::Else || kind == TokenType::False || kind == TokenType::For || kind
        == TokenType::Fun || kind == TokenType::If || kind == TokenType::Nil || kind
        == TokenType::Or || kind == TokenType::Print || kind == TokenType::Return || kind
        == TokenType::Super || kind == TokenType::This || kind == TokenType::True || kind
        == TokenType::Var || kind == TokenType::While
}

/// Digits, one `.`, digits, with at least one digit on each side, and not
/// ending in two zeros.
pub open spec fn is_number_literal(lit: Seq<char>) -> bool {
    &&& exists|d: int|
        0 < d < lit.len() - 1 && #[trigger] lit[d] == '.' && forall|i: int|
            0 <= i < lit.len() && i != d ==> is_digit(#[trigger] lit[i])
    &&& !(lit[lit.len() - 1] == '0' && lit[lit.len() - 2] == '0')
}

/// The spelling of the kinds of token that always have the same lexeme.
pub open spec fn fixed_lexeme(kind: TokenType) -> Option<Seq<char>> {
    match kind {
        TokenType::Comma => Some(seq![',']),
        TokenType::Dot => Some(seq!['.']),
        TokenType::Minus => Some(seq!['-']),
        TokenType::Plus => Some(seq!['+']),
        TokenType::Semicolon => Some(seq![';']),
        TokenType::Star => Some(seq!['*']),
        TokenType::LeftParen => Some(seq!['(']),
        TokenType::RightParen => Some(seq![')']),
        TokenType::LeftBrace => Some(seq!['{']),
        TokenType::RightBrace => Some(seq!['}']),
        TokenType::Equal => Some(seq!['=']),
        TokenType::Bang => Some(seq!['!']),
        TokenType::Less => Some(seq!['<']),
        TokenType::Greater => Some(seq!['>']),
        TokenType::EqualEqual => Some(seq!['=', '=']),
        TokenType::BangEqual => Some(seq!['!', '=']),
        TokenType::LessEqual => Some(seq!['<', '=']),
        TokenType::GreaterEqual => Some(seq!['>', '=']),
        TokenType::Slash => Some(seq!['/']),
        _ => None,
    }
}

/// A letter, a digit or `_`.
pub open spec fn is_name_char(c: char) -> bool {
    ('a' <= c <= 'z') || ('A' <= c <= 'Z') || ('0' <= c <= '9') || c == '_'
}

/// The literal of a number stands for the same value as its lexeme: a whole
/// number gets `.0`; otherwise the literal is the lexeme less some trailing
/// zeros of the fraction, keeping the last zero it cuts into.
pub open spec fn literal_keeps_value(lexeme: Seq<char>, literal: Seq<char>) -> bool {
    if !(exists|i: int| 0 <= i < lexeme.len() && #[trigger] lexeme[i] == '.') {
        literal == lexeme + seq!['.', '0']
    } else {
        &&& literal.len() <= lexeme.len()
        &&& literal == lexeme.subrange(0, literal.len() as int)
        &&& forall|i: int| literal.len() <= i < lexeme.len() ==> #[trigger] lexeme[i] == '0'
        &&& literal.len() < lexeme.len() ==> literal.last() == '0'
    }
}

/// What holds of every token that the scanner emits before the closing
/// end-of-input token.
pub open spec fn well_formed_token(t: TokenView) -> bool {
    &&& t.kind != TokenType::Eof
    &&& fixed_lexeme(t.kind) matches Some(s) ==> t.lexeme == s
    &&& (t.literal is Some <==> (t.kind == TokenType::Number || t.kind == TokenType::String))
    &&& is_word_kind(t.kind) ==> t.kind == keyword_kind(t.lexeme)
    &&& is_word_kind(t.kind) ==> t.lexeme.len() > 0 && forall|i: int|
        0 <= i < t.lexeme.len() ==> is_name_char(#[trigger] t.lexeme[i])
    &&& t.kind == TokenType::Number ==> is_number_literal(t.literal->0)
    &&& t.kind == TokenType::Number ==> literal_keeps_value(t.lexeme, t.literal->0)
    &&& t.kind == TokenType::String ==> t.lexeme == seq!['"'] + t.literal->0 + seq!['"']
}

/// Error lines are at least one, in order, and no later than `line`.
pub open spec fn errors_in_order(errors: Seq<ScanErrorView>, line: int) -> bool {
    &&& forall|i: int| 0 <= i < errors.len() ==> 1 <= #[trigger] errors[i].line <= line
    &&& forall|i: int, j: int|
        0 <= i < j < errors.len() ==> #[trigger] errors[i].line <= #[trigger] errors[j].line
}

pub open spec fn sound_state(st: ScanState) -> bool {
    &&& st.offset >= 0
    &&& st.line >= 1
    &&& forall|i: int| 0 <= i < st.tokens.len() ==> well_formed_token(#[trigger] st.tokens[i])
    &&& errors_in_order(st.errors, st.line)
}

pub proof fn lemma_run_end_all(src: Seq<u8>, i: int, p: spec_fn(u8) -> bool)
    requires
        0 <= i <= src.len(),
    ensures
        forall|k: int| i <= k < run_end(src, i, p) ==> p(#[trigger] src[k]),
    decreases src.len() - i,
{
    if 0 <= i < src.len() && p(src[i]) {
        lemma_run_end_all(src, i + 1, p);
    }
}

pub proof fn lemma_trim_zeros_result(src: Seq<u8>, lo: int, hi: int)
    requires
        lo < hi,
    ensures
        lo < trim_zeros(src, lo, hi) <= hi,
        !(trim_zeros(src, lo, hi) - lo >= 2 && src[trim_zeros(src, lo, hi) - 1] as char == '0'
            && src[trim_zeros(src, lo, hi) - 2] as char == '0'),
    decreases hi - lo,
{
    if hi - lo >= 2 && src[hi - 1] as char == '0' && src[hi - 2] as char == '0' {
        lemma_trim_zeros_result(src, lo, hi - 1);
    }
}

pub proof fn lemma_count_newlines_nonnegative(src: Seq<u8>, a: int, b: int)
    ensures
        count_newlines(src, a, b) >= 0,
    decreases b - a,
{
    if a < b {
        lemma_count_newlines_nonnegative(src, a, b - 1);
    }
}

proof fn lemma_number_sound(src: Seq<u8>, st: ScanState)
    requires
        1 <= st.offset <= src.len(),
        is_digit(src[st.offset - 1] as char),
    ensures
        lex_number(src, st).tokens.len() == st.tokens.len() + 1,
        well_formed_token(lex_number(src, st).tokens.last()),
{
    let start = st.offset - 1;
    lemma_run_end_bounds(src, st.offset, |b: u8| is_digit(b as char));
    lemma_run_end_all(src, st.offset, |b: u8| is_digit(b as char));
    let int_end = digits_end(src, st.offset);
    if int_end + 1 < src.len() && src[int_end] as char == '.' && is_digit(
        src[int_end + 1] as char,
    ) {
        let lo = int_end + 1;
        lemma_run_end_bounds(src, lo, |b: u8| is_digit(b as char));
        lemma_run_end_all(src, lo, |b: u8| is_digit(b as char));
        let frac_end = digits_end(src, lo);
        lemma_run_end_bounds(src, lo + 1, |b: u8| is_digit(b as char));
        assert(frac_end == digits_end(src, lo + 1));
        lemma_trim_zeros_result(src, lo, frac_end);
        let keep = trim_zeros(src, lo, frac_end);
        let lit = ascii_text(src, start, keep);
        let d = int_end - start;
        assert(lit[d] == '.');
        assert forall|i: int| 0 <= i < lit.len() && i != d implies is_digit(#[trigger] lit[i]) by {
            assert(is_digit(src[start + i] as char));
        }
        assert(is_number_literal(lit));
        lemma_trim_zeros_removed(src, lo, frac_end);
        let lexeme = ascii_text(src, start, frac_end);
        assert(lexeme[d] == '.');
        assert(lit =~= lexeme.subrange(0, lit.len() as int));
        assert forall|i: int| lit.len() <= i < lexeme.len() implies #[trigger] lexeme[i] == '0' by {
            assert(lexeme[i] == src[start + i] as char);
        }
        assert(literal_keeps_value(lexeme, lit));
    } else {
        let digits = ascii_text(src, start, int_end);
        let lit = digits + seq!['.', '0'];
        let d = digits.len() as int;
        assert(lit[d] == '.');
        assert forall|i: int| 0 <= i < lit.len() && i != d implies is_digit(#[trigger] lit[i]) by {
            if i < d {
                assert(lit[i] == src[start + i] as char);
            }
        }
        assert(is_number_literal(lit));
        assert forall|i: int| 0 <= i < digits.len() implies #[trigger] digits[i] != '.' by {
            assert(is_digit(src[start + i] as char));
        }
        assert(literal_keeps_value(digits, lit));
    }
}

/// The zeros that `trim_zeros` cuts, and the zero it keeps before them.
pub proof fn lemma_trim_zeros_removed(src: Seq<u8>, lo: int, hi: int)
    requires
        lo <= hi,
    ensures
        forall|k: int| trim_zeros(src, lo, hi) <= k < hi ==> #[trigger] src[k] as char == '0',
        trim_zeros(src, lo, hi) < hi ==> src[trim_zeros(src, lo, hi) - 1] as char == '0',
    decreases hi - lo,
{
    if hi - lo >= 2 && src[hi - 1] as char == '0' && src[hi - 2] as char == '0' {
        lemma_trim_zeros_removed(src, lo, hi - 1);
    }
}

proof fn lemma_word_sound(src: Seq<u8>, st: ScanState)
    requires
        1 <= st.offset <= src.len(),
        is_word_start(src[st.offset - 1] as char),
    ensures
        lex_word(src, st).tokens.len() == st.tokens.len() + 1,
        well_formed_token(lex_word(src, st).tokens.last()),
{
    let start = st.offset - 1;
    lemma_run_end_bounds(src, st.offset, |b: u8| is_word_byte(b as char));
    lemma_run_end_all(src, st.offset, |b: u8| is_word_byte(b as char));
    let end = word_end(src, st.offset);
    let word = ascii_text(src, start, end);
    assert forall|i: int| 0 <= i < word.len() implies is_name_char(#[trigger] word[i]) by {
        assert(word[i] == src[start + i] as char);
        if i > 0 {
            assert(is_word_byte(src[start + i] as char));
        }
    }
}

/// One step keeps the scanner's state sound.
pub proof fn lemma_step_sound(src: Seq<u8>, st: ScanState)
    requires
        0 <= st.offset < src.len(),
        sound_state(st),
    ensures
        sound_state(lex_step(src, st)),
{
    let c = src[st.offset] as char;
    let next = st.at(st.offset + 1);
    let after = lex_step(src, st);
    lemma_step_advances(src, st);
    if is_digit(c) && !is_single_char(c) && !is_comparison_char(c) && !is_word_start(c) {
        lemma_number_sound(src, next);
    }
    if is_word_start(c) && !is_single_char(c) && !is_comparison_char(c) {
        lemma_word_sound(src, next);
    }
    if c == '"' {
        lemma_count_newlines_nonnegative(src, st.offset + 1, quote_end(src, st.offset + 1));
    }
    assert forall|i: int| 0 <= i < after.tokens.len() implies well_formed_token(
        #[trigger] after.tokens[i],
    ) by {
        if i < st.tokens.len() {
            assert(after.tokens[i] == st.tokens[i]);
        }
    }
}

/// The scanner's state stays sound to the end.
pub proof fn lemma_lex_from_sound(src: Seq<u8>, st: ScanState)
    requires
        sound_state(st),
    ensures
        sound_state(lex_from(src, st)),
    decreases src.len() - st.offset,
{
    if 0 <= st.offset < src.len() {
        lemma_step_advances(src, st);
        lemma_step_sound(src, st);
        lemma_lex_from_sound(src, lex_step(src, st));
    }
}

/// Law: scanning closes the tokens with exactly one end-of-input token, and
/// every token before it is well formed: punctuation and operators are spelled
/// as their kind says, only numbers and strings carry a literal, a word is
/// made of letters, digits and `_` and is scanned as its keyword when it is
/// one and as an identifier otherwise, a number's literal is digits with one
/// inner `.` and no two trailing zeros and stands for the same value as its
/// lexeme, and a string's lexeme is its literal in quotes.
pub proof fn lemma_scan_tokens_well_formed(src: Seq<u8>)
    ensures
        scan(src).0.len() >= 1,
        scan(src).0.last() == eof_token(),
        forall|i: int|
            0 <= i < scan(src).0.len() - 1 ==> well_formed_token(#[trigger] scan(src).0[i]),
{
    lemma_lex_from_sound(src, initial_state());
    let last = lex_from(src, initial_state());
    assert forall|i: int| 0 <= i < scan(src).0.len() - 1 implies well_formed_token(
        #[trigger] scan(src).0[i],
    ) by {
        assert(scan(src).0[i] == last.tokens[i]);
    }
}

/// Law: every scan error is reported on a line numbered from one, and the
/// errors come in the order of their lines.
pub proof fn lemma_scan_error_lines(src: Seq<u8>)
    ensures
        forall|i: int| 0 <= i < scan(src).1.len() ==> 1 <= #[trigger] scan(src).1[i].line,
        forall|i: int, j: int|
            0 <= i < j < scan(src).1.len() ==> #[trigger] scan(src).1[i].line
                <= #[trigger] scan(src).1[j].line,
{
    lemma_lex_from_sound(src, initial_state());
}

// ---------------------------------------------------------------------------
// Tokens are pieces of the source.

/// `t` is spelled by the source bytes `src[a..b]`: byte for byte, or, for a
/// string, as the UTF-8 text between the quotes at `a` and `b - 1`.
pub open spec fn spells(src: Seq<u8>, t: TokenView, a: int, b: int) -> bool {
    if t.kind == TokenType::String {
        &&& b - a >= 2
        &&& src[a] as char == '"'
        &&& src[b - 1] as char == '"'
        &&& t.lexeme == seq!['"'] + utf8_text(src, a + 1, b - 1) + seq!['"']
    } else {
        t.lexeme == ascii_text(src, a, b)
    }
}

/// Where the tokens that the scanner emits from `st` onward stand in `src`:
/// each is the piece read by the step that emitted it.
pub open spec fn token_spans(src: Seq<u8>, st: ScanState) -> Seq<(int, int)>
    decreases src.len() - st.offset,
{
    if 0 <= st.offset < src.len() {
        proof {
            lemma_step_advances(src, st);
        }
        let next = lex_step(src, st);
        if next.tokens.len() > st.tokens.len() {
            seq![(st.offset, next.offset)] + token_spans(src, next)
        } else {
            token_spans(src, next)
        }
    } else {
        seq![]
    }
}

pub proof fn lemma_run_end_stops(src: Seq<u8>, i: int, p: spec_fn(u8) -> bool)
    requires
        0 <= i <= src.len(),
    ensures
        run_end(src, i, p) < src.len() ==> !p(src[run_end(src, i, p)]),
    decreases src.len() - i,
{
    if 0 <= i < src.len() && p(src[i]) {
        lemma_run_end_stops(src, i + 1, p);
    }
}

/// A step emits at most one token, spelled by the bytes it read.
pub proof fn lemma_step_spells(src: Seq<u8>, st: ScanState)
    requires
        0 <= st.offset < src.len(),
    ensures
        lex_step(src, st).tokens == st.tokens || (lex_step(src, st).tokens == st.tokens.push(
            lex_step(src, st).tokens.last(),
        ) && spells(src, lex_step(src, st).tokens.last(), st.offset, lex_step(src, st).offset)),
{
    let c = src[st.offset] as char;
    let o = st.offset;
    let next = lex_step(src, st);
    assert(ascii_text(src, o, o + 1) =~= seq![c]);
    if o + 2 <= src.len() {
        assert(ascii_text(src, o, o + 2) =~= seq![c, src[o + 1] as char]);
    }
    if c == '"' && !is_single_char(c) && !is_comparison_char(c) && !is_word_start(c) && !is_digit(
        c,
    ) {
        lemma_run_end_bounds(src, o + 1, |b: u8| b as char != '"');
        lemma_run_end_stops(src, o + 1, |b: u8| b as char != '"');
    }
    if next.tokens.len() > st.tokens.len() {
        assert(next.tokens =~= st.tokens.push(next.tokens.last()));
    } else {
        assert(next.tokens =~= st.tokens);
    }
}

/// What `lex_from` adds to the tokens: one per span of `token_spans`, each
/// spelled by its span, the spans in order within `src[st.offset..]`.
pub proof fn lemma_lex_from_spells(src: Seq<u8>, st: ScanState)
    requires
        0 <= st.offset,
    ensures
        ({
            let added = lex_from(src, st).tokens.subrange(
                st.tokens.len() as int,
                lex_from(src, st).tokens.len() as int,
            );
            let spans = token_spans(src, st);
            &&& lex_from(src, st).tokens.len() == st.tokens.len() + spans.len()
            &&& lex_from(src, st).tokens.subrange(0, st.tokens.len() as int) == st.tokens
            &&& forall|i: int|
                0 <= i < spans.len() ==> spells(src, #[trigger] added[i], spans[i].0, spans[i].1)
            &&& forall|i: int|
                0 <= i < spans.len() ==> st.offset <= #[trigger] spans[i].0 < spans[i].1
                    <= src.len()
            &&& forall|i: int, j: int|
                0 <= i < j < spans.len() ==> #[trigger] spans[i].1 <= #[trigger] spans[j].0
        }),
    decreases src.len() - st.offset,
{
    let fin = lex_from(src, st);
    if 0 <= st.offset < src.len() {
        lemma_step_advances(src, st);
        lemma_step_spells(src, st);
        let next = lex_step(src, st);
        lemma_lex_from_spells(src, next);
        let spans = token_spans(src, st);
        let rest = token_spans(src, next);
        let added = fin.tokens.subrange(st.tokens.len() as int, fin.tokens.len() as int);
        let added_next = fin.tokens.subrange(next.tokens.len() as int, fin.tokens.len() as int);
        assert(fin.tokens.subrange(0, next.tokens.len() as int) == next.tokens);
        if next.tokens.len() > st.tokens.len() {
            assert(spans == seq![(st.offset, next.offset)] + rest);
            assert(fin.tokens.subrange(0, st.tokens.len() as int) =~= st.tokens) by {
                assert(fin.tokens.subrange(0, st.tokens.len() as int) =~= fin.tokens.subrange(
                    0,
                    next.tokens.len() as int,
                ).subrange(0, st.tokens.len() as int));
            }
            assert(added[0] == next.tokens.last()) by {
                assert(added[0] == fin.tokens[st.tokens.len() as int]);
                assert(fin.tokens[st.tokens.len() as int] == fin.tokens.subrange(
                    0,
                    next.tokens.len() as int,
                )[st.tokens.len() as int]);
            }
            assert forall|i: int| 0 <= i < spans.len() implies spells(
                src,
                #[trigger] added[i],
                spans[i].0,
                spans[i].1,
            ) by {
                if i > 0 {
                    assert(added[i] == added_next[i - 1]);
                    assert(spans[i] == rest[i - 1]);
                }
            }
            assert forall|i: int| 0 <= i < spans.len() implies st.offset <= #[trigger] spans[
                i
            ].0 < spans[i].1 <= src.len() by {
                if i > 0 {
                    assert(spans[i] == rest[i - 1]);
                }
            }
            assert forall|i: int, j: int| 0 <= i < j < spans.len() implies #[trigger] spans[i].1
                <= #[trigger] spans[j].0 by {
                assert(spans[j] == rest[j - 1]);
                if i > 0 {
                    assert(spans[i] == rest[i - 1]);
                }
            }
        } else {
            assert(spans == rest);
            assert(added =~= added_next);
        }
    } else {
        assert(token_spans(src, st) =~= Seq::<(int, int)>::empty());
        assert(fin.tokens.subrange(0, st.tokens.len() as int) =~= st.tokens);
    }
}

/// Law: the tokens are pieces of the source, in order. Every token before the
/// closing end-of-input token is spelled by its own span of the source bytes
/// (a string by the UTF-8 text between its quotes), and the spans follow one
/// another without overlapping.
pub proof fn lemma_tokens_are_source_pieces(src: Seq<u8>)
    ensures
        ({
            let ts = scan(src).0;
            let spans = token_spans(src, initial_state());
            &&& spans.len() == ts.len() - 1
            &&& forall|i: int|
                0 <= i < spans.len() ==> spells(src, #[trigger] ts[i], spans[i].0, spans[i].1)
            &&& forall|i: int|
                0 <= i < spans.len() ==> 0 <= #[trigger] spans[i].0 < spans[i].1 <= src.len()
            &&& forall|i: int, j: int|
                0 <= i < j < spans.len() ==> #[trigger] spans[i].1 <= #[trigger] spans[j].0
        }),
{
    lemma_lex_from_spells(src, initial_state());
    let fin = lex_from(src, initial_state());
    let spans = token_spans(src, initial_state());
    assert forall|i: int| 0 <= i < spans.len() implies spells(
        src,
        #[trigger] scan(src).0[i],
        spans[i].0,
        spans[i].1,
    ) by {
        assert(scan(src).0[i] == fin.tokens.subrange(0, fin.tokens.len() as int)[i]);
    }
}

// ---------------------------------------------------------------------------
// The line counter.

/// The state's line is one more than the newlines before its offset.
pub open spec fn line_in_step(src: Seq<u8>, st: ScanState) -> bool {
    st.line == 1 + count_newlines(src, 0, st.offset)
}

pub proof fn lemma_count_split(src: Seq<u8>, a: int, m: int, b: int)
    requires
        a <= m <= b,
    ensures
        count_newlines(src, a, b) == count_newlines(src, a, m) + count_newlines(src, m, b),
    decreases b - m,
{
    if m < b {
        lemma_count_split(src, a, m, b - 1);
    }
}

pub proof fn lemma_count_none(src: Seq<u8>, a: int, b: int)
    requires
        forall|k: int| a <= k < b ==> #[trigger] src[k] as char != '\n',
    ensures
        count_newlines(src, a, b) == 0,
    decreases b - a,
{
    if a < b {
        lemma_count_none(src, a, b - 1);
    }
}

/// Each step counts exactly the newlines it reads.
pub proof fn lemma_step_keeps_line_count(src: Seq<u8>, st: ScanState)
    requires
        0 <= st.offset < src.len(),
        line_in_step(src, st),
    ensures
        line_in_step(src, lex_step(src, st)),
{
    let c = src[st.offset] as char;
    let o = st.offset;
    let next = lex_step(src, st);
    lemma_step_advances(src, st);
    lemma_count_split(src, 0, o, next.offset);
    if is_single_char(c) || is_comparison_char(c) {
        lemma_count_none(src, o, next.offset);
    } else if is_word_start(c) {
        lemma_run_end_all(src, o + 1, |b: u8| is_word_byte(b as char));
        lemma_count_none(src, o, next.offset);
    } else if is_digit(c) {
        lemma_run_end_all(src, o + 1, |b: u8| is_digit(b as char));
        lemma_run_end_bounds(src, o + 1, |b: u8| is_digit(b as char));
        let int_end = digits_end(src, o + 1);
        if int_end + 1 < src.len() {
            lemma_run_end_all(src, int_end + 1, |b: u8| is_digit(b as char));
        }
        assert forall|k: int| o <= k < next.offset implies #[trigger] src[k] as char != '\n' by {
            if o < k < int_end {
                assert(is_digit(src[k] as char));
            } else if k > int_end {
                assert(is_digit(src[k] as char));
            }
        }
        lemma_count_none(src, o, next.offset);
    } else if c == '"' {
        let close = quote_end(src, o + 1);
        lemma_run_end_bounds(src, o + 1, |b: u8| b as char != '"');
        lemma_run_end_stops(src, o + 1, |b: u8| b as char != '"');
        assert(count_newlines(src, o, o + 1) == count_newlines(src, o, o));
        lemma_count_split(src, o, o + 1, close);
        if close < src.len() {
            assert(count_newlines(src, close, close + 1) == count_newlines(src, close, close));
            lemma_count_split(src, o, close, close + 1);
        }
    } else if c == '/' {
        if o + 1 < src.len() && src[o + 1] as char == '/' {
            lemma_run_end_all(src, o + 2, |b: u8| b as char != '\n');
        }
        lemma_count_none(src, o, next.offset);
    } else if is_blank(c) {
        assert(count_newlines(src, o, o + 1) == count_newlines(src, o, o) + if c == '\n' {
            1int
        } else {
            0int
        });
    } else {
        lemma_count_none(src, o, next.offset);
    }
}

/// The scanner run from a state whose line is in step ends in such a state.
pub proof fn lemma_lex_from_keeps_line_count(src: Seq<u8>, st: ScanState)
    requires
        0 <= st.offset <= src.len(),
        line_in_step(src, st),
    ensures
        line_in_step(src, lex_from(src, st)),
        lex_from(src, st).offset == src.len(),
    decreases src.len() - st.offset,
{
    if st.offset < src.len() {
        lemma_step_advances(src, st);
        lemma_step_keeps_line_count(src, st);
        lemma_lex_from_keeps_line_count(src, lex_step(src, st));
    }
}

/// Law: the line counter always stands at one more than the newlines read so
/// far. From the start of a scan it stays so at every step, and at the end it
/// is one more than the newlines of the whole source.
pub proof fn lemma_scan_line_count(src: Seq<u8>)
    ensures
        line_in_step(src, initial_state()),
        forall|st: ScanState|
            0 <= st.offset < src.len() && line_in_step(src, st) ==> #[trigger] line_in_step(
                src,
                lex_step(src, st),
            ),
        lex_from(src, initial_state()).offset == src.len(),
        lex_from(src, initial_state()).line == 1 + count_newlines(src, 0, src.len() as int),
{
    assert forall|st: ScanState|
        0 <= st.offset < src.len() && line_in_step(src, st) implies #[trigger] line_in_step(
        src,
        lex_step(src, st),
    ) by {
        lemma_step_keeps_line_count(src, st);
    }
    lemma_lex_from_keeps_line_count(src, initial_state());
}

// ---------------------------------------------------------------------------
// Scanning joined texts.

/// The errors with every line moved down by `by`.
pub open spec fn shift_lines(errors: Seq<ScanErrorView>, by: int) -> Seq<ScanErrorView> {
    errors.map_values(|e: ScanErrorView| ScanErrorView { line: e.line + by, message: e.message })
}

/// `y` holds `x` from offset `k`, and after it either ends or has a blank,
/// in which case `x` holds no `"` and no `/` (so no token of `x` reads on).
pub open spec fn embeds(x: Seq<u8>, y: Seq<u8>, k: int) -> bool {
    &&& 0 <= k
    &&& x.len() + k <= y.len()
    &&& forall|j: int| 0 <= j < x.len() ==> y[j + k] == #[trigger] x[j]
    &&& x.len() + k == y.len() || ((y[x.len() + k] as char == ' ' || y[x.len() + k] as char
        == '\n') && forall|j: int|
        0 <= j < x.len() ==> #[trigger] x[j] as char != '"' && x[j] as char != '/')
}

/// The state `s` of a scan of `x`, as it stands in a scan of `y` that reached
/// `x` at offset `k` on line `d + 1` with `tokens` and `errors` behind it.
pub open spec fn placed(
    s: ScanState,
    k: int,
    d: int,
    tokens: Seq<TokenView>,
    errors: Seq<ScanErrorView>,
) -> ScanState {
    ScanState {
        offset: s.offset + k,
        line: s.line + d,
        tokens: tokens + s.tokens,
        errors: errors + shift_lines(s.errors, d),
    }
}

proof fn lemma_run_end_embed(x: Seq<u8>, y: Seq<u8>, k: int, i: int, p: spec_fn(u8) -> bool)
    requires
        embeds(x, y, k),
        0 <= i <= x.len(),
        x.len() + k == y.len() || !p(y[x.len() + k]),
    ensures
        run_end(y, i + k, p) == run_end(x, i, p) + k,
    decreases x.len() - i,
{
    if i < x.len() {
        assert(y[i + k] == x[i]);
        if p(x[i]) {
            lemma_run_end_embed(x, y, k, i + 1, p);
        }
    }
}

proof fn lemma_trim_zeros_embed(x: Seq<u8>, y: Seq<u8>, k: int, lo: int, hi: int)
    requires
        embeds(x, y, k),
        0 <= lo <= hi <= x.len(),
    ensures
        trim_zeros(y, lo + k, hi + k) == trim_zeros(x, lo, hi) + k,
    decreases hi - lo,
{
    if hi - lo >= 2 {
        assert(y[hi - 1 + k] == x[hi - 1]);
        assert(y[hi - 2 + k] == x[hi - 2]);
        lemma_trim_zeros_embed(x, y, k, lo, hi - 1);
    }
}

proof fn lemma_count_embed(x: Seq<u8>, y: Seq<u8>, k: int, a: int, b: int)
    requires
        embeds(x, y, k),
        0 <= a <= b <= x.len(),
    ensures
        count_newlines(y, a + k, b + k) == count_newlines(x, a, b),
    decreases b - a,
{
    if a < b {
        assert(y[b - 1 + k] == x[b - 1]);
        lemma_count_embed(x, y, k, a, b - 1);
    }
}

proof fn lemma_subrange_embed(x: Seq<u8>, y: Seq<u8>, k: int, a: int, b: int)
    requires
        embeds(x, y, k),
        0 <= a <= b <= x.len(),
    ensures
        y.subrange(a + k, b + k) == x.subrange(a, b),
{
    assert forall|j: int| 0 <= j < b - a implies y.subrange(a + k, b + k)[j] == x.subrange(
        a,
        b,
    )[j] by {
        assert(y[a + j + k] == x[a + j]);
    }
    assert(y.subrange(a + k, b + k) =~= x.subrange(a, b));
}

proof fn lemma_placed_moves(
    s: ScanState,
    k: int,
    d: int,
    tokens: Seq<TokenView>,
    errors: Seq<ScanErrorView>,
)
    ensures
        forall|t: TokenView|
            placed(#[trigger] s.emit(t), k, d, tokens, errors) == placed(
                s,
                k,
                d,
                tokens,
                errors,
            ).emit(t),
        forall|m: Seq<char>|
            placed(#[trigger] s.report(m), k, d, tokens, errors) == placed(
                s,
                k,
                d,
                tokens,
                errors,
            ).report(m),
        forall|o: int|
            placed(#[trigger] s.at(o), k, d, tokens, errors) == placed(s, k, d, tokens, errors).at(
                o + k,
            ),
{
    assert forall|t: TokenView|
        placed(#[trigger] s.emit(t), k, d, tokens, errors) == placed(
            s,
            k,
            d,
            tokens,
            errors,
        ).emit(t) by {
        assert(tokens + s.tokens.push(t) =~= (tokens + s.tokens).push(t));
    }
    assert forall|m: Seq<char>|
        placed(#[trigger] s.report(m), k, d, tokens, errors) == placed(
            s,
            k,
            d,
            tokens,
            errors,
        ).report(m) by {
        let e = ScanErrorView { line: s.line, message: m };
        assert(errors + shift_lines(s.errors.push(e), d) =~= (errors + shift_lines(
            s.errors,
            d,
        )).push(ScanErrorView { line: s.line + d, message: m }));
    }
}

/// A step of the scan of `x` is the same step of the scan of `y`, moved.
proof fn lemma_step_embed(
    x: Seq<u8>,
    y: Seq<u8>,
    k: int,
    s: ScanState,
    d: int,
    tokens: Seq<TokenView>,
    errors: Seq<ScanErrorView>,
)
    requires
        embeds(x, y, k),
        0 <= s.offset < x.len(),
    ensures
        lex_step(y, placed(s, k, d, tokens, errors)) == placed(
            lex_step(x, s),
            k,
            d,
            tokens,
            errors,
        ),
{
    let o = s.offset;
    let c = x[o] as char;
    assert(y[o + k] == x[o]);
    let sx = s.at(o + 1);
    lemma_placed_moves(s, k, d, tokens, errors);
    lemma_placed_moves(sx, k, d, tokens, errors);
    let at_end = x.len() + k == y.len();
    if o + 1 < x.len() {
        assert(y[o + 1 + k] == x[o + 1]);
    }
    if is_single_char(c) {
    } else if is_comparison_char(c) {
        let with_equal = o + 1 < x.len() && x[o + 1] as char == '=';
        if with_equal {
            let e = sx.emit(token(comparison_kind(c, true), seq![c, '='], None));
            lemma_placed_moves(e, k, d, tokens, errors);
        } else {
        }
    } else if is_word_start(c) {
        lemma_run_end_embed(x, y, k, o + 1, |b: u8| is_word_byte(b as char));
        let end = word_end(x, o + 1);
        lemma_run_end_bounds(x, o + 1, |b: u8| is_word_byte(b as char));
        lemma_subrange_embed(x, y, k, o, end);
        let e = sx.emit(token(keyword_kind(ascii_text(x, o, end)), ascii_text(x, o, end), None));
        lemma_placed_moves(e, k, d, tokens, errors);
    } else if is_digit(c) {
        lemma_run_end_embed(x, y, k, o + 1, |b: u8| is_digit(b as char));
        lemma_run_end_bounds(x, o + 1, |b: u8| is_digit(b as char));
        let int_end = digits_end(x, o + 1);
        if int_end + 1 < x.len() {
            assert(y[int_end + k] == x[int_end]);
            assert(y[int_end + 1 + k] == x[int_end + 1]);
        } else if int_end + 1 == x.len() {
            assert(y[int_end + k] == x[int_end]);
        }
        if int_end + 1 < x.len() && x[int_end] as char == '.' && is_digit(x[int_end + 1] as char) {
            lemma_run_end_embed(x, y, k, int_end + 1, |b: u8| is_digit(b as char));
            lemma_run_end_bounds(x, int_end + 1, |b: u8| is_digit(b as char));
            let frac_end = digits_end(x, int_end + 1);
            lemma_trim_zeros_embed(x, y, k, int_end + 1, frac_end);
            lemma_trim_zeros_bounds(x, int_end + 1, frac_end);
            let keep = trim_zeros(x, int_end + 1, frac_end);
            lemma_subrange_embed(x, y, k, o, frac_end);
            lemma_subrange_embed(x, y, k, o, keep);
            let e = sx.emit(
                token(
                    TokenType::Number,
                    ascii_text(x, o, frac_end),
                    Some(ascii_text(x, o, keep)),
                ),
            );
            lemma_placed_moves(e, k, d, tokens, errors);
        } else {
            lemma_subrange_embed(x, y, k, o, int_end);
            let digits = ascii_text(x, o, int_end);
            let e = sx.emit(token(TokenType::Number, digits, Some(digits + seq!['.', '0'])));
            lemma_placed_moves(e, k, d, tokens, errors);
        }
    } else if c == '"' {
        assert(at_end);
        lemma_run_end_embed(x, y, k, o + 1, |b: u8| b as char != '"');
        lemma_run_end_bounds(x, o + 1, |b: u8| b as char != '"');
        let close = quote_end(x, o + 1);
        lemma_count_embed(x, y, k, o + 1, close);
        let line = s.line + count_newlines(x, o + 1, close);
        let moved = ScanState { line, ..sx };
        lemma_placed_moves(moved, k, d, tokens, errors);
        assert(placed(moved, k, d, tokens, errors) == ScanState {
            line: line + d,
            ..placed(sx, k, d, tokens, errors)
        });
        if close >= x.len() {
            let r = moved.report("Unterminated string."@);
            lemma_placed_moves(r, k, d, tokens, errors);
        } else {
            lemma_subrange_embed(x, y, k, o + 1, close);
            let contents = utf8_text(x, o + 1, close);
            let e = moved.emit(
                token(TokenType::String, seq!['"'] + contents + seq!['"'], Some(contents)),
            );
            lemma_placed_moves(e, k, d, tokens, errors);
        }
    } else if c == '/' {
        assert(at_end);
        if o + 1 < x.len() && x[o + 1] as char == '/' {
            lemma_run_end_embed(x, y, k, o + 2, |b: u8| b as char != '\n');
        }
    } else if is_blank(c) {
        assert(placed(ScanState { line: sx.line + 1, ..sx }, k, d, tokens, errors) == ScanState {
            line: sx.line + 1 + d,
            ..placed(sx, k, d, tokens, errors)
        });
    } else {
    }
}

/// Scanning `x` inside `y` is scanning `x` alone, moved.
proof fn lemma_lex_from_embed(
    x: Seq<u8>,
    y: Seq<u8>,
    k: int,
    s: ScanState,
    d: int,
    tokens: Seq<TokenView>,
    errors: Seq<ScanErrorView>,
)
    requires
        embeds(x, y, k),
        0 <= s.offset <= x.len(),
    ensures
        lex_from(y, placed(s, k, d, tokens, errors)) == lex_from(
            y,
            placed(lex_from(x, s), k, d, tokens, errors),
        ),
    decreases x.len() - s.offset,
{
    if s.offset < x.len() {
        lemma_step_advances(x, s);
        lemma_step_embed(x, y, k, s, d, tokens, errors);
        lemma_lex_from_embed(x, y, k, lex_step(x, s), d, tokens, errors);
    }
}

/// Law: scanning two texts joined by a space or a newline, where the first
/// holds no `"` and no `/`, gives the tokens of the two scans one after the
/// other (with one closing end-of-input token) and the errors of the two
/// scans, those of the second text moved down by the lines before it.
pub proof fn lemma_scan_join(a: Seq<u8>, sep: u8, b: Seq<u8>)
    requires
        sep as char == ' ' || sep as char == '\n',
        forall|j: int| 0 <= j < a.len() ==> #[trigger] a[j] as char != '"' && a[j] as char != '/',
    ensures
        scan(a + seq![sep] + b).0 == scan(a).0.drop_last() + scan(b).0,
        scan(a + seq![sep] + b).1 == scan(a).1 + shift_lines(
            scan(b).1,
            count_newlines(a, 0, a.len() as int) + if sep as char == '\n' {
                1int
            } else {
                0int
            },
        ),
{
    let y = a + seq![sep] + b;
    let n = a.len() as int;
    let empty_tokens = Seq::<TokenView>::empty();
    let empty_errors = Seq::<ScanErrorView>::empty();
    let init = initial_state();
    // the first text
    assert(embeds(a, y, 0)) by {
        assert forall|j: int| 0 <= j < a.len() implies y[j + 0] == #[trigger] a[j] by {
            assert(y[j] == a[j]);
        }
        assert(y[n] == sep);
    }
    assert(placed(init, 0, 0, empty_tokens, empty_errors) =~= init) by {
        assert(shift_lines(empty_errors, 0) =~= empty_errors);
    }
    lemma_lex_from_embed(a, y, 0, init, 0, empty_tokens, empty_errors);
    lemma_scan_line_count(a);
    let after_a = lex_from(a, init);
    assert(placed(after_a, 0, 0, empty_tokens, empty_errors) =~= after_a) by {
        assert(shift_lines(after_a.errors, 0) =~= after_a.errors);
        assert(empty_tokens + after_a.tokens =~= after_a.tokens);
        assert(empty_errors + after_a.errors =~= after_a.errors);
    }
    // the separator
    assert(y[n] == sep);
    let after_sep = lex_step(y, after_a);
    let shift = after_sep.line - 1;
    assert(shift == count_newlines(a, 0, n) + if sep as char == '\n' {
        1int
    } else {
        0int
    });
    assert(lex_from(y, after_a) == lex_from(y, after_sep));
    // the second text
    let k = n + 1;
    assert(embeds(b, y, k)) by {
        assert forall|j: int| 0 <= j < b.len() implies y[j + k] == #[trigger] b[j] by {
            assert(y[j + k] == b[j]);
        }
    }
    assert(placed(init, k, shift, after_a.tokens, after_a.errors) =~= after_sep) by {
        assert(shift_lines(empty_errors, shift) =~= empty_errors);
        assert(after_a.tokens + empty_tokens =~= after_a.tokens);
        assert(after_a.errors + empty_errors =~= after_a.errors);
    }
    lemma_lex_from_embed(b, y, k, init, shift, after_a.tokens, after_a.errors);
    lemma_scan_line_count(b);
    let after_b = lex_from(b, init);
    let last = placed(after_b, k, shift, after_a.tokens, after_a.errors);
    assert(lex_from(y, last) == last);
    assert(scan(y).0 =~= scan(a).0.drop_last() + scan(b).0) by {
        assert(scan(a).0.drop_last() =~= after_a.tokens);
    }
}

// ---------------------------------------------------------------------------
// Scans of small texts.

/// The bytes of an ASCII spelling.
pub open spec fn ascii_bytes(sp: Seq<char>) -> Seq<u8> {
    sp.map_values(|ch: char| ch as u8)
}

proof fn lemma_lex_from_one_step(src: Seq<u8>, st: ScanState)
    requires
        0 <= st.offset < src.len(),
        lex_step(src, st).offset >= src.len(),
    ensures
        lex_from(src, st) == lex_step(src, st),
{
    assert(lex_from(src, lex_step(src, st)) == lex_step(src, st));
}

proof fn lemma_run_end_at(src: Seq<u8>, i: int, j: int, p: spec_fn(u8) -> bool)
    requires
        0 <= i <= j < src.len(),
        forall|k: int| i <= k < j ==> p(#[trigger] src[k]),
        !p(src[j]),
    ensures
        run_end(src, i, p) == j,
    decreases j - i,
{
    if i < j {
        lemma_run_end_at(src, i + 1, j, p);
    }
}

proof fn lemma_run_end_to_end(src: Seq<u8>, i: int, p: spec_fn(u8) -> bool)
    requires
        0 <= i <= src.len(),
        forall|k: int| i <= k < src.len() ==> p(#[trigger] src[k]),
    ensures
        run_end(src, i, p) == src.len(),
    decreases src.len() - i,
{
    if i < src.len() {
        lemma_run_end_to_end(src, i + 1, p);
    }
}

/// Law: the spelling of every operator and punctuation kind scans to exactly
/// one token of that kind, with no errors; in particular the two-character
/// operators are read as one token, not two.
pub proof fn lemma_scan_operator(k: TokenType)
    requires
        fixed_lexeme(k) is Some,
    ensures
        scan(ascii_bytes(fixed_lexeme(k)->0)).0 == seq![
            token(k, fixed_lexeme(k)->0, None),
            eof_token(),
        ],
        scan(ascii_bytes(fixed_lexeme(k)->0)).1 == Seq::<ScanErrorView>::empty(),
{
    let sp = fixed_lexeme(k)->0;
    let src = ascii_bytes(sp);
    let init = initial_state();
    assert(src[0] as char == sp[0]);
    if sp.len() == 2 {
        assert(src[1] as char == sp[1]);
    }
    let after = lex_step(src, init);
    assert(after.offset == src.len());
    assert(after.tokens =~= seq![token(k, sp, None)]);
    assert(after.errors =~= Seq::<ScanErrorView>::empty());
    lemma_lex_from_one_step(src, init);
    assert(scan(src).0 =~= seq![token(k, sp, None), eof_token()]);
}

/// Law: a byte that starts no token (not an operator, punctuation, letter,
/// `_`, digit, quote, slash or blank) scans to no token and one error on line
/// one, "Unexpected character: " followed by the byte read as a character.
pub proof fn lemma_scan_unexpected_byte(c: u8)
    requires
        !is_single_char(c as char),
        !is_comparison_char(c as char),
        !is_word_start(c as char),
        !is_digit(c as char),
        c as char != '"',
        c as char != '/',
        !is_blank(c as char),
    ensures
        scan(seq![c]).0 == seq![eof_token()],
        scan(seq![c]).1 == seq![
            ScanErrorView { line: 1, message: "Unexpected character: "@ + seq![c as char] },
        ],
{
    let src = seq![c];
    lemma_lex_from_one_step(src, initial_state());
    assert(scan(src).0 =~= seq![eof_token()]);
    assert(scan(src).1 =~= seq![
        ScanErrorView { line: 1, message: "Unexpected character: "@ + seq![c as char] },
    ]);
}

/// Law: a `"` with no closing `"` after it scans to no token and one error,
/// "Unterminated string.", on the last line of the source.
pub proof fn lemma_scan_unterminated_string(rest: Seq<u8>)
    requires
        forall|j: int| 0 <= j < rest.len() ==> #[trigger] rest[j] as char != '"',
    ensures
        scan(seq!['"' as u8] + rest).0 == seq![eof_token()],
        scan(seq!['"' as u8] + rest).1 == seq![
            ScanErrorView {
                line: 1 + count_newlines(rest, 0, rest.len() as int),
                message: "Unterminated string."@,
            },
        ],
{
    let src = seq!['"' as u8] + rest;
    assert(embeds(rest, src, 1)) by {
        assert forall|j: int| 0 <= j < rest.len() implies src[j + 1] == #[trigger] rest[j] by {
            assert(src[j + 1] == rest[j]);
        }
    }
    assert forall|k: int| 1 <= k < src.len() implies (|b: u8| b as char != '"')(
        #[trigger] src[k],
    ) by {
        assert(src[k] == rest[k - 1]);
    }
    lemma_run_end_to_end(src, 1, |b: u8| b as char != '"');
    lemma_count_embed(rest, src, 1, 0, rest.len() as int);
    lemma_lex_from_one_step(src, initial_state());
    assert(scan(src).0 =~= seq![eof_token()]);
    assert(scan(src).1 =~= seq![
        ScanErrorView {
            line: 1 + count_newlines(rest, 0, rest.len() as int),
            message: "Unterminated string."@,
        },
    ]);
}

/// Law: a string scans to one token whose literal is the UTF-8 text between
/// the quotes and whose lexeme is that text in quotes.
pub proof fn lemma_scan_string(body: Seq<u8>)
    requires
        valid_utf8(body),
        forall|j: int| 0 <= j < body.len() ==> #[trigger] body[j] as char != '"',
    ensures
        scan(seq!['"' as u8] + body + seq!['"' as u8]).0 == seq![
            token(TokenType::String, seq!['"'] + decode_utf8(body) + seq!['"'], Some(decode_utf8(body))),
            eof_token(),
        ],
        scan(seq!['"' as u8] + body + seq!['"' as u8]).1 == Seq::<ScanErrorView>::empty(),
{
    let src = seq!['"' as u8] + body + seq!['"' as u8];
    let n = body.len() as int;
    assert(src[n + 1] as char == '"');
    assert forall|k: int| 1 <= k < n + 1 implies (|b: u8| b as char != '"')(#[trigger] src[k]) by {
        assert(src[k] == body[k - 1]);
    }
    lemma_run_end_at(src, 1, n + 1, |b: u8| b as char != '"');
    assert(src.subrange(1, n + 1) =~= body);
    lemma_lex_from_one_step(src, initial_state());
    let contents = decode_utf8(body);
    assert(scan(src).0 =~= seq![
        token(TokenType::String, seq!['"'] + contents + seq!['"'], Some(contents)),
        eof_token(),
    ]);
    assert(scan(src).1 =~= Seq::<ScanErrorView>::empty());
}

/// Law: a comment, `//` and the rest of its line, scans to nothing.
pub proof fn lemma_scan_comment(rest: Seq<u8>)
    requires
        forall|j: int| 0 <= j < rest.len() ==> #[trigger] rest[j] as char != '\n',
    ensures
        scan(seq!['/' as u8, '/' as u8] + rest).0 == seq![eof_token()],
        scan(seq!['/' as u8, '/' as u8] + rest).1 == Seq::<ScanErrorView>::empty(),
{
    let src = seq!['/' as u8, '/' as u8] + rest;
    assert(src[0] as char == '/');
    assert(src[1] as char == '/');
    assert forall|k: int| 2 <= k < src.len() implies (|b: u8| b as char != '\n')(
        #[trigger] src[k],
    ) by {
        assert(src[k] == rest[k - 2]);
    }
    lemma_run_end_to_end(src, 2, |b: u8| b as char != '\n');
    lemma_lex_from_one_step(src, initial_state());
    assert(scan(src).0 =~= seq![eof_token()]);
    assert(scan(src).1 =~= Seq::<ScanErrorView>::empty());
}

proof fn lemma_blanks_add_nothing(src: Seq<u8>, st: ScanState)
    requires
        0 <= st.offset <= src.len(),
        forall|j: int|
            st.offset <= j < src.len() ==> #[trigger] src[j] as char == ' ' || src[j] as char
                == '\t' || src[j] as char == '\n',
    ensures
        lex_from(src, st).tokens == st.tokens,
        lex_from(src, st).errors == st.errors,
    decreases src.len() - st.offset,
{
    if st.offset < src.len() {
        lemma_blanks_add_nothing(src, lex_step(src, st));
    }
}

/// Law: spaces, tabs and newlines scan to no token and no error.
pub proof fn lemma_scan_blanks(src: Seq<u8>)
    requires
        forall|j: int|
            0 <= j < src.len() ==> #[trigger] src[j] as char == ' ' || src[j] as char == '\t'
                || src[j] as char == '\n',
    ensures
        scan(src).0 == seq![eof_token()],
        scan(src).1 == Seq::<ScanErrorView>::empty(),
{
    lemma_blanks_add_nothing(src, initial_state());
    assert(scan(src).0 =~= seq![eof_token()]);
}

} // verus!
