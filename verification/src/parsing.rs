//! The expression parser: builds a syntax tree from a token sequence by
//! splitting it at its rightmost top-level operator of the lowest precedence.

use vstd::prelude::*;
use vstd::slice::slice_subrange;

use crate::lexical::{lemma_scan_tokens_well_formed, scan, well_formed_token};
use crate::scanning::{token_views, Token, TokenType, TokenView};
use crate::text::push_char;

verus! {

/// A node of the syntax tree: an operator with its operands, a `group` with
/// the parenthesised expression, or a leaf holding a literal or a name.
#[derive(Debug)]
pub struct AstNode {
    pub val: String,
    pub children: Vec<AstNode>,
}

/// A syntax tree as a mathematical value.
pub struct AstTree {
    pub val: Seq<char>,
    pub children: Seq<AstTree>,
}

impl AstNode {
    pub open spec fn tree(&self) -> AstTree
        decreases self,
    {
        AstTree { val: self.val@, children: Self::trees(self.children@) }
    }

    pub open spec fn trees(nodes: Seq<AstNode>) -> Seq<AstTree>
        decreases nodes,
    {
        if nodes.len() == 0 {
            seq![]
        } else {
            Self::trees(nodes.drop_last()).push(nodes.last().tree())
        }
    }
}

/// The bracketed text of a tree: a leaf's value, or `(` value, then each
/// child's text after a space, then `)`.
pub open spec fn tree_spec_text(t: AstTree) -> Seq<char>
    decreases t,
{
    if t.children.len() == 0 {
        t.val
    } else {
        seq!['('] + t.val + children_text(t.children) + seq![')']
    }
}

/// The texts of `trees`, each after a space.
pub open spec fn children_text(trees: Seq<AstTree>) -> Seq<char>
    decreases trees,
{
    if trees.len() == 0 {
        seq![]
    } else {
        children_text(trees.drop_last()) + seq![' '] + tree_spec_text(trees.last())
    }
}

proof fn lemma_trees_prefix(nodes: Seq<AstNode>, i: int)
    requires
        0 <= i < nodes.len(),
    ensures
        AstNode::trees(nodes.subrange(0, i + 1)) == AstNode::trees(nodes.subrange(0, i)).push(
            nodes[i].tree(),
        ),
{
    assert(nodes.subrange(0, i + 1).drop_last() =~= nodes.subrange(0, i));
}

/// The bracketed text of the tree under `node`, as the `parse` command prints it.
pub fn tree_text(node: &AstNode) -> (s: String)
    ensures
        s@ == tree_spec_text(node.tree()),
    decreases node,
{
    let n = node.children.len();
    if n == 0 {
        return node.val.clone();
    }
    let mut s = String::new();
    push_char(&mut s, '(');
    s.append(node.val.as_str());
    let mut i: usize = 0;
    assert(node.children@.subrange(0, 0) =~= Seq::<AstNode>::empty());
    assert(s@ =~= seq!['('] + node.val@ + children_text(
        AstNode::trees(node.children@.subrange(0, 0)),
    ));
    while i < n
        invariant
            n == node.children@.len(),
            0 <= i <= n,
            s@ == seq!['('] + node.val@ + children_text(
                AstNode::trees(node.children@.subrange(0, i as int)),
            ),
        decreases n - i,
    {
        let ghost before = AstNode::trees(node.children@.subrange(0, i as int));
        let child = tree_text(&node.children[i]);
        push_char(&mut s, ' ');
        s.append(child.as_str());
        proof {
            lemma_trees_prefix(node.children@, i as int);
            let after = before.push(node.children@[i as int].tree());
            assert(after.drop_last() =~= before);
            assert(s@ =~= seq!['('] + node.val@ + children_text(after));
        }
        i += 1;
    }
    push_char(&mut s, ')');
    assert(node.children@.subrange(0, n as int) =~= node.children@);
    assert(s@ =~= tree_spec_text(node.tree()));
    s
}

/// Why a token sequence is not an expression.
#[derive(Debug)]
pub enum ParseError {
    /// A part of the expression that must not be empty is.
    NoTokens,
    /// These tokens should form a literal, a name or a parenthesised
    /// expression, and do not.
    UnexpectedPrimary(Vec<Token>),
}

pub enum ParseErrorView {
    NoTokens,
    UnexpectedPrimary(Seq<TokenView>),
}

impl View for ParseError {
    type V = ParseErrorView;

    open spec fn view(&self) -> ParseErrorView {
        match self {
            ParseError::NoTokens => ParseErrorView::NoTokens,
            ParseError::UnexpectedPrimary(ts) => ParseErrorView::UnexpectedPrimary(
                token_views(ts@),
            ),
        }
    }
}

pub open spec fn outcome(res: Result<AstNode, ParseError>) -> Result<AstTree, ParseErrorView> {
    match res {
        Ok(node) => Ok(node.tree()),
        Err(e) => Err(e@),
    }
}

pub open spec fn leaf(val: Seq<char>) -> AstTree {
    AstTree { val, children: seq![] }
}

pub open spec fn unary(op: Seq<char>, operand: AstTree) -> AstTree {
    AstTree { val: op, children: seq![operand] }
}

pub open spec fn binary(op: Seq<char>, left: AstTree, right: AstTree) -> AstTree {
    AstTree { val: op, children: seq![left, right] }
}

pub open spec fn group(inner: AstTree) -> AstTree {
    AstTree { val: "group"@, children: seq![inner] }
}

/// Kinds of token that can end an operand, so that a `+` or `-` after them is
/// a binary operator rather than a sign.
pub open spec fn is_expression_kind(kind: TokenType) -> bool {
    kind == TokenType::Number || kind == TokenType::String || kind == TokenType::True || kind
        == TokenType::False || kind == TokenType::Nil || kind == TokenType::RightParen || kind
        == TokenType::Identifier
}

pub open spec fn paren_delta(kind: TokenType) -> int {
    if kind == TokenType::RightParen {
        1
    } else if kind == TokenType::LeftParen {
        -1
    } else {
        0
    }
}

/// Closing minus opening parentheses in `ts[i..]`; a token at `i` stands
/// outside all parentheses when this is zero.
pub open spec fn paren_balance(ts: Seq<TokenView>, i: int) -> int
    decreases ts.len() - i,
{
    if 0 <= i < ts.len() {
        paren_delta(ts[i].kind) + paren_balance(ts, i + 1)
    } else {
        0
    }
}

/// `ts[m]` is a top-level binary `+` or `-`.
pub open spec fn splits_term(ts: Seq<TokenView>, m: int) -> bool {
    &&& 0 < m < ts.len()
    &&& ts[m].kind == TokenType::Plus || ts[m].kind == TokenType::Minus
    &&& paren_balance(ts, m) == 0
    &&& is_expression_kind(ts[m - 1].kind)
}

/// `ts[m]` is a top-level `*` or `/`.
pub open spec fn splits_factor(ts: Seq<TokenView>, m: int) -> bool {
    &&& 0 <= m < ts.len()
    &&& ts[m].kind == TokenType::Star || ts[m].kind == TokenType::Slash
    &&& paren_balance(ts, m) == 0
}

/// The rightmost index below `hi` where `ts` splits as a term.
pub open spec fn last_term_split(ts: Seq<TokenView>, hi: int) -> Option<int>
    decreases hi,
{
    if hi <= 0 {
        None
    } else if splits_term(ts, hi - 1) {
        Some(hi - 1)
    } else {
        last_term_split(ts, hi - 1)
    }
}

/// The rightmost index below `hi` where `ts` splits as a factor.
pub open spec fn last_factor_split(ts: Seq<TokenView>, hi: int) -> Option<int>
    decreases hi,
{
    if hi <= 0 {
        None
    } else if splits_factor(ts, hi - 1) {
        Some(hi - 1)
    } else {
        last_factor_split(ts, hi - 1)
    }
}

pub proof fn lemma_last_term_split(ts: Seq<TokenView>, hi: int)
    ensures
        last_term_split(ts, hi) matches Some(m) ==> m < hi && splits_term(ts, m),
    decreases hi,
{
    if hi > 0 && !splits_term(ts, hi - 1) {
        lemma_last_term_split(ts, hi - 1);
    }
}

pub proof fn lemma_last_factor_split(ts: Seq<TokenView>, hi: int)
    ensures
        last_factor_split(ts, hi) matches Some(m) ==> m < hi && splits_factor(ts, m),
    decreases hi,
{
    if hi > 0 && !splits_factor(ts, hi - 1) {
        lemma_last_factor_split(ts, hi - 1);
    }
}

/// An expression; a trailing end-of-input token is ignored.
pub open spec fn expression_tree(ts: Seq<TokenView>) -> Result<AstTree, ParseErrorView>
    decreases ts.len(), 4int,
{
    if ts.len() == 0 {
        Err(ParseErrorView::NoTokens)
    } else if ts.last().kind == TokenType::Eof {
        term_tree(ts.drop_last())
    } else {
        term_tree(ts)
    }
}

/// A sum or difference, split at its rightmost top-level binary `+` or `-`;
/// with none, a factor.
pub open spec fn term_tree(ts: Seq<TokenView>) -> Result<AstTree, ParseErrorView>
    decreases ts.len(), 3int,
{
    if ts.len() == 0 {
        Err(ParseErrorView::NoTokens)
    } else {
        match last_term_split(ts, ts.len() as int) {
            Some(m) => {
                proof {
                    lemma_last_term_split(ts, ts.len() as int);
                }
                match term_tree(ts.subrange(0, m)) {
                    Err(e) => Err(e),
                    Ok(left) => match factor_tree(ts.subrange(m + 1, ts.len() as int)) {
                        Err(e) => Err(e),
                        Ok(right) => Ok(binary(ts[m].lexeme, left, right)),
                    },
                }
            },
            None => factor_tree(ts),
        }
    }
}

/// A product or quotient, split at its rightmost top-level `*` or `/`; with
/// none, a unary expression.
pub open spec fn factor_tree(ts: Seq<TokenView>) -> Result<AstTree, ParseErrorView>
    decreases ts.len(), 2int,
{
    if ts.len() == 0 {
        Err(ParseErrorView::NoTokens)
    } else {
        match last_factor_split(ts, ts.len() as int) {
            Some(m) => {
                proof {
                    lemma_last_factor_split(ts, ts.len() as int);
                }
                match factor_tree(ts.subrange(0, m)) {
                    Err(e) => Err(e),
                    Ok(left) => match unary_tree(ts.subrange(m + 1, ts.len() as int)) {
                        Err(e) => Err(e),
                        Ok(right) => Ok(binary(ts[m].lexeme, left, right)),
                    },
                }
            },
            None => unary_tree(ts),
        }
    }
}

/// `!` or `-` applied to a unary expression, or a primary expression.
pub open spec fn unary_tree(ts: Seq<TokenView>) -> Result<AstTree, ParseErrorView>
    decreases ts.len(), 1int,
{
    if ts.len() == 0 {
        Err(ParseErrorView::NoTokens)
    } else if ts[0].kind == TokenType::Bang || ts[0].kind == TokenType::Minus {
        match unary_tree(ts.subrange(1, ts.len() as int)) {
            Err(e) => Err(e),
            Ok(operand) => Ok(unary(ts[0].lexeme, operand)),
        }
    } else {
        primary_tree(ts)
    }
}

/// A single literal or name, or a parenthesised expression.
pub open spec fn primary_tree(ts: Seq<TokenView>) -> Result<AstTree, ParseErrorView>
    decreases ts.len(), 0int,
{
    if ts.len() == 0 {
        Err(ParseErrorView::NoTokens)
    } else if ts.len() == 1 && (ts[0].kind == TokenType::Number || ts[0].kind
        == TokenType::String) {
        Ok(
            leaf(
                match ts[0].literal {
                    Some(l) => l,
                    None => seq![],
                },
            ),
        )
    } else if ts.len() == 1 && (ts[0].kind == TokenType::True || ts[0].kind == TokenType::False
        || ts[0].kind == TokenType::Nil || ts[0].kind == TokenType::Identifier) {
        Ok(leaf(ts[0].lexeme))
    } else if ts.len() >= 2 && ts[0].kind == TokenType::LeftParen && ts.last().kind
        == TokenType::RightParen {
        match expression_tree(ts.subrange(1, ts.len() - 1)) {
            Err(e) => Err(e),
            Ok(inner) => Ok(group(inner)),
        }
    } else {
        Err(ParseErrorView::UnexpectedPrimary(ts))
    }
}

proof fn lemma_views_subrange(tokens: Seq<Token>, a: int, b: int)
    requires
        0 <= a <= b <= tokens.len(),
    ensures
        token_views(tokens.subrange(a, b)) == token_views(tokens).subrange(a, b),
{
    assert(token_views(tokens.subrange(a, b)) =~= token_views(tokens).subrange(a, b));
}

fn node(val: String, children: Vec<AstNode>) -> (n: AstNode)
    ensures
        n.tree() == (AstTree { val: val@, children: AstNode::trees(children@) }),
{
    AstNode { val, children }
}

fn binary_node(op: String, left: AstNode, right: AstNode) -> (n: AstNode)
    ensures
        n.tree() == binary(op@, left.tree(), right.tree()),
{
    let ghost (l, r) = (left.tree(), right.tree());
    let ghost (a, b) = (left, right);
    let n = node(op, vec![left, right]);
    assert(seq![a, b].drop_last() =~= seq![a]);
    assert(seq![a].drop_last() =~= Seq::<AstNode>::empty());
    assert(AstNode::trees(Seq::<AstNode>::empty()) =~= Seq::<AstTree>::empty());
    assert(AstNode::trees(seq![a]) =~= seq![l]);
    assert(n.tree().children =~= seq![l, r]);
    n
}

fn single_child_node(val: String, child: AstNode) -> (n: AstNode)
    ensures
        n.tree() == unary(val@, child.tree()),
{
    let ghost c = child.tree();
    let ghost a = child;
    let mut children = Vec::new();
    children.push(child);
    assert(children@ =~= seq![a]);
    let n = node(val, children);
    assert(seq![a].drop_last() =~= Seq::<AstNode>::empty());
    assert(AstNode::trees(Seq::<AstNode>::empty()) =~= Seq::<AstTree>::empty());
    assert(AstNode::trees(seq![a]) =~= seq![c]);
    assert(n.tree().children =~= seq![c]);
    n
}

fn leaf_node(val: String) -> (n: AstNode)
    ensures
        n.tree() == leaf(val@),
{
    let n = node(val, Vec::new());
    assert(n.tree().children =~= seq![]);
    n
}

fn copy_token(t: &Token) -> (c: Token)
    ensures
        c@ == t@,
{
    Token {
        kind: t.kind,
        lexeme: t.lexeme.clone(),
        literal: match &t.literal {
            Some(l) => Some(l.clone()),
            None => None,
        },
    }
}

fn copy_tokens(tokens: &[Token]) -> (v: Vec<Token>)
    ensures
        token_views(v@) == token_views(tokens@),
{
    let mut v: Vec<Token> = Vec::new();
    let mut i: usize = 0;
    while i < tokens.len()
        invariant
            i <= tokens@.len(),
            token_views(v@) == token_views(tokens@.subrange(0, i as int)),
        decreases tokens@.len() - i,
    {
        let t = copy_token(&tokens[i]);
        let ghost before = v@;
        v.push(t);
        assert(v@ =~= before.push(t));
        assert(token_views(before.push(t)) =~= token_views(before).push(t@));
        assert(tokens@.subrange(0, i + 1) =~= tokens@.subrange(0, i as int).push(tokens@[i as int]));
        assert(token_views(tokens@.subrange(0, i as int).push(tokens@[i as int])) =~= token_views(tokens@.subrange(0, i as int)).push(tokens@[i as int]@));
        assert(token_views(v@) =~= token_views(tokens@.subrange(0, i + 1)));
        i += 1;
    }
    assert(tokens@.subrange(0, tokens@.len() as int) =~= tokens@);
    v
}

/// Parses `tokens` as one expression; a trailing end-of-input token is ignored.
pub fn parse_expression(tokens: &[Token]) -> (res: Result<AstNode, ParseError>)
    ensures
        outcome(res) == expression_tree(token_views(tokens@)),
    decreases tokens@.len(), 4int,
{
    let ghost ts = token_views(tokens@);
    if tokens.len() == 0 {
        return Err(ParseError::NoTokens);
    }
    let n = tokens.len();
    if tokens[n - 1].kind == TokenType::Eof {
        proof {
            lemma_views_subrange(tokens@, 0, n - 1);
            assert(ts.drop_last() =~= ts.subrange(0, n - 1));
        }
        return parse_term(slice_subrange(tokens, 0, n - 1));
    }
    parse_term(tokens)
}

fn parse_term(tokens: &[Token]) -> (res: Result<AstNode, ParseError>)
    ensures
        outcome(res) == term_tree(token_views(tokens@)),
    decreases tokens@.len(), 3int,
{
    let ghost ts = token_views(tokens@);
    let n = tokens.len();
    if n == 0 {
        return Err(ParseError::NoTokens);
    }
    let mut depth: i128 = 0;
    let mut mid = n;
    while mid > 0
        invariant
            n == tokens@.len(),
            ts == token_views(tokens@),
            0 <= mid <= n,
            depth == paren_balance(ts, mid as int),
            -(n - mid) <= depth <= n - mid,
            last_term_split(ts, n as int) == last_term_split(ts, mid as int),
        decreases mid,
    {
        mid -= 1;
        match tokens[mid].kind {
            TokenType::RightParen => {
                depth += 1;
            },
            TokenType::LeftParen => {
                depth -= 1;
            },
            TokenType::Plus | TokenType::Minus => {
                if depth == 0 && mid > 0 && is_expression(&tokens[mid - 1]) {
                    proof {
                        lemma_views_subrange(tokens@, 0, mid as int);
                        lemma_views_subrange(tokens@, mid + 1, n as int);
                    }
                    let left = parse_term(slice_subrange(tokens, 0, mid))?;
                    let right = parse_factor(slice_subrange(tokens, mid + 1, n))?;
                    return Ok(binary_node(tokens[mid].lexeme.clone(), left, right));
                }
            },
            _ => {},
        }
    }
    parse_factor(tokens)
}

fn parse_factor(tokens: &[Token]) -> (res: Result<AstNode, ParseError>)
    ensures
        outcome(res) == factor_tree(token_views(tokens@)),
    decreases tokens@.len(), 2int,
{
    let ghost ts = token_views(tokens@);
    let n = tokens.len();
    if n == 0 {
        return Err(ParseError::NoTokens);
    }
    let mut depth: i128 = 0;
    let mut mid = n;
    while mid > 0
        invariant
            n == tokens@.len(),
            ts == token_views(tokens@),
            0 <= mid <= n,
            depth == paren_balance(ts, mid as int),
            -(n - mid) <= depth <= n - mid,
            last_factor_split(ts, n as int) == last_factor_split(ts, mid as int),
        decreases mid,
    {
        mid -= 1;
        match tokens[mid].kind {
            TokenType::RightParen => {
                depth += 1;
            },
            TokenType::LeftParen => {
                depth -= 1;
            },
            TokenType::Star | TokenType::Slash => {
                if depth == 0 {
                    proof {
                        lemma_views_subrange(tokens@, 0, mid as int);
                        lemma_views_subrange(tokens@, mid + 1, n as int);
                    }
                    let left = parse_factor(slice_subrange(tokens, 0, mid))?;
                    let right = parse_unary(slice_subrange(tokens, mid + 1, n))?;
                    return Ok(binary_node(tokens[mid].lexeme.clone(), left, right));
                }
            },
            _ => {},
        }
    }
    parse_unary(tokens)
}

fn parse_unary(tokens: &[Token]) -> (res: Result<AstNode, ParseError>)
    ensures
        outcome(res) == unary_tree(token_views(tokens@)),
    decreases tokens@.len(), 1int,
{
    let n = tokens.len();
    if n == 0 {
        return Err(ParseError::NoTokens);
    }
    match tokens[0].kind {
        TokenType::Bang | TokenType::Minus => {
            proof {
                lemma_views_subrange(tokens@, 1, n as int);
            }
            let operand = parse_unary(slice_subrange(tokens, 1, n))?;
            Ok(single_child_node(tokens[0].lexeme.clone(), operand))
        },
        _ => parse_primary(tokens),
    }
}

fn parse_primary(tokens: &[Token]) -> (res: Result<AstNode, ParseError>)
    ensures
        outcome(res) == primary_tree(token_views(tokens@)),
    decreases tokens@.len(), 0int,
{
    let n = tokens.len();
    if n == 0 {
        return Err(ParseError::NoTokens);
    }
    let kind = tokens[0].kind;
    if n == 1 && (kind == TokenType::Number || kind == TokenType::String) {
        let val = match &tokens[0].literal {
            Some(l) => l.clone(),
            None => String::new(),
        };
        Ok(leaf_node(val))
    } else if n == 1 && (kind == TokenType::True || kind == TokenType::False || kind
        == TokenType::Nil || kind == TokenType::Identifier) {
        Ok(leaf_node(tokens[0].lexeme.clone()))
    } else if n >= 2 && kind == TokenType::LeftParen && tokens[n - 1].kind
        == TokenType::RightParen {
        proof {
            lemma_views_subrange(tokens@, 1, n - 1);
        }
        let inner = parse_expression(slice_subrange(tokens, 1, n - 1))?;
        Ok(single_child_node("group".to_owned(), inner))
    } else {
        Err(ParseError::UnexpectedPrimary(copy_tokens(tokens)))
    }
}

fn is_expression(token: &Token) -> (r: bool)
    ensures
        r == is_expression_kind(token.kind),
{
    match token.kind {
        TokenType::Number | TokenType::String | TokenType::True | TokenType::False
        | TokenType::Nil | TokenType::RightParen | TokenType::Identifier => true,
        _ => false,
    }
}

// ---------------------------------------------------------------------------
// What every parse guarantees.

/// How many tokens the tree stands for: one per literal, name and operator,
/// and two (the parentheses) per group.
pub open spec fn token_count(t: AstTree) -> int
    decreases t,
{
    if t.children.len() == 0 {
        1
    } else if t.children.len() == 1 {
        if t.val == "group"@ {
            2 + token_count(t.children[0])
        } else {
            1 + token_count(t.children[0])
        }
    } else {
        1 + token_count(t.children[0]) + token_count(t.children[1])
    }
}

/// No end-of-input token, and no prefix operator spelled like a group node.
pub open spec fn plain_tokens(ts: Seq<TokenView>) -> bool {
    forall|i: int|
        0 <= i < ts.len() ==> #[trigger] ts[i].kind != TokenType::Eof && ((ts[i].kind
            == TokenType::Bang || ts[i].kind == TokenType::Minus) ==> ts[i].lexeme != "group"@)
}

proof fn lemma_plain_subrange(ts: Seq<TokenView>, a: int, b: int)
    requires
        plain_tokens(ts),
        0 <= a <= b <= ts.len(),
    ensures
        plain_tokens(ts.subrange(a, b)),
{
    assert forall|i: int| 0 <= i < b - a implies #[trigger] ts.subrange(a, b)[i].kind
        != TokenType::Eof && ((ts.subrange(a, b)[i].kind == TokenType::Bang || ts.subrange(
        a,
        b,
    )[i].kind == TokenType::Minus) ==> ts.subrange(a, b)[i].lexeme != "group"@) by {
        assert(ts.subrange(a, b)[i] == ts[a + i]);
    }
}

proof fn lemma_count_expression(ts: Seq<TokenView>)
    requires
        plain_tokens(ts),
    ensures
        expression_tree(ts) matches Ok(t) ==> token_count(t) == ts.len(),
    decreases ts.len(), 4int,
{
    if ts.len() > 0 {
        lemma_count_term(ts);
    }
}

proof fn lemma_count_term(ts: Seq<TokenView>)
    requires
        plain_tokens(ts),
    ensures
        term_tree(ts) matches Ok(t) ==> token_count(t) == ts.len(),
    decreases ts.len(), 3int,
{
    if ts.len() > 0 {
        lemma_last_term_split(ts, ts.len() as int);
        match last_term_split(ts, ts.len() as int) {
            Some(m) => {
                lemma_plain_subrange(ts, 0, m);
                lemma_plain_subrange(ts, m + 1, ts.len() as int);
                lemma_count_term(ts.subrange(0, m));
                lemma_count_factor(ts.subrange(m + 1, ts.len() as int));
            },
            None => {
                lemma_count_factor(ts);
            },
        }
    }
}

proof fn lemma_count_factor(ts: Seq<TokenView>)
    requires
        plain_tokens(ts),
    ensures
        factor_tree(ts) matches Ok(t) ==> token_count(t) == ts.len(),
    decreases ts.len(), 2int,
{
    if ts.len() > 0 {
        lemma_last_factor_split(ts, ts.len() as int);
        match last_factor_split(ts, ts.len() as int) {
            Some(m) => {
                lemma_plain_subrange(ts, 0, m);
                lemma_plain_subrange(ts, m + 1, ts.len() as int);
                lemma_count_factor(ts.subrange(0, m));
                lemma_count_unary(ts.subrange(m + 1, ts.len() as int));
            },
            None => {
                lemma_count_unary(ts);
            },
        }
    }
}

proof fn lemma_count_unary(ts: Seq<TokenView>)
    requires
        plain_tokens(ts),
    ensures
        unary_tree(ts) matches Ok(t) ==> token_count(t) == ts.len(),
    decreases ts.len(), 1int,
{
    if ts.len() > 0 {
        if ts[0].kind == TokenType::Bang || ts[0].kind == TokenType::Minus {
            lemma_plain_subrange(ts, 1, ts.len() as int);
            lemma_count_unary(ts.subrange(1, ts.len() as int));
        } else {
            lemma_count_primary(ts);
        }
    }
}

proof fn lemma_count_primary(ts: Seq<TokenView>)
    requires
        plain_tokens(ts),
    ensures
        primary_tree(ts) matches Ok(t) ==> token_count(t) == ts.len(),
    decreases ts.len(), 0int,
{
    if ts.len() >= 2 && ts[0].kind == TokenType::LeftParen && ts.last().kind
        == TokenType::RightParen {
        lemma_plain_subrange(ts, 1, ts.len() - 1);
        lemma_count_expression(ts.subrange(1, ts.len() - 1));
    }
}

/// Law: a parse accounts for every token exactly once. When the tokens hold no
/// end-of-input token and no prefix operator spelled `group`, a successful
/// parse gives a tree with one node per literal, name and operator token and
/// one group node per pair of parentheses.
pub proof fn lemma_parse_uses_every_token(ts: Seq<TokenView>)
    requires
        plain_tokens(ts),
    ensures
        expression_tree(ts) matches Ok(t) ==> token_count(t) == ts.len(),
{
    lemma_count_expression(ts);
}

/// Law: an end-of-input token after the last token changes nothing.
pub proof fn lemma_trailing_eof_ignored(ts: Seq<TokenView>, eof: TokenView)
    requires
        eof.kind == TokenType::Eof,
        ts.len() > 0 ==> ts.last().kind != TokenType::Eof,
    ensures
        expression_tree(ts.push(eof)) == expression_tree(ts),
{
    assert(ts.push(eof).drop_last() =~= ts);
}

/// Law: parsing what the scanner produced ignores its closing end-of-input
/// token, and a successful parse stands for every other scanned token exactly
/// once.
pub proof fn lemma_parse_scanned(src: Seq<u8>)
    ensures
        expression_tree(scan(src).0) == expression_tree(scan(src).0.drop_last()),
        expression_tree(scan(src).0) matches Ok(t) ==> token_count(t) == scan(src).0.len() - 1,
{
    lemma_scan_tokens_well_formed(src);
    let ts = scan(src).0;
    let body = ts.drop_last();
    assert(body.push(ts.last()) =~= ts);
    if body.len() > 0 {
        assert(well_formed_token(ts[body.len() - 1]));
    }
    lemma_trailing_eof_ignored(body, ts.last());
    reveal_strlit("group");
    assert forall|i: int| 0 <= i < body.len() implies #[trigger] body[i].kind != TokenType::Eof
        && ((body[i].kind == TokenType::Bang || body[i].kind == TokenType::Minus)
        ==> body[i].lexeme != "group"@) by {
        assert(body[i] == ts[i]);
        assert(well_formed_token(ts[i]));
        if body[i].kind == TokenType::Bang || body[i].kind == TokenType::Minus {
            assert(body[i].lexeme.len() == 1);
            assert("group"@.len() == 5);
        }
    }
    lemma_parse_uses_every_token(body);
}

/// A token that is an operand by itself: a literal or a name.
pub open spec fn is_operand(b: TokenView) -> bool {
    b.kind == TokenType::Number || b.kind == TokenType::String || b.kind == TokenType::True
        || b.kind == TokenType::False || b.kind == TokenType::Nil || b.kind == TokenType::Identifier
}

/// The leaf that a single literal or name token parses to: the literal of a
/// number or string (empty when it has none), the lexeme of `true`, `false`,
/// `nil` or a name.
pub open spec fn operand_leaf(b: TokenView) -> AstTree {
    AstTree {
        val: if b.kind == TokenType::Number || b.kind == TokenType::String {
            match b.literal {
                Some(l) => l,
                None => seq![],
            }
        } else {
            b.lexeme
        },
        children: seq![],
    }
}

pub open spec fn is_additive(op: TokenView) -> bool {
    op.kind == TokenType::Plus || op.kind == TokenType::Minus
}

pub open spec fn is_multiplicative(op: TokenView) -> bool {
    op.kind == TokenType::Star || op.kind == TokenType::Slash
}

/// The tree of an operator applied to two operands.
pub open spec fn apply(op: TokenView, left: AstTree, right: AstTree) -> AstTree {
    AstTree { val: op.lexeme, children: seq![left, right] }
}

proof fn lemma_operand_parses(b: TokenView)
    requires
        is_operand(b),
    ensures
        term_tree(seq![b]) == Ok::<AstTree, ParseErrorView>(operand_leaf(b)),
        factor_tree(seq![b]) == Ok::<AstTree, ParseErrorView>(operand_leaf(b)),
        unary_tree(seq![b]) == Ok::<AstTree, ParseErrorView>(operand_leaf(b)),
{
    let ts = seq![b];
    assert(!splits_term(ts, 0));
    assert(last_term_split(ts, 0) is None);
    assert(last_term_split(ts, 1) is None);
    assert(!splits_factor(ts, 0));
    assert(last_factor_split(ts, 0) is None);
    assert(last_factor_split(ts, 1) is None);
    assert(primary_tree(ts) == Ok::<AstTree, ParseErrorView>(operand_leaf(b)));
    assert(unary_tree(ts) == primary_tree(ts));
    assert(factor_tree(ts) == unary_tree(ts));
    assert(term_tree(ts) == factor_tree(ts));
}

proof fn lemma_product_parses(x: TokenView, op: TokenView, y: TokenView)
    requires
        is_operand(x),
        is_multiplicative(op),
        is_operand(y),
    ensures
        factor_tree(seq![x, op, y]) == Ok::<AstTree, ParseErrorView>(
            apply(op, operand_leaf(x), operand_leaf(y)),
        ),
        term_tree(seq![x, op, y]) == Ok::<AstTree, ParseErrorView>(
            apply(op, operand_leaf(x), operand_leaf(y)),
        ),
{
    let ts = seq![x, op, y];
    lemma_operand_parses(x);
    lemma_operand_parses(y);
    assert(paren_balance(ts, 3) == 0);
    assert(paren_balance(ts, 2) == 0);
    assert(paren_balance(ts, 1) == 0);
    assert(!splits_factor(ts, 2));
    assert(splits_factor(ts, 1));
    assert(last_factor_split(ts, 2) == Some(1int));
    assert(last_factor_split(ts, 3) == Some(1int));
    assert(ts.subrange(0, 1) =~= seq![x]);
    assert(ts.subrange(2, 3) =~= seq![y]);
    assert(!splits_term(ts, 0));
    assert(!splits_term(ts, 1));
    assert(!splits_term(ts, 2));
    assert(last_term_split(ts, 0) is None);
    assert(last_term_split(ts, 1) is None);
    assert(last_term_split(ts, 2) is None);
    assert(last_term_split(ts, 3) is None);
}

/// Law: a literal or name alone parses to its leaf.
pub proof fn lemma_single_operand(b: TokenView)
    requires
        is_operand(b),
    ensures
        expression_tree(seq![b]) == Ok::<AstTree, ParseErrorView>(operand_leaf(b)),
{
    lemma_operand_parses(b);
}

/// Law: `!` or `-` before an operand parses to that operator over the operand's
/// leaf.
pub proof fn lemma_prefix_operand(op: TokenView, b: TokenView)
    requires
        op.kind == TokenType::Bang || op.kind == TokenType::Minus,
        is_operand(b),
    ensures
        expression_tree(seq![op, b]) == Ok::<AstTree, ParseErrorView>(
            AstTree { val: op.lexeme, children: seq![operand_leaf(b)] },
        ),
{
    let ts = seq![op, b];
    lemma_operand_parses(b);
    assert(ts.subrange(1, 2) =~= seq![b]);
    assert(!splits_term(ts, 0));
    assert(!splits_term(ts, 1));
    assert(last_term_split(ts, 0) is None);
    assert(last_term_split(ts, 1) is None);
    assert(last_term_split(ts, 2) is None);
    assert(!splits_factor(ts, 0));
    assert(!splits_factor(ts, 1));
    assert(last_factor_split(ts, 0) is None);
    assert(last_factor_split(ts, 1) is None);
    assert(last_factor_split(ts, 2) is None);
}

/// Law: an operand in parentheses parses to a `group` node over its leaf.
pub proof fn lemma_grouped_operand(open: TokenView, b: TokenView, close: TokenView)
    requires
        open.kind == TokenType::LeftParen,
        is_operand(b),
        close.kind == TokenType::RightParen,
    ensures
        expression_tree(seq![open, b, close]) == Ok::<AstTree, ParseErrorView>(
            AstTree { val: "group"@, children: seq![operand_leaf(b)] },
        ),
{
    let ts = seq![open, b, close];
    lemma_operand_parses(b);
    assert(ts.subrange(1, 2) =~= seq![b]);
    assert(ts.drop_last() =~= seq![open, b]);
    assert(!splits_term(ts, 0));
    assert(!splits_term(ts, 1));
    assert(!splits_term(ts, 2));
    assert(last_term_split(ts, 0) is None);
    assert(last_term_split(ts, 1) is None);
    assert(last_term_split(ts, 2) is None);
    assert(last_term_split(ts, 3) is None);
    assert(!splits_factor(ts, 0));
    assert(!splits_factor(ts, 1));
    assert(!splits_factor(ts, 2));
    assert(last_factor_split(ts, 0) is None);
    assert(last_factor_split(ts, 1) is None);
    assert(last_factor_split(ts, 2) is None);
    assert(last_factor_split(ts, 3) is None);
    assert(expression_tree(seq![b]) == Ok::<AstTree, ParseErrorView>(operand_leaf(b)));
    assert(primary_tree(ts) == Ok::<AstTree, ParseErrorView>(
        AstTree { val: "group"@, children: seq![operand_leaf(b)] },
    ));
    assert(unary_tree(ts) == primary_tree(ts));
    assert(factor_tree(ts) == unary_tree(ts));
    assert(term_tree(ts) == factor_tree(ts));
}

/// Law: `*` and `/` bind tighter than `+` and `-`, and operators of one level
/// group to the left: `a + b * c` is `a + (b * c)`, while `a * b + c`,
/// `a + b - c` and `a * b / c` apply the second operator to the result of the
/// first.
pub proof fn lemma_precedence(
    a: TokenView,
    op1: TokenView,
    b: TokenView,
    op2: TokenView,
    c: TokenView,
)
    requires
        is_operand(a),
        is_operand(b),
        is_operand(c),
        is_additive(op1) || is_multiplicative(op1),
        is_additive(op2) || is_multiplicative(op2),
    ensures
        expression_tree(seq![a, op1, b, op2, c]) == Ok::<AstTree, ParseErrorView>(
            if is_additive(op1) && is_multiplicative(op2) {
                apply(op1, operand_leaf(a), apply(op2, operand_leaf(b), operand_leaf(c)))
            } else {
                apply(op2, apply(op1, operand_leaf(a), operand_leaf(b)), operand_leaf(c))
            },
        ),
{
    let ts = seq![a, op1, b, op2, c];
    let (la, lb, lc) = (operand_leaf(a), operand_leaf(b), operand_leaf(c));
    lemma_operand_parses(a);
    lemma_operand_parses(b);
    lemma_operand_parses(c);
    assert(ts.subrange(0, 3) =~= seq![a, op1, b]);
    assert(ts.subrange(0, 1) =~= seq![a]);
    assert(ts.subrange(2, 5) =~= seq![b, op2, c]);
    assert(ts.subrange(4, 5) =~= seq![c]);
    assert(paren_balance(ts, 5) == 0);
    assert(paren_balance(ts, 4) == 0);
    assert(paren_balance(ts, 3) == 0);
    assert(paren_balance(ts, 2) == 0);
    assert(paren_balance(ts, 1) == 0);
    assert(!splits_term(ts, 4));
    assert(!splits_term(ts, 2));
    assert(!splits_term(ts, 0));
    assert(!splits_factor(ts, 4));
    assert(!splits_factor(ts, 2));
    assert(!splits_factor(ts, 0));
    assert(last_term_split(ts, 0) is None);
    assert(last_factor_split(ts, 0) is None);
    if is_additive(op2) {
        assert(last_term_split(ts, 4) == Some(3int));
        assert(last_term_split(ts, 5) == Some(3int));
        if is_additive(op1) {
            lemma_binary_after_operand(seq![a], op1, b);
            assert(seq![a] + seq![op1, b] =~= seq![a, op1, b]);
            assert(term_tree(seq![a, op1, b]) == Ok::<AstTree, ParseErrorView>(apply(op1, la, lb)));
        } else {
            lemma_product_parses(a, op1, b);
        }
    } else {
        lemma_product_parses(b, op2, c);
        assert(last_factor_split(ts, 4) == Some(3int));
        assert(last_factor_split(ts, 5) == Some(3int));
        if is_additive(op1) {
            assert(last_term_split(ts, 1) is None);
            assert(last_term_split(ts, 2) == Some(1int));
            assert(last_term_split(ts, 3) == Some(1int));
            assert(last_term_split(ts, 4) == Some(1int));
            assert(last_term_split(ts, 5) == Some(1int));
        } else {
            assert(last_term_split(ts, 1) is None);
            assert(!splits_term(ts, 1));
            assert(!splits_term(ts, 3));
            assert(last_term_split(ts, 2) is None);
            assert(last_term_split(ts, 3) is None);
            assert(last_term_split(ts, 4) is None);
            assert(last_term_split(ts, 5) is None);
            lemma_product_parses(a, op1, b);
        }
    }
}

/// Law: a `+` or `-` written after a term and followed by an operand is a
/// binary operator, whenever the term ends in a token that can end an operand
/// (a number, string, `true`, `false`, `nil`, name or `)`): the tokens parse as
/// that operator applied to the term's tree and the operand.
pub proof fn lemma_binary_after_operand(l: Seq<TokenView>, op: TokenView, b: TokenView)
    requires
        l.len() > 0,
        term_tree(l) is Ok,
        l.last().kind == TokenType::Number || l.last().kind == TokenType::String
            || l.last().kind == TokenType::True || l.last().kind == TokenType::False
            || l.last().kind == TokenType::Nil || l.last().kind == TokenType::Identifier
            || l.last().kind == TokenType::RightParen,
        op.kind == TokenType::Plus || op.kind == TokenType::Minus,
        is_operand(b),
    ensures
        expression_tree(l + seq![op, b]) == Ok::<AstTree, ParseErrorView>(
            apply(op, term_tree(l)->Ok_0, operand_leaf(b)),
        ),
{
    let ts = l + seq![op, b];
    let m = l.len() as int;
    let n = ts.len() as int;
    assert(ts[m] == op);
    assert(ts[m + 1] == b);
    assert(ts[m - 1] == l.last());
    assert(paren_balance(ts, n) == 0);
    assert(paren_balance(ts, m + 1) == 0);
    assert(paren_balance(ts, m) == 0);
    assert(!splits_term(ts, n - 1));
    assert(splits_term(ts, m));
    assert(last_term_split(ts, m + 1) == Some(m));
    assert(last_term_split(ts, n) == last_term_split(ts, m + 1));
    assert(ts.subrange(0, m) =~= l);
    let rest = ts.subrange(m + 1, n);
    assert(rest =~= seq![b]);
    assert(last_factor_split(rest, 0) is None);
    assert(!splits_factor(rest, 0));
    assert(last_factor_split(rest, 1) is None);
    assert(rest.subrange(1, 1) =~= Seq::<TokenView>::empty());
    assert(factor_tree(rest) == Ok::<AstTree, ParseErrorView>(operand_leaf(b)));
}

} // verus!
