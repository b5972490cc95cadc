//! The syntax tree and the operator-precedence parser.
use vstd::prelude::*;
use crate::token::{Constant, Function, Identifier, Span, Spanned, Token};

verus! {

#[derive(Clone, Copy, Debug, PartialEq, Eq, Structural)]
pub enum BinaryOperation {
    Add,
    Sub,
    Mul,
    Div,
    Pow,
    Mod,
}

#[derive(Clone, Copy, Debug, PartialEq, Eq, Structural)]
pub enum UnaryOperation {
    Negative,
    Positive,
    Fact,
}

/// An expression. Each node owns its operands.
#[derive(Debug, PartialEq, Eq)]
pub enum Ast {
    /// A numeric literal, by the place of its digits in the source text.
    Number(Span),
    Constant(Constant),
    BinOp(BinaryOperation, Box<Ast>, Box<Ast>),
    UnaryOp(UnaryOperation, Box<Ast>),
    Function(Function, Box<Ast>),
    /// A group in parentheses: it has the value of what it holds.
    Paren(Box<Ast>),
}

/// Why a sequence of tokens is no expression.
#[derive(Clone, Copy, Debug, PartialEq, Eq, Structural)]
pub enum ParseError {
    /// The token at this place cannot stand there: an operand or the
    /// parenthesis after a function's name was expected, or the expression was
    /// complete before it. An error token of the lexer is such a token too.
    Unexpected(Span),
    /// The tokens end where an operand or a function's argument was expected:
    /// the empty place behind the last token, or the start of a text without
    /// tokens.
    UnexpectedEnd(Span),
    /// The parenthesis at this place is not closed.
    Unclosed(Span),
}

/// An expression read from the tokens, and the index of the token behind it.
pub type Parsed = Result<(Ast, int), ParseError>;

/// The empty place where the tokens end.
pub open spec fn end_of(t: Seq<Spanned>) -> Span {
    if t.len() == 0 {
        Span { start: 0, end: 0 }
    } else {
        Span { start: t.last().span.end, end: t.last().span.end }
    }
}

/// The power with which a prefix sign binds the operand to its right.
pub open spec fn prefix_power() -> int {
    6
}

/// The power with which the postfix `!` binds the operand to its left.
pub open spec fn postfix_power() -> int {
    9
}

/// The infix operation that a token stands for.
pub open spec fn infix_of(token: Token) -> Option<BinaryOperation> {
    match token {
        Token::Plus => Some(BinaryOperation::Add),
        Token::Minus => Some(BinaryOperation::Sub),
        Token::Star => Some(BinaryOperation::Mul),
        Token::Slash => Some(BinaryOperation::Div),
        Token::Pow => Some(BinaryOperation::Pow),
        Token::Mod => Some(BinaryOperation::Mod),
        _ => None,
    }
}

/// The power with which an infix operation binds the operand to its left. It
/// is twice the operation's rank, and one more where it groups to the right.
/// `**` has rank 5 and groups to the right; `*`, `/`, `%` and `+` have rank 2
/// and `-` has rank 1, all grouping to the left.
pub open spec fn left_power(op: BinaryOperation) -> int {
    match op {
        BinaryOperation::Pow => 11,
        BinaryOperation::Sub => 2,
        _ => 4,
    }
}

/// The least power that an operation in the right operand must bind with:
/// twice the rank, and one more where the operation groups to the left.
pub open spec fn right_power(op: BinaryOperation) -> int {
    match op {
        BinaryOperation::Pow => 10,
        BinaryOperation::Sub => 3,
        _ => 5,
    }
}

/// Reads `( expression )` with the opening parenthesis at `open`.
pub open spec fn parse_group(t: Seq<Spanned>, open: int) -> Parsed
    recommends
        0 <= open < t.len(),
    decreases t.len() - open, 0int,
{
    if open < 0 || open >= t.len() {
        Err(ParseError::UnexpectedEnd(end_of(t)))
    } else {
        match parse_expr(t, open + 1, 0) {
            Err(e) => Err(e),
            Ok((inner, p)) => if 0 <= p < t.len() && t[p].token == Token::RightParen {
                Ok((inner, p + 1))
            } else {
                Err(ParseError::Unclosed(t[open].span))
            },
        }
    }
}

/// Reads an operand with the signs in front of it: a literal, a constant, a
/// group, a function applied to a group, or a sign and what it binds.
pub open spec fn parse_operand(t: Seq<Spanned>, pos: int) -> Parsed
    decreases t.len() - pos, 1int,
{
    if pos < 0 || pos >= t.len() {
        Err(ParseError::UnexpectedEnd(end_of(t)))
    } else {
        match t[pos].token {
            Token::Plus => match parse_expr(t, pos + 1, prefix_power()) {
                Ok((x, p)) => Ok((Ast::UnaryOp(UnaryOperation::Positive, Box::new(x)), p)),
                Err(e) => Err(e),
            },
            Token::Minus => match parse_expr(t, pos + 1, prefix_power()) {
                Ok((x, p)) => Ok((Ast::UnaryOp(UnaryOperation::Negative, Box::new(x)), p)),
                Err(e) => Err(e),
            },
            Token::Number(digits) => Ok((Ast::Number(digits), pos + 1)),
            Token::Identifier(Identifier::Constant(c)) => Ok((Ast::Constant(c), pos + 1)),
            Token::LeftParen => match parse_group(t, pos) {
                Ok((x, p)) => Ok((Ast::Paren(Box::new(x)), p)),
                Err(e) => Err(e),
            },
            Token::Identifier(Identifier::Function(f)) => if pos + 1 >= t.len() {
                Err(ParseError::UnexpectedEnd(end_of(t)))
            } else if t[pos + 1].token != Token::LeftParen {
                Err(ParseError::Unexpected(t[pos + 1].span))
            } else {
                match parse_group(t, pos + 1) {
                    Ok((x, p)) => Ok((Ast::Function(f, Box::new(x)), p)),
                    Err(e) => Err(e),
                }
            },
            _ => Err(ParseError::Unexpected(t[pos].span)),
        }
    }
}

/// Goes on behind the operand `lhs`, which ends before `pos`: takes each `!`
/// and each infix operation that binds with at least `min_power`, the latter
/// with its right operand, and stops before the first token that is neither.
pub open spec fn parse_rest(t: Seq<Spanned>, lhs: Ast, pos: int, min_power: int) -> Parsed
    decreases t.len() - pos, 0int,
{
    if pos < 0 || pos >= t.len() {
        Ok((lhs, pos))
    } else if t[pos].token == Token::Fact && postfix_power() >= min_power {
        parse_rest(t, Ast::UnaryOp(UnaryOperation::Fact, Box::new(lhs)), pos + 1, min_power)
    } else {
        match infix_of(t[pos].token) {
            Some(op) => if left_power(op) >= min_power {
                match parse_expr(t, pos + 1, right_power(op)) {
                    Ok((rhs, p)) => if pos < p <= t.len() {
                        parse_rest(t, Ast::BinOp(op, Box::new(lhs), Box::new(rhs)), p, min_power)
                    } else {
                        Err(ParseError::UnexpectedEnd(end_of(t)))
                    },
                    Err(e) => Err(e),
                }
            } else {
                Ok((lhs, pos))
            },
            None => Ok((lhs, pos)),
        }
    }
}

/// Reads the longest expression that starts at `pos` and whose operations
/// outside parentheses all bind with at least `min_power`.
pub open spec fn parse_expr(t: Seq<Spanned>, pos: int, min_power: int) -> Parsed
    decreases t.len() - pos, 2int,
{
    match parse_operand(t, pos) {
        Ok((lhs, p)) => if pos < p <= t.len() {
            parse_rest(t, lhs, p, min_power)
        } else {
            Err(ParseError::UnexpectedEnd(end_of(t)))
        },
        Err(e) => Err(e),
    }
}

/// The tree of a whole sequence of tokens: one expression and nothing after it.
pub open spec fn parse_tokens(t: Seq<Spanned>) -> Result<Ast, ParseError> {
    match parse_expr(t, 0, 0) {
        Ok((ast, p)) => if 0 <= p < t.len() {
            Err(ParseError::Unexpected(t[p].span))
        } else {
            Ok(ast)
        },
        Err(e) => Err(e),
    }
}

/// Whether what the parser returned is what the tokens determine.
pub open spec fn agrees(r: Result<(Ast, usize), ParseError>, want: Parsed) -> bool {
    match r {
        Ok((ast, p)) => want == Ok::<(Ast, int), ParseError>((ast, p as int)),
        Err(e) => want == Err::<(Ast, int), ParseError>(e),
    }
}

/// The place behind the expression that the parser returned, if it returned one.
pub open spec fn ends_within(r: Result<(Ast, usize), ParseError>, pos: usize, len: usize) -> bool {
    match r {
        Ok((_, p)) => pos < p <= len,
        Err(_) => true,
    }
}

/// The infix operation of a token with its two powers, left and right.
pub fn infix(token: Token) -> (r: Option<(BinaryOperation, u8, u8)>)
    ensures
        match r {
            Some((op, l, r)) => infix_of(token) == Some(op) && l == left_power(op) && r
                == right_power(op),
            None => infix_of(token).is_none(),
        },
{
    match token {
        Token::Plus => Some((BinaryOperation::Add, 4, 5)),
        Token::Minus => Some((BinaryOperation::Sub, 2, 3)),
        Token::Star => Some((BinaryOperation::Mul, 4, 5)),
        Token::Slash => Some((BinaryOperation::Div, 4, 5)),
        Token::Pow => Some((BinaryOperation::Pow, 11, 10)),
        Token::Mod => Some((BinaryOperation::Mod, 4, 5)),
        _ => None,
    }
}

/// The empty place behind the last token.
pub fn end_at(t: &Vec<Spanned>) -> (r: Span)
    ensures
        r == end_of(t@),
{
    if t.len() == 0 {
        Span { start: 0, end: 0 }
    } else {
        let last = t[t.len() - 1].span.end;
        Span { start: last, end: last }
    }
}

fn group(t: &Vec<Spanned>, open: usize) -> (r: Result<(Ast, usize), ParseError>)
    requires
        open < t.len(),
    ensures
        agrees(r, parse_group(t@, open as int)),
        ends_within(r, open, t.len()),
    decreases t.len() - open, 0int,
{
    match expr(t, open + 1, 0) {
        Err(e) => Err(e),
        Ok((inner, p)) => {
            if p < t.len() {
                match t[p].token {
                    Token::RightParen => {
                        return Ok((inner, p + 1));
                    },
                    _ => {},
                }
            }
            Err(ParseError::Unclosed(t[open].span))
        },
    }
}

fn operand(t: &Vec<Spanned>, pos: usize) -> (r: Result<(Ast, usize), ParseError>)
    requires
        pos <= t.len(),
    ensures
        agrees(r, parse_operand(t@, pos as int)),
        ends_within(r, pos, t.len()),
    decreases t.len() - pos, 1int,
{
    if pos >= t.len() {
        return Err(ParseError::UnexpectedEnd(end_at(t)));
    }
    match t[pos].token {
        Token::Plus => match expr(t, pos + 1, 6) {
            Ok((x, p)) => Ok((Ast::UnaryOp(UnaryOperation::Positive, Box::new(x)), p)),
            Err(e) => Err(e),
        },
        Token::Minus => match expr(t, pos + 1, 6) {
            Ok((x, p)) => Ok((Ast::UnaryOp(UnaryOperation::Negative, Box::new(x)), p)),
            Err(e) => Err(e),
        },
        Token::Number(digits) => Ok((Ast::Number(digits), pos + 1)),
        Token::Identifier(Identifier::Constant(c)) => Ok((Ast::Constant(c), pos + 1)),
        Token::LeftParen => match group(t, pos) {
            Ok((x, p)) => Ok((Ast::Paren(Box::new(x)), p)),
            Err(e) => Err(e),
        },
        Token::Identifier(Identifier::Function(f)) => {
            if t.len() - pos <= 1 {
                return Err(ParseError::UnexpectedEnd(end_at(t)));
            }
            match t[pos + 1].token {
                Token::LeftParen => match group(t, pos + 1) {
                    Ok((x, p)) => Ok((Ast::Function(f, Box::new(x)), p)),
                    Err(e) => Err(e),
                },
                _ => Err(ParseError::Unexpected(t[pos + 1].span)),
            }
        },
        _ => Err(ParseError::Unexpected(t[pos].span)),
    }
}

fn expr(t: &Vec<Spanned>, pos: usize, min_power: u8) -> (r: Result<(Ast, usize), ParseError>)
    requires
        pos <= t.len(),
    ensures
        agrees(r, parse_expr(t@, pos as int, min_power as int)),
        ends_within(r, pos, t.len()),
    decreases t.len() - pos, 2int,
{
    let (first, behind) = match operand(t, pos) {
        Ok(found) => found,
        Err(e) => {
            return Err(e);
        },
    };
    let mut lhs: Ast = first;
    let mut cur: usize = behind;
    loop
        invariant
            pos < cur <= t.len(),
            parse_expr(t@, pos as int, min_power as int) == parse_rest(
                t@,
                lhs,
                cur as int,
                min_power as int,
            ),
        decreases t.len() - cur,
    {
        if cur >= t.len() {
            return Ok((lhs, cur));
        }
        let token = t[cur].token;
        let is_fact = match token {
            Token::Fact => true,
            _ => false,
        };
        if is_fact && min_power <= 9 {
            lhs = Ast::UnaryOp(UnaryOperation::Fact, Box::new(lhs));
            cur = cur + 1;
        } else {
            match infix(token) {
                None => {
                    return Ok((lhs, cur));
                },
                Some((op, left, right)) => {
                    if left < min_power {
                        return Ok((lhs, cur));
                    }
                    match expr(t, cur + 1, right) {
                        Err(e) => {
                            return Err(e);
                        },
                        Ok((rhs, p)) => {
                            lhs = Ast::BinOp(op, Box::new(lhs), Box::new(rhs));
                            cur = p;
                        },
                    }
                },
            }
        }
    }
}

/// Reads a whole sequence of tokens as one expression. Signs bind less than
/// `!` and `**`; `**` groups to the right, every other infix operation to the
/// left; `-` binds less than `+`, which binds as `*`, `/` and `%` do.
pub fn parser(tokens: &Vec<Spanned>) -> (r: Result<Ast, ParseError>)
    ensures
        r == parse_tokens(tokens@),
        match r {
            Ok(ast) => tokens_of(ast) == piece(tokens@, 0, tokens@.len() as int),
            Err(_) => true,
        },
{
    proof {
        lemma_tree_spells_the_tokens(tokens@);
    }
    match expr(tokens, 0, 0) {
        Ok((ast, p)) => {
            if p < tokens.len() {
                Err(ParseError::Unexpected(tokens[p].span))
            } else {
                Ok(ast)
            }
        },
        Err(e) => Err(e),
    }
}

/// The token that an infix operation is written with.
pub open spec fn token_of_infix(op: BinaryOperation) -> Token {
    match op {
        BinaryOperation::Add => Token::Plus,
        BinaryOperation::Sub => Token::Minus,
        BinaryOperation::Mul => Token::Star,
        BinaryOperation::Div => Token::Slash,
        BinaryOperation::Pow => Token::Pow,
        BinaryOperation::Mod => Token::Mod,
    }
}

/// The tokens that a tree is written with, from left to right.
pub open spec fn tokens_of(ast: Ast) -> Seq<Token>
    decreases ast,
{
    match ast {
        Ast::Number(digits) => seq![Token::Number(digits)],
        Ast::Constant(c) => seq![Token::Identifier(Identifier::Constant(c))],
        Ast::BinOp(op, l, r) => tokens_of(*l) + seq![token_of_infix(op)] + tokens_of(*r),
        Ast::UnaryOp(UnaryOperation::Positive, x) => seq![Token::Plus] + tokens_of(*x),
        Ast::UnaryOp(UnaryOperation::Negative, x) => seq![Token::Minus] + tokens_of(*x),
        Ast::UnaryOp(UnaryOperation::Fact, x) => tokens_of(*x) + seq![Token::Fact],
        Ast::Function(f, x) => seq![Token::Identifier(Identifier::Function(f)), Token::LeftParen]
            + tokens_of(*x) + seq![Token::RightParen],
        Ast::Paren(x) => seq![Token::LeftParen] + tokens_of(*x) + seq![Token::RightParen],
    }
}

/// The tokens of `t` from `from` up to `to`, without their places.
pub open spec fn piece(t: Seq<Spanned>, from: int, to: int) -> Seq<Token> {
    Seq::new((to - from) as nat, |i: int| t[from + i].token)
}

/// Whether a parse that began at `from` gave a tree that is written with
/// exactly the tokens it went over, if it gave one.
pub open spec fn spelled_back(t: Seq<Spanned>, from: int, got: Parsed) -> bool {
    match got {
        Ok((ast, to)) => from < to <= t.len() && tokens_of(ast) == piece(t, from, to),
        Err(_) => true,
    }
}

/// A group that was read is written with its two parentheses and, between
/// them, the tokens of what it holds.
pub proof fn lemma_group_spelled_back(t: Seq<Spanned>, open: int)
    requires
        0 <= open < t.len(),
        t[open].token == Token::LeftParen,
    ensures
        match parse_group(t, open) {
            Ok((inner, to)) => open + 2 < to <= t.len() && seq![Token::LeftParen] + tokens_of(inner)
                + seq![Token::RightParen] == piece(t, open, to),
            Err(_) => true,
        },
    decreases t.len() - open, 0int,
{
    lemma_expr_spelled_back(t, open + 1, 0);
    match parse_group(t, open) {
        Ok((inner, to)) => {
            assert(seq![Token::LeftParen] + tokens_of(inner) + seq![Token::RightParen] =~= piece(
                t,
                open,
                to,
            ));
        },
        Err(_) => {},
    }
}

/// An operand that was read is written with the tokens it was read from.
pub proof fn lemma_operand_spelled_back(t: Seq<Spanned>, pos: int)
    requires
        0 <= pos <= t.len(),
    ensures
        spelled_back(t, pos, parse_operand(t, pos)),
    decreases t.len() - pos, 1int,
{
    if pos < t.len() {
        match t[pos].token {
            Token::Plus => {
                lemma_expr_spelled_back(t, pos + 1, prefix_power());
                match parse_expr(t, pos + 1, prefix_power()) {
                    Ok((x, p)) => {
                        assert(seq![Token::Plus] + tokens_of(x) =~= piece(t, pos, p));
                    },
                    Err(_) => {},
                }
            },
            Token::Minus => {
                lemma_expr_spelled_back(t, pos + 1, prefix_power());
                match parse_expr(t, pos + 1, prefix_power()) {
                    Ok((x, p)) => {
                        assert(seq![Token::Minus] + tokens_of(x) =~= piece(t, pos, p));
                    },
                    Err(_) => {},
                }
            },
            Token::Number(digits) => {
                assert(seq![Token::Number(digits)] =~= piece(t, pos, pos + 1));
            },
            Token::Identifier(Identifier::Constant(c)) => {
                assert(seq![Token::Identifier(Identifier::Constant(c))] =~= piece(t, pos, pos + 1));
            },
            Token::LeftParen => {
                lemma_group_spelled_back(t, pos);
            },
            Token::Identifier(Identifier::Function(f)) => {
                if pos + 1 < t.len() && t[pos + 1].token == Token::LeftParen {
                    lemma_group_spelled_back(t, pos + 1);
                    match parse_group(t, pos + 1) {
                        Ok((x, p)) => {
                            let call = seq![Token::LeftParen] + tokens_of(x) + seq![
                                Token::RightParen,
                            ];
                            assert(call == piece(t, pos + 1, p));
                            assert(seq![
                                Token::Identifier(Identifier::Function(f)),
                                Token::LeftParen,
                            ] + tokens_of(x) + seq![Token::RightParen] =~= seq![
                                Token::Identifier(Identifier::Function(f)),
                            ] + call);
                            assert(seq![Token::Identifier(Identifier::Function(f))] + piece(
                                t,
                                pos + 1,
                                p,
                            ) =~= piece(t, pos, p));
                        },
                        Err(_) => {},
                    }
                }
            },
            _ => {},
        }
    }
}

/// Going on behind an operand that is written with the tokens from `from` to
/// `pos` gives a tree that is written with the tokens from `from` on.
pub proof fn lemma_rest_spelled_back(t: Seq<Spanned>, lhs: Ast, from: int, pos: int, min_power: int)
    requires
        0 <= from < pos <= t.len(),
        tokens_of(lhs) == piece(t, from, pos),
    ensures
        spelled_back(t, from, parse_rest(t, lhs, pos, min_power)),
    decreases t.len() - pos, 0int,
{
    if pos < t.len() {
        if t[pos].token == Token::Fact && postfix_power() >= min_power {
            let next = Ast::UnaryOp(UnaryOperation::Fact, Box::new(lhs));
            assert(tokens_of(next) =~= piece(t, from, pos + 1));
            lemma_rest_spelled_back(t, next, from, pos + 1, min_power);
        } else {
            match infix_of(t[pos].token) {
                Some(op) => {
                    if left_power(op) >= min_power {
                        lemma_expr_spelled_back(t, pos + 1, right_power(op));
                        match parse_expr(t, pos + 1, right_power(op)) {
                            Ok((rhs, p)) => {
                                let next = Ast::BinOp(op, Box::new(lhs), Box::new(rhs));
                                assert(tokens_of(next) =~= piece(t, from, p));
                                lemma_rest_spelled_back(t, next, from, p, min_power);
                            },
                            Err(_) => {},
                        }
                    }
                },
                None => {},
            }
        }
    }
}

/// An expression that was read is written with the tokens it was read from,
/// and is at least one token long.
pub proof fn lemma_expr_spelled_back(t: Seq<Spanned>, pos: int, min_power: int)
    requires
        0 <= pos <= t.len(),
    ensures
        spelled_back(t, pos, parse_expr(t, pos, min_power)),
    decreases t.len() - pos, 2int,
{
    lemma_operand_spelled_back(t, pos);
    match parse_operand(t, pos) {
        Ok((lhs, p)) => {
            lemma_rest_spelled_back(t, lhs, pos, p, min_power);
        },
        Err(_) => {},
    }
}

/// The tree of a sequence of tokens is written with exactly those tokens, in
/// their order: parsing drops none, adds none and moves none.
pub proof fn lemma_tree_spells_the_tokens(t: Seq<Spanned>)
    ensures
        match parse_tokens(t) {
            Ok(ast) => tokens_of(ast) == piece(t, 0, t.len() as int),
            Err(_) => true,
        },
{
    lemma_expr_spelled_back(t, 0, 0);
}

/// A literal as an operand.
pub open spec fn literal(t: Spanned) -> Ast
    recommends
        t.token is Number,
{
    Ast::Number(t.token->Number_0)
}

/// A literal that stands alone up to the end, or before a token that the
/// expression does not take, is an expression by itself.
proof fn lemma_literal_alone(t: Seq<Spanned>, pos: int, min_power: int)
    requires
        0 <= pos < t.len(),
        t[pos].token is Number,
        pos + 1 == t.len() || (t[pos + 1].token != Token::Fact && (infix_of(t[pos + 1].token)
            matches Some(op) ==> left_power(op) < min_power)),
    ensures
        parse_expr(t, pos, min_power) == Ok::<(Ast, int), ParseError>((literal(t[pos]), pos + 1)),
{
    assert(parse_operand(t, pos) == Ok::<(Ast, int), ParseError>((literal(t[pos]), pos + 1)));
    assert(parse_rest(t, literal(t[pos]), pos + 1, min_power) == Ok::<(Ast, int), ParseError>(
        (literal(t[pos]), pos + 1),
    ));
}

/// Two infix operations in a row, between three literals: the second takes the
/// operand in the middle exactly where it binds to its left with at least the
/// power that the first asks for on its right. So `**` groups to the right,
/// each of the other operations groups to the left, and in `1 - 2 + 3` the sum
/// is taken first.
pub proof fn lemma_two_operations(
    a: Spanned,
    first: Spanned,
    b: Spanned,
    second: Spanned,
    c: Spanned,
    outer: BinaryOperation,
    inner_op: BinaryOperation,
)
    requires
        a.token is Number,
        b.token is Number,
        c.token is Number,
        infix_of(first.token) == Some(outer),
        infix_of(second.token) == Some(inner_op),
    ensures
        parse_tokens(seq![a, first, b, second, c]) == Ok::<Ast, ParseError>(
            if left_power(inner_op) >= right_power(outer) {
                Ast::BinOp(
                    outer,
                    Box::new(literal(a)),
                    Box::new(Ast::BinOp(inner_op, Box::new(literal(b)), Box::new(literal(c)))),
                )
            } else {
                Ast::BinOp(
                    inner_op,
                    Box::new(Ast::BinOp(outer, Box::new(literal(a)), Box::new(literal(b)))),
                    Box::new(literal(c)),
                )
            },
        ),
{
    let t = seq![a, first, b, second, c];
    assert(t.len() == 5 && t[0] == a && t[1] == first && t[2] == b && t[3] == second && t[4] == c);
    assert(first.token != Token::Fact && second.token != Token::Fact);
    assert(parse_operand(t, 0) == Ok::<(Ast, int), ParseError>((literal(a), 1)));
    lemma_literal_alone(t, 4, right_power(inner_op));
    if left_power(inner_op) >= right_power(outer) {
        let inner = Ast::BinOp(inner_op, Box::new(literal(b)), Box::new(literal(c)));
        let whole = Ast::BinOp(outer, Box::new(literal(a)), Box::new(inner));
        assert(parse_operand(t, 2) == Ok::<(Ast, int), ParseError>((literal(b), 3)));
        assert(parse_rest(t, inner, 5, right_power(outer)) == Ok::<(Ast, int), ParseError>(
            (inner, 5),
        ));
        assert(parse_rest(t, literal(b), 3, right_power(outer)) == Ok::<(Ast, int), ParseError>(
            (inner, 5),
        ));
        assert(parse_expr(t, 2, right_power(outer)) == Ok::<(Ast, int), ParseError>((inner, 5)));
        assert(parse_rest(t, whole, 5, 0) == Ok::<(Ast, int), ParseError>((whole, 5)));
        assert(parse_rest(t, literal(a), 1, 0) == Ok::<(Ast, int), ParseError>((whole, 5)));
    } else {
        let inner = Ast::BinOp(outer, Box::new(literal(a)), Box::new(literal(b)));
        let whole = Ast::BinOp(inner_op, Box::new(inner), Box::new(literal(c)));
        lemma_literal_alone(t, 2, right_power(outer));
        assert(parse_rest(t, whole, 5, 0) == Ok::<(Ast, int), ParseError>((whole, 5)));
        assert(parse_rest(t, inner, 3, 0) == Ok::<(Ast, int), ParseError>((whole, 5)));
        assert(parse_rest(t, literal(a), 1, 0) == Ok::<(Ast, int), ParseError>((whole, 5)));
    }
}

/// The postfix `!` binds more than a sign in front: in `-3!` the factorial is
/// taken first, and the sign applies to it.
pub proof fn lemma_factorial_before_sign(sign: Spanned, a: Spanned, bang: Spanned)
    requires
        sign.token == Token::Minus || sign.token == Token::Plus,
        a.token is Number,
        bang.token == Token::Fact,
    ensures
        parse_tokens(seq![sign, a, bang]) == Ok::<Ast, ParseError>(
            Ast::UnaryOp(
                if sign.token == Token::Minus {
                    UnaryOperation::Negative
                } else {
                    UnaryOperation::Positive
                },
                Box::new(Ast::UnaryOp(UnaryOperation::Fact, Box::new(literal(a)))),
            ),
        ),
{
    let t = seq![sign, a, bang];
    assert(t.len() == 3 && t[0] == sign && t[1] == a && t[2] == bang);
    let fact = Ast::UnaryOp(UnaryOperation::Fact, Box::new(literal(a)));
    let whole = Ast::UnaryOp(
        if sign.token == Token::Minus {
            UnaryOperation::Negative
        } else {
            UnaryOperation::Positive
        },
        Box::new(fact),
    );
    assert(parse_operand(t, 1) == Ok::<(Ast, int), ParseError>((literal(a), 2)));
    assert(parse_rest(t, fact, 3, prefix_power()) == Ok::<(Ast, int), ParseError>((fact, 3)));
    assert(parse_rest(t, literal(a), 2, prefix_power()) == Ok::<(Ast, int), ParseError>(
        (fact, 3),
    ));
    assert(parse_expr(t, 1, prefix_power()) == Ok::<(Ast, int), ParseError>((fact, 3)));
    assert(parse_operand(t, 0) == Ok::<(Ast, int), ParseError>((whole, 3)));
    assert(parse_rest(t, whole, 3, 0) == Ok::<(Ast, int), ParseError>((whole, 3)));
}

/// What a token adds to the number of open parentheses.
pub open spec fn opens(token: Token) -> int {
    match token {
        Token::LeftParen => 1,
        Token::RightParen => -1,
        _ => 0,
    }
}

/// The opening parentheses among the tokens, less the closing ones.
pub open spec fn nesting(s: Seq<Token>) -> int
    decreases s.len(),
{
    if s.len() == 0 {
        0
    } else {
        nesting(s.drop_last()) + opens(s.last())
    }
}

/// The nesting of two rows of tokens is the sum of theirs.
pub proof fn lemma_nesting_concat(a: Seq<Token>, b: Seq<Token>)
    ensures
        nesting(a + b) == nesting(a) + nesting(b),
    decreases b.len(),
{
    if b.len() == 0 {
        assert(a + b =~= a);
    } else {
        assert((a + b).drop_last() =~= a + b.drop_last());
        assert((a + b).last() == b.last());
        lemma_nesting_concat(a, b.drop_last());
    }
}

/// The nesting of one token.
pub proof fn lemma_nesting_single(token: Token)
    ensures
        nesting(seq![token]) == opens(token),
{
    let s = seq![token];
    assert(s.drop_last().len() == 0);
    assert(nesting(s.drop_last()) == 0);
    assert(s.last() == token);
}

/// A tree is written with as many closing parentheses as opening ones.
pub proof fn lemma_tree_is_balanced(ast: Ast)
    ensures
        nesting(tokens_of(ast)) == 0,
    decreases ast,
{
    match ast {
        Ast::Number(digits) => {
            lemma_nesting_single(Token::Number(digits));
        },
        Ast::Constant(c) => {
            lemma_nesting_single(Token::Identifier(Identifier::Constant(c)));
        },
        Ast::BinOp(op, l, r) => {
            lemma_tree_is_balanced(*l);
            lemma_tree_is_balanced(*r);
            lemma_nesting_single(token_of_infix(op));
            lemma_nesting_concat(tokens_of(*l), seq![token_of_infix(op)]);
            lemma_nesting_concat(tokens_of(*l) + seq![token_of_infix(op)], tokens_of(*r));
        },
        Ast::UnaryOp(UnaryOperation::Positive, x) => {
            lemma_tree_is_balanced(*x);
            lemma_nesting_single(Token::Plus);
            lemma_nesting_concat(seq![Token::Plus], tokens_of(*x));
        },
        Ast::UnaryOp(UnaryOperation::Negative, x) => {
            lemma_tree_is_balanced(*x);
            lemma_nesting_single(Token::Minus);
            lemma_nesting_concat(seq![Token::Minus], tokens_of(*x));
        },
        Ast::UnaryOp(UnaryOperation::Fact, x) => {
            lemma_tree_is_balanced(*x);
            lemma_nesting_single(Token::Fact);
            lemma_nesting_concat(tokens_of(*x), seq![Token::Fact]);
        },
        Ast::Function(f, x) => {
            lemma_tree_is_balanced(*x);
            let name = Token::Identifier(Identifier::Function(f));
            lemma_nesting_single(name);
            lemma_nesting_single(Token::LeftParen);
            lemma_nesting_single(Token::RightParen);
            assert(seq![name, Token::LeftParen] =~= seq![name] + seq![Token::LeftParen]);
            lemma_nesting_concat(seq![name], seq![Token::LeftParen]);
            lemma_nesting_concat(seq![name, Token::LeftParen], tokens_of(*x));
            lemma_nesting_concat(
                seq![name, Token::LeftParen] + tokens_of(*x),
                seq![Token::RightParen],
            );
        },
        Ast::Paren(x) => {
            lemma_tree_is_balanced(*x);
            lemma_nesting_single(Token::LeftParen);
            lemma_nesting_single(Token::RightParen);
            lemma_nesting_concat(seq![Token::LeftParen], tokens_of(*x));
            lemma_nesting_concat(seq![Token::LeftParen] + tokens_of(*x), seq![Token::RightParen]);
        },
    }
}

/// Tokens with more parentheses of one kind than of the other have no tree.
pub proof fn lemma_unbalanced_is_refused(t: Seq<Spanned>)
    requires
        nesting(piece(t, 0, t.len() as int)) != 0,
    ensures
        parse_tokens(t).is_err(),
{
    lemma_tree_spells_the_tokens(t);
    match parse_tokens(t) {
        Ok(ast) => {
            lemma_tree_is_balanced(ast);
        },
        Err(_) => {},
    }
}

/// No tree is written with an error token.
pub proof fn lemma_tree_has_no_error_token(ast: Ast)
    ensures
        !tokens_of(ast).contains(Token::Error),
    decreases ast,
{
    let all = tokens_of(ast);
    match ast {
        Ast::Number(_) => {},
        Ast::Constant(_) => {},
        Ast::BinOp(_, l, r) => {
            lemma_tree_has_no_error_token(*l);
            lemma_tree_has_no_error_token(*r);
        },
        Ast::UnaryOp(_, x) => {
            lemma_tree_has_no_error_token(*x);
        },
        Ast::Function(_, x) => {
            lemma_tree_has_no_error_token(*x);
        },
        Ast::Paren(x) => {
            lemma_tree_has_no_error_token(*x);
        },
    }
    if all.contains(Token::Error) {
        let i = choose|i: int| 0 <= i < all.len() && all[i] == Token::Error;
        match ast {
            Ast::BinOp(_, l, r) => {
                let a = tokens_of(*l);
                let b = tokens_of(*r);
                if i < a.len() {
                    assert(a[i] == Token::Error);
                } else if i > a.len() {
                    assert(b[i - a.len() - 1] == Token::Error);
                }
            },
            Ast::UnaryOp(UnaryOperation::Fact, x) => {
                let a = tokens_of(*x);
                if i < a.len() {
                    assert(a[i] == Token::Error);
                }
            },
            Ast::UnaryOp(_, x) => {
                let a = tokens_of(*x);
                if i >= 1 {
                    assert(a[i - 1] == Token::Error);
                }
            },
            Ast::Function(_, x) => {
                let a = tokens_of(*x);
                if 2 <= i < 2 + a.len() {
                    assert(a[i - 2] == Token::Error);
                }
            },
            Ast::Paren(x) => {
                let a = tokens_of(*x);
                if 1 <= i < 1 + a.len() {
                    assert(a[i - 1] == Token::Error);
                }
            },
            _ => {},
        }
    }
}

/// A sequence that holds an error token of the lexer has no tree.
pub proof fn lemma_error_token_is_refused(t: Seq<Spanned>, i: int)
    requires
        0 <= i < t.len(),
        t[i].token == Token::Error,
    ensures
        parse_tokens(t).is_err(),
{
    lemma_tree_spells_the_tokens(t);
    match parse_tokens(t) {
        Ok(ast) => {
            lemma_tree_has_no_error_token(ast);
            assert(piece(t, 0, t.len() as int)[i] == Token::Error);
        },
        Err(_) => {},
    }
}

} // verus!
