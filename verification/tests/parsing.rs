use apcalc::parse::{end_at, infix, parser, Ast, BinaryOperation, ParseError, UnaryOperation};
use apcalc::token::{tokenize, Constant, Function, Identifier, Span, Token};

fn parse(text: &str) -> Result<Ast, ParseError> {
    parser(&tokenize(text.as_bytes()))
}

fn num(start: usize, end: usize) -> Ast {
    Ast::Number(Span { start, end })
}

fn bin(op: BinaryOperation, l: Ast, r: Ast) -> Ast {
    Ast::BinOp(op, Box::new(l), Box::new(r))
}

fn un(op: UnaryOperation, x: Ast) -> Ast {
    Ast::UnaryOp(op, Box::new(x))
}

fn ended(at: usize) -> Result<Ast, ParseError> {
    Err(ParseError::UnexpectedEnd(Span { start: at, end: at }))
}

fn unexpected(start: usize, end: usize) -> Result<Ast, ParseError> {
    Err(ParseError::Unexpected(Span { start, end }))
}

#[test]
fn single_literal() {
    assert_eq!(parse("42"), Ok(num(0, 2)));
    assert_eq!(parse(" 4.5 "), Ok(num(1, 4)));
}

#[test]
fn power_groups_to_the_right() {
    assert_eq!(
        parse("2 ** 3 ** 2"),
        Ok(bin(
            BinaryOperation::Pow,
            num(0, 1),
            bin(BinaryOperation::Pow, num(5, 6), num(10, 11))
        ))
    );
}

#[test]
fn difference_groups_to_the_left() {
    assert_eq!(
        parse("10 - 3 - 2"),
        Ok(bin(
            BinaryOperation::Sub,
            bin(BinaryOperation::Sub, num(0, 2), num(5, 6)),
            num(9, 10)
        ))
    );
}

#[test]
fn product_and_quotient_group_to_the_left() {
    assert_eq!(
        parse("8/4*2%3"),
        Ok(bin(
            BinaryOperation::Mod,
            bin(
                BinaryOperation::Mul,
                bin(BinaryOperation::Div, num(0, 1), num(2, 3)),
                num(4, 5)
            ),
            num(6, 7)
        ))
    );
}

#[test]
fn sum_binds_as_a_product_does() {
    assert_eq!(
        parse("1+2*3"),
        Ok(bin(
            BinaryOperation::Mul,
            bin(BinaryOperation::Add, num(0, 1), num(2, 3)),
            num(4, 5)
        ))
    );
}

#[test]
fn minus_binds_less_than_plus() {
    assert_eq!(
        parse("1-2+3"),
        Ok(bin(
            BinaryOperation::Sub,
            num(0, 1),
            bin(BinaryOperation::Add, num(2, 3), num(4, 5))
        ))
    );
    assert_eq!(
        parse("1+2-3"),
        Ok(bin(
            BinaryOperation::Sub,
            bin(BinaryOperation::Add, num(0, 1), num(2, 3)),
            num(4, 5)
        ))
    );
}

#[test]
fn factorial_binds_more_than_a_sign() {
    assert_eq!(
        parse("-3!"),
        Ok(un(
            UnaryOperation::Negative,
            un(UnaryOperation::Fact, num(1, 2))
        ))
    );
}

#[test]
fn power_binds_more_than_a_sign() {
    assert_eq!(
        parse("-2**2"),
        Ok(un(
            UnaryOperation::Negative,
            bin(BinaryOperation::Pow, num(1, 2), num(4, 5))
        ))
    );
    assert_eq!(
        parse("2**-3"),
        Ok(bin(
            BinaryOperation::Pow,
            num(0, 1),
            un(UnaryOperation::Negative, num(4, 5))
        ))
    );
}

#[test]
fn sign_binds_more_than_a_product() {
    assert_eq!(
        parse("-2*3"),
        Ok(bin(
            BinaryOperation::Mul,
            un(UnaryOperation::Negative, num(1, 2)),
            num(3, 4)
        ))
    );
    assert_eq!(
        parse("+-1"),
        Ok(un(
            UnaryOperation::Positive,
            un(UnaryOperation::Negative, num(2, 3))
        ))
    );
}

#[test]
fn power_binds_more_than_factorial() {
    assert_eq!(
        parse("2**3!"),
        Ok(un(
            UnaryOperation::Fact,
            bin(BinaryOperation::Pow, num(0, 1), num(3, 4))
        ))
    );
    assert_eq!(
        parse("2**(3!)"),
        Ok(bin(
            BinaryOperation::Pow,
            num(0, 1),
            Ast::Paren(Box::new(un(UnaryOperation::Fact, num(4, 5))))
        ))
    );
    assert_eq!(
        parse("3!!"),
        Ok(un(
            UnaryOperation::Fact,
            un(UnaryOperation::Fact, num(0, 1))
        ))
    );
}

#[test]
fn group_is_kept_in_the_tree() {
    assert_eq!(
        parse("(1+2)*3"),
        Ok(bin(
            BinaryOperation::Mul,
            Ast::Paren(Box::new(bin(BinaryOperation::Add, num(1, 2), num(3, 4)))),
            num(6, 7)
        ))
    );
    assert_eq!(
        parse("((7))"),
        Ok(Ast::Paren(Box::new(Ast::Paren(Box::new(num(2, 3))))))
    );
}

#[test]
fn function_call() {
    assert_eq!(
        parse("sqrt(16)"),
        Ok(Ast::Function(Function::Sqrt, Box::new(num(5, 7))))
    );
    assert_eq!(
        parse("sin(pi)!"),
        Ok(un(
            UnaryOperation::Fact,
            Ast::Function(Function::Sin, Box::new(Ast::Constant(Constant::Pi)))
        ))
    );
}

#[test]
fn every_constant_is_an_operand() {
    assert_eq!(parse("pi"), Ok(Ast::Constant(Constant::Pi)));
    assert_eq!(parse("e"), Ok(Ast::Constant(Constant::E)));
    assert_eq!(parse("tau"), Ok(Ast::Constant(Constant::Tau)));
    assert_eq!(parse("inf"), Ok(Ast::Constant(Constant::Inf)));
    assert_eq!(parse("nan"), Ok(Ast::Constant(Constant::Nan)));
}

#[test]
fn unclosed_parenthesis() {
    assert_eq!(
        parse("(1 + 2"),
        Err(ParseError::Unclosed(Span { start: 0, end: 1 }))
    );
    assert_eq!(
        parse("1 + (2 * (3 + 4)"),
        Err(ParseError::Unclosed(Span { start: 4, end: 5 }))
    );
    assert_eq!(
        parse("sqrt(16"),
        Err(ParseError::Unclosed(Span { start: 4, end: 5 }))
    );
    assert_eq!(
        parse("(1 2)"),
        Err(ParseError::Unclosed(Span { start: 0, end: 1 }))
    );
}

#[test]
fn unknown_word_is_refused() {
    assert_eq!(parse("foo(1)"), unexpected(0, 3));
    assert_eq!(parse("foo"), unexpected(0, 3));
    assert_eq!(parse("1 + foo"), unexpected(4, 7));
}

#[test]
fn error_token_is_refused() {
    assert_eq!(parse("1 $ 2"), unexpected(2, 3));
    assert_eq!(parse("1."), unexpected(1, 2));
    assert_eq!(parse("#"), unexpected(0, 1));
}

#[test]
fn empty_input_is_refused() {
    assert_eq!(parse(""), ended(0));
    assert_eq!(parse("   "), ended(0));
}

#[test]
fn missing_operand_is_refused() {
    assert_eq!(parse("1 +"), ended(3));
    assert_eq!(parse("1 + "), ended(3));
    assert_eq!(parse("-"), ended(1));
    assert_eq!(parse("(2 **"), ended(5));
    assert_eq!(parse("1 * * 2"), unexpected(4, 5));
    assert_eq!(parse("()"), unexpected(1, 2));
    assert_eq!(parse("!"), unexpected(0, 1));
}

#[test]
fn trailing_tokens_are_refused() {
    assert_eq!(parse("1 2"), unexpected(2, 3));
    assert_eq!(parse("1)"), unexpected(1, 2));
    assert_eq!(parse("(1)(2)"), unexpected(3, 4));
    assert_eq!(parse("pi pi"), unexpected(3, 5));
}

#[test]
fn function_needs_its_parenthesis() {
    assert_eq!(parse("sin"), ended(3));
    assert_eq!(parse("sin 1"), unexpected(4, 5));
    assert_eq!(parse("sin + 1"), unexpected(4, 5));
}

#[test]
fn powers_of_the_infix_operations() {
    assert_eq!(infix(Token::Plus), Some((BinaryOperation::Add, 4, 5)));
    assert_eq!(infix(Token::Minus), Some((BinaryOperation::Sub, 2, 3)));
    assert_eq!(infix(Token::Star), Some((BinaryOperation::Mul, 4, 5)));
    assert_eq!(infix(Token::Slash), Some((BinaryOperation::Div, 4, 5)));
    assert_eq!(infix(Token::Mod), Some((BinaryOperation::Mod, 4, 5)));
    assert_eq!(infix(Token::Pow), Some((BinaryOperation::Pow, 11, 10)));
    assert_eq!(infix(Token::Fact), None);
    assert_eq!(infix(Token::LeftParen), None);
}

fn written(ast: &Ast, out: &mut Vec<Token>) {
    match ast {
        Ast::Number(digits) => out.push(Token::Number(*digits)),
        Ast::Constant(c) => out.push(Token::Identifier(Identifier::Constant(*c))),
        Ast::BinOp(op, l, r) => {
            written(l, out);
            out.push(match op {
                BinaryOperation::Add => Token::Plus,
                BinaryOperation::Sub => Token::Minus,
                BinaryOperation::Mul => Token::Star,
                BinaryOperation::Div => Token::Slash,
                BinaryOperation::Pow => Token::Pow,
                BinaryOperation::Mod => Token::Mod,
            });
            written(r, out);
        }
        Ast::UnaryOp(UnaryOperation::Positive, x) => {
            out.push(Token::Plus);
            written(x, out);
        }
        Ast::UnaryOp(UnaryOperation::Negative, x) => {
            out.push(Token::Minus);
            written(x, out);
        }
        Ast::UnaryOp(UnaryOperation::Fact, x) => {
            written(x, out);
            out.push(Token::Fact);
        }
        Ast::Function(f, x) => {
            out.push(Token::Identifier(Identifier::Function(*f)));
            out.push(Token::LeftParen);
            written(x, out);
            out.push(Token::RightParen);
        }
        Ast::Paren(x) => {
            out.push(Token::LeftParen);
            written(x, out);
            out.push(Token::RightParen);
        }
    }
}

#[test]
fn tree_is_written_with_the_tokens_it_was_read_from() {
    for text in [
        "1",
        "-3!",
        "2 ** 3 ** 2",
        "1 - 2 + 3 * 4 / 5 % 6",
        "sin(pi) + cos((e)) - +tau!",
        "((1 + 2) * -(3 - 4)) ** sqrt(16)!",
    ] {
        let tokens = tokenize(text.as_bytes());
        let ast = parser(&tokens).expect("the text is an expression");
        let mut back: Vec<Token> = Vec::new();
        written(&ast, &mut back);
        let kinds: Vec<Token> = tokens.iter().map(|t| t.token).collect();
        assert_eq!(back, kinds);
    }
}

#[test]
fn end_of_the_tokens() {
    assert_eq!(end_at(&tokenize(b"")), Span { start: 0, end: 0 });
    assert_eq!(end_at(&tokenize(b" 12 + 3  ")), Span { start: 7, end: 7 });
}

#[test]
fn unequal_parentheses_are_refused() {
    for text in ["(", ")", "((1)", "(1))", "sin(1", "1)+(2", "(1+2)*(3"] {
        assert!(parse(text).is_err());
    }
}
