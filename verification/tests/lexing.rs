use apcalc::token::{
    next_token, resolve_word, scan, tokenize, Class, Constant, Function, Identifier, Span,
    Spanned, Token,
};

fn at(token: Token, start: usize, end: usize) -> Spanned {
    Spanned { token, span: Span { start, end } }
}

fn number(start: usize, end: usize) -> Spanned {
    at(Token::Number(Span { start, end }), start, end)
}

fn kinds(text: &str) -> Vec<Token> {
    tokenize(text.as_bytes()).into_iter().map(|t| t.token).collect()
}

#[test]
fn empty_text_has_no_tokens() {
    assert_eq!(tokenize(b""), vec![]);
    assert_eq!(tokenize(b" \t\n\x0c "), vec![]);
}

#[test]
fn sum_with_spaces() {
    assert_eq!(
        tokenize(b"1 + 22"),
        vec![number(0, 1), at(Token::Plus, 2, 3), number(4, 6)]
    );
}

#[test]
fn every_operator_and_parenthesis() {
    assert_eq!(
        kinds("+-*/**%!()"),
        vec![
            Token::Plus,
            Token::Minus,
            Token::Star,
            Token::Slash,
            Token::Pow,
            Token::Mod,
            Token::Fact,
            Token::LeftParen,
            Token::RightParen,
        ]
    );
}

#[test]
fn power_is_read_before_star() {
    assert_eq!(tokenize(b"**"), vec![at(Token::Pow, 0, 2)]);
    assert_eq!(
        tokenize(b"***"),
        vec![at(Token::Pow, 0, 2), at(Token::Star, 2, 3)]
    );
    assert_eq!(
        tokenize(b"* *"),
        vec![at(Token::Star, 0, 1), at(Token::Star, 2, 3)]
    );
}

#[test]
fn literal_with_fraction() {
    assert_eq!(tokenize(b"3.25"), vec![number(0, 4)]);
    assert_eq!(tokenize(b"  0012.500 "), vec![number(2, 10)]);
}

#[test]
fn literal_text_is_kept_digit_for_digit() {
    let text = "12345678901234567890.000000000000000000001";
    let tokens = tokenize(text.as_bytes());
    assert_eq!(tokens.len(), 1);
    match tokens[0].token {
        Token::Number(digits) => assert_eq!(&text[digits.start..digits.end], text),
        _ => panic!("a literal was expected"),
    }
}

#[test]
fn literal_read_back_as_a_number() {
    let text = " 0.5+2.75 ";
    let tokens = tokenize(text.as_bytes());
    let mut values: Vec<f64> = Vec::new();
    for t in tokens {
        if let Token::Number(digits) = t.token {
            values.push(text[digits.start..digits.end].parse::<f64>().unwrap());
        }
    }
    assert_eq!(values, vec![0.5, 2.75]);
}

#[test]
fn point_without_digits_is_an_error() {
    assert_eq!(tokenize(b"1."), vec![number(0, 1), at(Token::Error, 1, 2)]);
    assert_eq!(tokenize(b".5"), vec![at(Token::Error, 0, 1), number(1, 2)]);
    assert_eq!(
        tokenize(b"1.5.2"),
        vec![number(0, 3), at(Token::Error, 3, 4), number(4, 5)]
    );
}

#[test]
fn the_ten_words() {
    assert_eq!(
        kinds("pi e tau inf nan sin cos tan exp sqrt"),
        vec![
            Token::Identifier(Identifier::Constant(Constant::Pi)),
            Token::Identifier(Identifier::Constant(Constant::E)),
            Token::Identifier(Identifier::Constant(Constant::Tau)),
            Token::Identifier(Identifier::Constant(Constant::Inf)),
            Token::Identifier(Identifier::Constant(Constant::Nan)),
            Token::Identifier(Identifier::Function(Function::Sin)),
            Token::Identifier(Identifier::Function(Function::Cos)),
            Token::Identifier(Identifier::Function(Function::Tan)),
            Token::Identifier(Identifier::Function(Function::Exp)),
            Token::Identifier(Identifier::Function(Function::Sqrt)),
        ]
    );
}

#[test]
fn unknown_word_is_one_error_token() {
    assert_eq!(tokenize(b"foo"), vec![at(Token::Error, 0, 3)]);
    assert_eq!(tokenize(b"sinx"), vec![at(Token::Error, 0, 4)]);
    assert_eq!(tokenize(b"PI"), vec![at(Token::Error, 0, 2)]);
    assert_eq!(tokenize(b"sqr"), vec![at(Token::Error, 0, 3)]);
    assert_eq!(tokenize(b"sqrts"), vec![at(Token::Error, 0, 5)]);
}

#[test]
fn word_ends_at_a_digit() {
    assert_eq!(
        tokenize(b"pi2"),
        vec![
            at(Token::Identifier(Identifier::Constant(Constant::Pi)), 0, 2),
            number(2, 3)
        ]
    );
}

#[test]
fn scan_goes_on_behind_an_error() {
    assert_eq!(
        tokenize(b"1 @ 2"),
        vec![number(0, 1), at(Token::Error, 2, 3), number(4, 5)]
    );
    assert_eq!(
        tokenize(b"@@"),
        vec![at(Token::Error, 0, 1), at(Token::Error, 1, 2)]
    );
}

#[test]
fn error_covers_a_whole_character() {
    let text = "1é2";
    assert_eq!(
        tokenize(text.as_bytes()),
        vec![number(0, 1), at(Token::Error, 1, 3), number(3, 4)]
    );
    let text = "€";
    assert_eq!(tokenize(text.as_bytes()), vec![at(Token::Error, 0, 3)]);
}

#[test]
fn carriage_return_is_no_white_space() {
    assert_eq!(tokenize(b"\r"), vec![at(Token::Error, 0, 1)]);
}

#[test]
fn from_str_knows_the_words() {
    assert_eq!(Identifier::from_str("pi"), Ok(Identifier::Constant(Constant::Pi)));
    assert_eq!(Identifier::from_str("e"), Ok(Identifier::Constant(Constant::E)));
    assert_eq!(Identifier::from_str("tau"), Ok(Identifier::Constant(Constant::Tau)));
    assert_eq!(Identifier::from_str("inf"), Ok(Identifier::Constant(Constant::Inf)));
    assert_eq!(Identifier::from_str("nan"), Ok(Identifier::Constant(Constant::Nan)));
    assert_eq!(Identifier::from_str("sin"), Ok(Identifier::Function(Function::Sin)));
    assert_eq!(Identifier::from_str("cos"), Ok(Identifier::Function(Function::Cos)));
    assert_eq!(Identifier::from_str("tan"), Ok(Identifier::Function(Function::Tan)));
    assert_eq!(Identifier::from_str("exp"), Ok(Identifier::Function(Function::Exp)));
    assert_eq!(Identifier::from_str("sqrt"), Ok(Identifier::Function(Function::Sqrt)));
}

#[test]
fn from_str_refuses_other_words() {
    assert_eq!(Identifier::from_str(""), Err(()));
    assert_eq!(Identifier::from_str("foo"), Err(()));
    assert_eq!(Identifier::from_str("Pi"), Err(()));
    assert_eq!(Identifier::from_str("p"), Err(()));
    assert_eq!(Identifier::from_str("pie"), Err(()));
    assert_eq!(Identifier::from_str("ta"), Err(()));
    assert_eq!(Identifier::from_str("log"), Err(()));
    assert_eq!(Identifier::from_str("sqrt "), Err(()));
}

#[test]
fn resolve_word_reads_the_given_range() {
    assert_eq!(
        resolve_word(b"(tan)", 1, 4),
        Some(Identifier::Function(Function::Tan))
    );
    assert_eq!(resolve_word(b"(tan)", 1, 3), None);
    assert_eq!(resolve_word(b"(tan)", 2, 2), None);
}

#[test]
fn scan_stops_at_the_first_byte_outside_the_class() {
    assert_eq!(scan(b"123abc", 0, Class::Digit), 3);
    assert_eq!(scan(b"123abc", 3, Class::Digit), 3);
    assert_eq!(scan(b"123abc", 3, Class::Letter), 6);
    assert_eq!(scan(b"123abc", 6, Class::Letter), 6);
    assert_eq!(scan("é!".as_bytes(), 1, Class::Continuation), 2);
}

#[test]
fn next_token_reads_one_token() {
    assert_eq!(next_token(b"12.5+1", 0), number(0, 4));
    assert_eq!(next_token(b"12.5+1", 4), at(Token::Plus, 4, 5));
    assert_eq!(next_token(b"12.5+1", 1), number(1, 4));
}

#[test]
fn tokens_stand_in_order_and_cover_the_text() {
    let text = " 12.5**foo(3)\t- é 1. ";
    let bytes = text.as_bytes();
    let tokens = tokenize(bytes);
    let mut at_byte: usize = 0;
    for t in &tokens {
        assert!(at_byte <= t.span.start);
        assert!(t.span.start < t.span.end);
        assert!(t.span.end <= bytes.len());
        for k in at_byte..t.span.start {
            assert!(matches!(bytes[k], b' ' | b'\t' | b'\n' | 12));
        }
        at_byte = t.span.end;
    }
    for k in at_byte..bytes.len() {
        assert!(matches!(bytes[k], b' ' | b'\t' | b'\n' | 12));
    }
    assert_eq!(tokens.len(), 10);
}

#[test]
fn number_token_holds_digits_and_at_most_one_point() {
    let text = "007 1.50 3.14.15 9..9";
    for t in tokenize(text.as_bytes()) {
        if let Token::Number(digits) = t.token {
            assert_eq!(digits, t.span);
            let word = &text[digits.start..digits.end];
            assert!(word.starts_with(|c: char| c.is_ascii_digit()));
            assert!(word.ends_with(|c: char| c.is_ascii_digit()));
            assert!(word.matches('.').count() <= 1);
            assert!(word.chars().all(|c| c.is_ascii_digit() || c == '.'));
        }
    }
}

#[test]
fn literal_alone_is_one_token() {
    for text in ["0", "42", "3.14", "000.000", "98765432109876543210.5"] {
        assert_eq!(tokenize(text.as_bytes()), vec![number(0, text.len())]);
    }
}
