//! Lexical units and the lexer.
use vstd::prelude::*;
use vstd::string::StringSliceAdditionalSpecFns;

verus! {

/// A named constant.
#[derive(Clone, Copy, Debug, PartialEq, Eq, Structural)]
pub enum Constant {
    Pi,
    E,
    Tau,
    Inf,
    Nan,
}

/// A named function of one argument.
#[derive(Clone, Copy, Debug, PartialEq, Eq, Structural)]
pub enum Function {
    Sin,
    Cos,
    Tan,
    Exp,
    Sqrt,
}

/// What a word of the source text stands for.
#[derive(Clone, Copy, Debug, PartialEq, Eq, Structural)]
pub enum Identifier {
    Constant(Constant),
    Function(Function),
}

/// A range of bytes of the source text, `start` included and `end` excluded.
#[derive(Clone, Copy, Debug, PartialEq, Eq, Structural)]
pub struct Span {
    pub start: usize,
    pub end: usize,
}

/// One lexical unit. A numeric literal carries the place of its digits in the
/// source text: a decimal literal of any length is an exact value, and the
/// digits are read at the working precision where the value is needed.
#[derive(Clone, Copy, Debug, PartialEq, Eq, Structural)]
pub enum Token {
    Error,
    Number(Span),
    Plus,
    Minus,
    Star,
    Slash,
    Pow,
    Mod,
    Fact,
    LeftParen,
    RightParen,
    Identifier(Identifier),
}

/// A token together with the bytes of the source that it was read from.
#[derive(Clone, Copy, Debug, PartialEq, Eq, Structural)]
pub struct Spanned {
    pub token: Token,
    pub span: Span,
}

/// The classes of bytes that the lexer reads in runs.
#[derive(Clone, Copy, Debug, PartialEq, Eq, Structural)]
pub enum Class {
    /// `0` to `9`
    Digit,
    /// `a` to `z` and `A` to `Z`
    Letter,
    /// A byte of a UTF-8 character after its first.
    Continuation,
}

/// `0` to `9`.
pub open spec fn is_digit(b: u8) -> bool {
    48u8 <= b <= 57u8
}

/// `a` to `z` and `A` to `Z`.
pub open spec fn is_letter(b: u8) -> bool {
    (97u8 <= b <= 122u8) || (65u8 <= b <= 90u8)
}

/// Space, tab, newline and form feed.
pub open spec fn is_space(b: u8) -> bool {
    b == 32u8 || b == 9u8 || b == 10u8 || b == 12u8
}

/// Whether a byte is of a class.
pub open spec fn in_class(class: Class, b: u8) -> bool {
    match class {
        Class::Digit => is_digit(b),
        Class::Letter => is_letter(b),
        Class::Continuation => 128u8 <= b <= 191u8,
    }
}

/// The end of the longest run of bytes of `class` that starts at `i`.
pub open spec fn run_end(s: Seq<u8>, i: int, class: Class) -> int
    decreases s.len() - i,
{
    if 0 <= i < s.len() && in_class(class, s[i]) {
        run_end(s, i + 1, class)
    } else {
        i
    }
}

/// The bytes of `pi`.
pub open spec fn is_pi(word: Seq<u8>) -> bool {
    word.len() == 2 && word[0] == 112u8 && word[1] == 105u8
}

/// The bytes of `e`.
pub open spec fn is_e(word: Seq<u8>) -> bool {
    word.len() == 1 && word[0] == 101u8
}

/// The bytes of `tau`.
pub open spec fn is_tau(word: Seq<u8>) -> bool {
    word.len() == 3 && word[0] == 116u8 && word[1] == 97u8 && word[2] == 117u8
}

/// The bytes of `inf`.
pub open spec fn is_inf(word: Seq<u8>) -> bool {
    word.len() == 3 && word[0] == 105u8 && word[1] == 110u8 && word[2] == 102u8
}

/// The bytes of `nan`.
pub open spec fn is_nan(word: Seq<u8>) -> bool {
    word.len() == 3 && word[0] == 110u8 && word[1] == 97u8 && word[2] == 110u8
}

/// The bytes of `sin`.
pub open spec fn is_sin(word: Seq<u8>) -> bool {
    word.len() == 3 && word[0] == 115u8 && word[1] == 105u8 && word[2] == 110u8
}

/// The bytes of `cos`.
pub open spec fn is_cos(word: Seq<u8>) -> bool {
    word.len() == 3 && word[0] == 99u8 && word[1] == 111u8 && word[2] == 115u8
}

/// The bytes of `tan`.
pub open spec fn is_tan(word: Seq<u8>) -> bool {
    word.len() == 3 && word[0] == 116u8 && word[1] == 97u8 && word[2] == 110u8
}

/// The bytes of `exp`.
pub open spec fn is_exp(word: Seq<u8>) -> bool {
    word.len() == 3 && word[0] == 101u8 && word[1] == 120u8 && word[2] == 112u8
}

/// The bytes of `sqrt`.
pub open spec fn is_sqrt(word: Seq<u8>) -> bool {
    word.len() == 4 && word[0] == 115u8 && word[1] == 113u8 && word[2] == 114u8 && word[3] == 116u8
}

/// The identifier that a word spells, if it is one of the ten known words.
pub open spec fn resolve(word: Seq<u8>) -> Option<Identifier> {
    if is_pi(word) {
        Some(Identifier::Constant(Constant::Pi))
    } else if is_e(word) {
        Some(Identifier::Constant(Constant::E))
    } else if is_tau(word) {
        Some(Identifier::Constant(Constant::Tau))
    } else if is_inf(word) {
        Some(Identifier::Constant(Constant::Inf))
    } else if is_nan(word) {
        Some(Identifier::Constant(Constant::Nan))
    } else if is_sin(word) {
        Some(Identifier::Function(Function::Sin))
    } else if is_cos(word) {
        Some(Identifier::Function(Function::Cos))
    } else if is_tan(word) {
        Some(Identifier::Function(Function::Tan))
    } else if is_exp(word) {
        Some(Identifier::Function(Function::Exp))
    } else if is_sqrt(word) {
        Some(Identifier::Function(Function::Sqrt))
    } else {
        None
    }
}

fn byte_in_class(class: Class, b: u8) -> (r: bool)
    ensures
        r == in_class(class, b),
{
    match class {
        Class::Digit => 48u8 <= b && b <= 57u8,
        Class::Letter => (97u8 <= b && b <= 122u8) || (65u8 <= b && b <= 90u8),
        Class::Continuation => 128u8 <= b && b <= 191u8,
    }
}

/// Walks over the run of bytes of `class` that starts at `i`.
pub fn scan(src: &[u8], i: usize, class: Class) -> (end: usize)
    requires
        i <= src.len(),
    ensures
        end == run_end(src@, i as int, class),
        i <= end <= src.len(),
{
    let mut j: usize = i;
    while j < src.len() && byte_in_class(class, src[j])
        invariant
            i <= j <= src.len(),
            run_end(src@, i as int, class) == run_end(src@, j as int, class),
        decreases src.len() - j,
    {
        j = j + 1;
    }
    j
}

/// Looks up the word that stands in `src` from `start` to `end`.
pub fn resolve_word(src: &[u8], start: usize, end: usize) -> (r: Option<Identifier>)
    requires
        start <= end <= src.len(),
    ensures
        r == resolve(src@.subrange(start as int, end as int)),
{
    let ghost part = src@.subrange(start as int, end as int);
    let n: usize = end - start;
    if n == 1 {
        let a: u8 = src[start];
        assert(part[0] == a);
        if a == 101 {
            return Some(Identifier::Constant(Constant::E));
        }
        None
    } else if n == 2 {
        let a: u8 = src[start];
        let b: u8 = src[start + 1];
        assert(part[0] == a && part[1] == b);
        if a == 112 && b == 105 {
            return Some(Identifier::Constant(Constant::Pi));
        }
        None
    } else if n == 3 {
        let a: u8 = src[start];
        let b: u8 = src[start + 1];
        let c: u8 = src[start + 2];
        assert(part[0] == a && part[1] == b && part[2] == c);
        if a == 116 && b == 97 && c == 117 {
            Some(Identifier::Constant(Constant::Tau))
        } else if a == 105 && b == 110 && c == 102 {
            Some(Identifier::Constant(Constant::Inf))
        } else if a == 110 && b == 97 && c == 110 {
            Some(Identifier::Constant(Constant::Nan))
        } else if a == 115 && b == 105 && c == 110 {
            Some(Identifier::Function(Function::Sin))
        } else if a == 99 && b == 111 && c == 115 {
            Some(Identifier::Function(Function::Cos))
        } else if a == 116 && b == 97 && c == 110 {
            Some(Identifier::Function(Function::Tan))
        } else if a == 101 && b == 120 && c == 112 {
            Some(Identifier::Function(Function::Exp))
        } else {
            None
        }
    } else if n == 4 {
        let a: u8 = src[start];
        let b: u8 = src[start + 1];
        let c: u8 = src[start + 2];
        let d: u8 = src[start + 3];
        assert(part[0] == a && part[1] == b && part[2] == c && part[3] == d);
        if a == 115 && b == 113 && c == 114 && d == 116 {
            return Some(Identifier::Function(Function::Sqrt));
        }
        None
    } else {
        assert(part.len() == n);
        None
    }
}

impl Identifier {
    /// Resolves a word against the two tables of constants and functions;
    /// any other word is an error.
    pub fn from_str(s: &str) -> (r: Result<Identifier, ()>)
        ensures
            r == match resolve(s.spec_bytes()) {
                Some(id) => Ok::<Identifier, ()>(id),
                None => Err(()),
            },
    {
        let bytes = s.as_bytes();
        assert(bytes@.subrange(0, bytes@.len() as int) =~= bytes@);
        match resolve_word(bytes, 0, bytes.len()) {
            Some(id) => Ok(id),
            None => Err(()),
        }
    }
}

/// Where the token that starts at `pos` ends. A numeric literal is a run of
/// digits, then, if a point and a digit follow, the point and the run of digits
/// after it. A word is a run of letters. `**` is read before `*`. A byte that
/// starts no token is taken together with the rest of its character.
pub open spec fn token_end(s: Seq<u8>, pos: int) -> int
    recommends
        0 <= pos < s.len(),
{
    let b = s[pos];
    if is_digit(b) {
        let e = run_end(s, pos, Class::Digit);
        if e + 1 < s.len() && s[e] == 46u8 && is_digit(s[e + 1]) {
            run_end(s, e + 1, Class::Digit)
        } else {
            e
        }
    } else if is_letter(b) {
        run_end(s, pos, Class::Letter)
    } else if b == 42u8 && pos + 1 < s.len() && s[pos + 1] == 42u8 {
        pos + 2
    } else if b < 128u8 {
        pos + 1
    } else {
        run_end(s, pos + 1, Class::Continuation)
    }
}

/// The token that stands in `s` from `pos` to `end`.
pub open spec fn token_of(s: Seq<u8>, pos: int, end: int) -> Token
    recommends
        0 <= pos < end <= s.len(),
{
    let b = s[pos];
    if is_digit(b) {
        Token::Number(Span { start: pos as usize, end: end as usize })
    } else if is_letter(b) {
        match resolve(s.subrange(pos, end)) {
            Some(id) => Token::Identifier(id),
            None => Token::Error,
        }
    } else if b == 43u8 {
        Token::Plus
    } else if b == 45u8 {
        Token::Minus
    } else if b == 42u8 {
        if end == pos + 2 {
            Token::Pow
        } else {
            Token::Star
        }
    } else if b == 47u8 {
        Token::Slash
    } else if b == 37u8 {
        Token::Mod
    } else if b == 33u8 {
        Token::Fact
    } else if b == 40u8 {
        Token::LeftParen
    } else if b == 41u8 {
        Token::RightParen
    } else {
        Token::Error
    }
}

/// The tokens of `s` from `pos` on, in order, white space left out.
pub open spec fn tokens_from(s: Seq<u8>, pos: int) -> Seq<Spanned>
    decreases s.len() - pos,
{
    if pos < 0 || pos >= s.len() {
        Seq::empty()
    } else if is_space(s[pos]) {
        tokens_from(s, pos + 1)
    } else {
        let end = token_end(s, pos);
        if end <= pos || end > s.len() {
            Seq::empty()
        } else {
            seq![
                Spanned {
                    token: token_of(s, pos, end),
                    span: Span { start: pos as usize, end: end as usize },
                },
            ] + tokens_from(s, end)
        }
    }
}

/// A token ends after the place where it starts, and within the text.
pub proof fn lemma_token_end_advances(s: Seq<u8>, pos: int)
    requires
        0 <= pos < s.len(),
    ensures
        pos < token_end(s, pos) <= s.len(),
{
    lemma_run_is_longest(s, pos, Class::Digit);
    lemma_run_is_longest(s, pos, Class::Letter);
    lemma_run_is_longest(s, pos + 1, Class::Continuation);
    let e = run_end(s, pos, Class::Digit);
    if e + 1 < s.len() {
        lemma_run_is_longest(s, e + 1, Class::Digit);
    }
}

/// Whether the bytes of `s` from `from` up to `to` are all of `class`.
pub open spec fn all_in_class(s: Seq<u8>, from: int, to: int, class: Class) -> bool {
    forall|j: int| from <= j < to ==> in_class(class, #[trigger] s[j])
}

/// Whether `w` is written as a numeric literal is: one digit or more, or that,
/// a point, and one digit or more.
pub open spec fn is_literal(w: Seq<u8>) -> bool {
    exists|k: int|
        0 < k <= w.len() && #[trigger] all_in_class(w, 0, k, Class::Digit) && (k == w.len() || (w[k]
            == 46u8 && k + 1 < w.len() && all_in_class(w, k + 1, w.len() as int, Class::Digit)))
}

/// A run holds bytes of its class only, and is as long as it can be.
pub proof fn lemma_run_is_longest(s: Seq<u8>, i: int, class: Class)
    requires
        0 <= i <= s.len(),
    ensures
        i <= run_end(s, i, class) <= s.len(),
        all_in_class(s, i, run_end(s, i, class), class),
        run_end(s, i, class) < s.len() ==> !in_class(class, s[run_end(s, i, class)]),
    decreases s.len() - i,
{
    if i < s.len() && in_class(class, s[i]) {
        lemma_run_is_longest(s, i + 1, class);
    }
}

/// The text of a number token is written as a numeric literal is.
pub proof fn lemma_number_is_a_literal(s: Seq<u8>, pos: int)
    requires
        0 <= pos < s.len(),
        is_digit(s[pos]),
    ensures
        is_literal(s.subrange(pos, token_end(s, pos))),
{
    lemma_token_end_advances(s, pos);
    lemma_run_is_longest(s, pos, Class::Digit);
    let e = run_end(s, pos, Class::Digit);
    let end = token_end(s, pos);
    let w = s.subrange(pos, end);
    let k = e - pos;
    if end != e {
        lemma_run_is_longest(s, e + 1, Class::Digit);
        assert(e + 1 < end);
    }
    assert forall|j: int| 0 <= j < k implies in_class(Class::Digit, #[trigger] w[j]) by {
        assert(w[j] == s[pos + j]);
    }
    assert forall|j: int| k + 1 <= j < w.len() implies in_class(Class::Digit, #[trigger] w[j]) by {
        assert(w[j] == s[pos + j]);
    }
    assert(all_in_class(w, 0, k, Class::Digit));
}

/// A stretch of bytes of one class that ends at the end of the text or before
/// a byte of another class is a run.
pub proof fn lemma_run_ends_at(s: Seq<u8>, i: int, end: int, class: Class)
    requires
        0 <= i <= end <= s.len(),
        all_in_class(s, i, end, class),
        end == s.len() || !in_class(class, s[end]),
    ensures
        run_end(s, i, class) == end,
    decreases end - i,
{
    if i < end {
        assert(in_class(class, s[i]));
        lemma_run_ends_at(s, i + 1, end, class);
    }
}

/// A text that is written as a numeric literal is, and nothing else, is read
/// as one number token over the whole of it.
pub proof fn lemma_literal_is_one_token(s: Seq<u8>)
    requires
        is_literal(s),
        s.len() <= usize::MAX,
    ensures
        tokens_from(s, 0) == seq![
            Spanned {
                token: Token::Number(Span { start: 0, end: s.len() as usize }),
                span: Span { start: 0, end: s.len() as usize },
            },
        ],
{
    let n = s.len() as int;
    let k = choose|k: int|
        0 < k <= s.len() && #[trigger] all_in_class(s, 0, k, Class::Digit) && (k == s.len() || (s[k]
            == 46u8 && k + 1 < s.len() && all_in_class(s, k + 1, s.len() as int, Class::Digit)));
    assert(in_class(Class::Digit, s[0]));
    lemma_run_ends_at(s, 0, k, Class::Digit);
    if k < n {
        assert(in_class(Class::Digit, s[k + 1]));
        lemma_run_ends_at(s, k + 1, n, Class::Digit);
    }
    assert(token_end(s, 0) == n);
    assert(tokens_from(s, n) =~= Seq::<Spanned>::empty());
    assert(tokens_from(s, 0) =~= seq![
        Spanned {
            token: Token::Number(Span { start: 0, end: s.len() as usize }),
            span: Span { start: 0, end: s.len() as usize },
        },
    ]);
}

/// The tokens stand in the text in the order in which they are listed: each
/// one is at least one byte long, begins at or after `pos` and after the
/// end of the one before it, and ends within the text.
pub proof fn lemma_tokens_in_order(s: Seq<u8>, pos: int)
    requires
        0 <= pos <= s.len() <= usize::MAX,
    ensures
        forall|i: int|
            0 <= i < tokens_from(s, pos).len() ==> {
                let t = #[trigger] tokens_from(s, pos)[i];
                pos <= t.span.start < t.span.end <= s.len()
            },
        forall|i: int, j: int|
            0 <= i < j < tokens_from(s, pos).len() ==> (#[trigger] tokens_from(s, pos)[i]).span.end
                <= (#[trigger] tokens_from(s, pos)[j]).span.start,
    decreases s.len() - pos,
{
    if pos < s.len() {
        if is_space(s[pos]) {
            lemma_tokens_in_order(s, pos + 1);
        } else {
            lemma_token_end_advances(s, pos);
            let end = token_end(s, pos);
            lemma_tokens_in_order(s, end);
            let rest = tokens_from(s, end);
            let all = tokens_from(s, pos);
            assert(all.len() == rest.len() + 1);
            assert forall|i: int| 0 <= i < all.len() implies {
                let t = #[trigger] all[i];
                pos <= t.span.start < t.span.end <= s.len()
            } by {
                if i > 0 {
                    assert(all[i] == rest[i - 1]);
                }
            }
            assert forall|i: int, j: int| 0 <= i < j < all.len() implies (#[trigger] all[i]).span.end
                <= (#[trigger] all[j]).span.start by {
                assert(all[j] == rest[j - 1]);
                if i > 0 {
                    assert(all[i] == rest[i - 1]);
                }
            }
        }
    }
}

/// Whether the byte at `k` is white space or stands within one of the tokens.
pub open spec fn covered(s: Seq<u8>, tokens: Seq<Spanned>, k: int) -> bool {
    is_space(s[k]) || exists|i: int|
        0 <= i < tokens.len() && (#[trigger] tokens[i]).span.start <= k < tokens[i].span.end
}

/// No byte from `pos` on is left out: each is white space or within a token.
pub proof fn lemma_tokens_cover_the_text(s: Seq<u8>, pos: int, k: int)
    requires
        0 <= pos <= k < s.len() <= usize::MAX,
    ensures
        covered(s, tokens_from(s, pos), k),
    decreases s.len() - pos,
{
    let all = tokens_from(s, pos);
    if is_space(s[pos]) {
        if k > pos {
            lemma_tokens_cover_the_text(s, pos + 1, k);
        }
    } else {
        lemma_token_end_advances(s, pos);
        let end = token_end(s, pos);
        let rest = tokens_from(s, end);
        if k < end {
            assert(all[0].span.start <= k < all[0].span.end);
        } else {
            lemma_tokens_cover_the_text(s, end, k);
            if !is_space(s[k]) {
                let i = choose|i: int|
                    0 <= i < rest.len() && (#[trigger] rest[i]).span.start <= k < rest[i].span.end;
                assert(all[i + 1] == rest[i]);
            }
        }
    }
}

/// Reads the one token that starts at `pos`, which is no white space.
pub fn next_token(src: &[u8], pos: usize) -> (r: Spanned)
    requires
        pos < src.len(),
    ensures
        r.span.start == pos,
        r.span.end == token_end(src@, pos as int),
        r.token == token_of(src@, pos as int, r.span.end as int),
        pos < r.span.end <= src.len(),
{
    proof {
        lemma_token_end_advances(src@, pos as int);
    }
    let b: u8 = src[pos];
    if 48 <= b && b <= 57 {
        let e: usize = scan(src, pos, Class::Digit);
        let mut end: usize = e;
        if e < src.len() && src.len() - e > 1 && src[e] == 46 && 48 <= src[e + 1] && src[e + 1] <= 57 {
            end = scan(src, e + 1, Class::Digit);
        }
        let span = Span { start: pos, end };
        Spanned { token: Token::Number(span), span }
    } else if (97 <= b && b <= 122) || (65 <= b && b <= 90) {
        let end: usize = scan(src, pos, Class::Letter);
        let token = match resolve_word(src, pos, end) {
            Some(id) => Token::Identifier(id),
            None => Token::Error,
        };
        Spanned { token, span: Span { start: pos, end } }
    } else if b == 42 && src.len() - pos > 1 && src[pos + 1] == 42 {
        Spanned { token: Token::Pow, span: Span { start: pos, end: pos + 2 } }
    } else if b < 128 {
        let token = if b == 43 {
            Token::Plus
        } else if b == 45 {
            Token::Minus
        } else if b == 42 {
            Token::Star
        } else if b == 47 {
            Token::Slash
        } else if b == 37 {
            Token::Mod
        } else if b == 33 {
            Token::Fact
        } else if b == 40 {
            Token::LeftParen
        } else if b == 41 {
            Token::RightParen
        } else {
            Token::Error
        };
        Spanned { token, span: Span { start: pos, end: pos + 1 } }
    } else {
        let end: usize = scan(src, pos + 1, Class::Continuation);
        Spanned { token: Token::Error, span: Span { start: pos, end } }
    }
}

/// Reads the whole text into tokens. Nothing stops the scan: what is no token
/// comes out as an error token with its place, and the scan goes on behind it.
pub fn tokenize(src: &[u8]) -> (tokens: Vec<Spanned>)
    ensures
        tokens@ == tokens_from(src@, 0),
{
    let mut tokens: Vec<Spanned> = Vec::new();
    let mut pos: usize = 0;
    while pos < src.len()
        invariant
            pos <= src.len(),
            tokens_from(src@, 0) == tokens@ + tokens_from(src@, pos as int),
        decreases src.len() - pos,
    {
        let b: u8 = src[pos];
        if b == 32 || b == 9 || b == 10 || b == 12 {
            pos = pos + 1;
        } else {
            let t = next_token(src, pos);
            let ghost before = tokens@;
            tokens.push(t);
            assert(tokens@ + tokens_from(src@, t.span.end as int) =~= before + (seq![t]
                + tokens_from(src@, t.span.end as int)));
            pos = t.span.end;
        }
    }
    assert(tokens@ + tokens_from(src@, pos as int) =~= tokens@);
    tokens
}

} // verus!
