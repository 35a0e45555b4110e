use vstd::prelude::*;

verus! {

/// A binary arithmetic operator.
#[derive(Clone, Copy, Debug, PartialEq, Eq, Structural)]
pub enum Op {
    Add,
    Sub,
    Mul,
    Div,
}

/// A lexical token. A number keeps its source text (an optional leading `-`
/// followed by digits and dots); whether that text is a valid number is
/// decided by `is_number_text`.
#[derive(Clone, Debug, PartialEq, Eq)]
pub enum Token {
    Number(Vec<char>),
    Operator(Op),
    LeftParen,
    RightParen,
}

/// What a token is, with the text of a number as a sequence of characters.
pub enum TokenV {
    Number(Seq<char>),
    Operator(Op),
    LeftParen,
    RightParen,
}

impl View for Token {
    type V = TokenV;

    open spec fn view(&self) -> TokenV {
        match self {
            Token::Number(t) => TokenV::Number(t@),
            Token::Operator(o) => TokenV::Operator(*o),
            Token::LeftParen => TokenV::LeftParen,
            Token::RightParen => TokenV::RightParen,
        }
    }
}

/// The views of a sequence of tokens.
pub open spec fn tokens_view(s: Seq<Token>) -> Seq<TokenV> {
    s.map_values(|t: Token| t@)
}

/// The outcome of a call, with tokens seen through their views.
pub open spec fn outcome_view(r: Result<Vec<Token>, CalcError>) -> Result<Seq<TokenV>, CalcError> {
    match r {
        Ok(v) => Ok(tokens_view(v@)),
        Err(e) => Err(e),
    }
}

/// The errors of the pipeline.
#[derive(Clone, Copy, Debug, PartialEq, Eq, Structural)]
pub enum CalcError {
    /// A character that is not a digit, `.`, an operator, a parenthesis or a space.
    UnexpectedChar(char),
    /// A `(` without its `)`, or a `)` without its `(`.
    MismatchedParens,
    /// An operator applied with fewer than two values available.
    InsufficientOperands,
    /// A divisor equal to zero.
    DivisionByZero,
    /// A postfix token that is neither a number nor an operator.
    UnexpectedToken,
    /// The value stack does not end with exactly one value.
    Unevaluable,
    /// The arithmetic produced an infinite or not-a-number value.
    NonFinite,
}

pub open spec fn is_digit(c: char) -> bool {
    '0' <= c && c <= '9'
}

/// Text made of digits and at most one `.`, holding at least one digit.
pub open spec fn is_unsigned_number_text(s: Seq<char>) -> bool {
    &&& forall|i: int| 0 <= i < s.len() ==> is_digit(#[trigger] s[i]) || s[i] == '.'
    &&& forall|i: int, j: int| 0 <= i < j < s.len() && #[trigger] s[i] == '.' ==> #[trigger] s[j] != '.'
    &&& exists|i: int| 0 <= i < s.len() && is_digit(#[trigger] s[i])
}

/// Text that reads as a decimal number: an optional `-`, then digits with at
/// most one `.` and at least one digit (`12`, `-3.5`, `.5`, `7.`).
pub open spec fn is_number_text(s: Seq<char>) -> bool {
    if s.len() > 0 && s[0] == '-' {
        is_unsigned_number_text(s.drop_first())
    } else {
        is_unsigned_number_text(s)
    }
}

/// Binding strength: 2 for `*` and `/`, 1 for `+` and `-`, 0 for any other token.
pub open spec fn prec_of(t: TokenV) -> int {
    match t {
        TokenV::Operator(Op::Add) | TokenV::Operator(Op::Sub) => 1,
        TokenV::Operator(Op::Mul) | TokenV::Operator(Op::Div) => 2,
        _ => 0,
    }
}

/// Binding strength of a token: 2 for `*` and `/`, 1 for `+` and `-`, 0 otherwise.
pub fn precedence(token: &Token) -> (r: i32)
    ensures
        r == prec_of(token@),
{
    match token {
        Token::Operator(Op::Add) | Token::Operator(Op::Sub) => 1,
        Token::Operator(Op::Mul) | Token::Operator(Op::Div) => 2,
        _ => 0,
    }
}

/// Whether the text reads as a decimal number.
pub fn is_number(text: &Vec<char>) -> (r: bool)
    ensures
        r == is_number_text(text@),
{
    let n = text.len();
    let start: usize = if n > 0 && text[0] == '-' { 1 } else { 0 };
    let ghost body = if start == 1 { text@.drop_first() } else { text@ };
    assert(is_number_text(text@) == is_unsigned_number_text(body));
    let mut dots: usize = 0;
    let mut digits: bool = false;
    let mut i: usize = start;
    while i < n
        invariant
            start <= i <= n,
            n == text@.len(),
            body == text@.subrange(start as int, n as int),
            is_number_text(text@) == is_unsigned_number_text(body),
            forall|j: int| 0 <= j < i - start ==> is_digit(#[trigger] body[j]) || body[j] == '.',
            dots <= 1,
            dots == 0 <==> forall|j: int| 0 <= j < i - start ==> #[trigger] body[j] != '.',
            forall|j: int, k: int| 0 <= j < k < i - start && #[trigger] body[j] == '.' ==> #[trigger] body[k] != '.',
            digits == exists|j: int| 0 <= j < i - start && is_digit(#[trigger] body[j]),
        decreases n - i,
    {
        let c = text[i];
        assert(c == body[i - start]);
        if c == '.' {
            if dots == 1 {
                let ghost j = choose|j: int| 0 <= j < i - start && body[j] == '.';
                assert(body[j] == '.' && body[i - start] == '.');
                assert(!is_unsigned_number_text(body));
                return false;
            }
            dots = dots + 1;
        } else if '0' <= c && c <= '9' {
            digits = true;
        } else {
            assert(!(is_digit(body[i - start]) || body[i - start] == '.'));
            assert(!is_unsigned_number_text(body));
            return false;
        }
        i = i + 1;
    }
    digits
}

} // verus!
