use vstd::prelude::*;
use vstd::string::StrSliceExecFns;
use crate::token::{CalcError, Op, Token, TokenV, tokens_view, outcome_view, is_digit};

verus! {

/// Tokens so far, and the text of the number being read.
pub type LexState = (Seq<TokenV>, Seq<char>);

/// Ends the number being read: a lone `-` is the subtraction operator, any
/// other non-empty text becomes a number token.
pub open spec fn flush(tokens: Seq<TokenV>, buf: Seq<char>) -> Seq<TokenV> {
    if buf.len() == 0 {
        tokens
    } else if buf == seq!['-'] {
        tokens.push(TokenV::Operator(Op::Sub))
    } else {
        tokens.push(TokenV::Number(buf))
    }
}

/// A `-` read here starts a negative number: at the start, or after an
/// operator or a `(`.
pub open spec fn minus_is_sign(tokens: Seq<TokenV>) -> bool {
    tokens.len() == 0 || tokens.last() is Operator || tokens.last() is LeftParen
}

/// The token of a one-character operator or parenthesis.
pub open spec fn symbol_token(c: char) -> Option<TokenV> {
    if c == '+' {
        Some(TokenV::Operator(Op::Add))
    } else if c == '-' {
        Some(TokenV::Operator(Op::Sub))
    } else if c == '*' {
        Some(TokenV::Operator(Op::Mul))
    } else if c == '/' {
        Some(TokenV::Operator(Op::Div))
    } else if c == '(' {
        Some(TokenV::LeftParen)
    } else if c == ')' {
        Some(TokenV::RightParen)
    } else {
        None
    }
}

/// Reading one character.
pub open spec fn lex_step(st: LexState, c: char) -> Result<LexState, CalcError> {
    let (tokens, buf) = st;
    if is_digit(c) || c == '.' {
        Ok((tokens, buf.push(c)))
    } else {
        let t = flush(tokens, buf);
        if c == '-' && minus_is_sign(t) {
            Ok((t, seq!['-']))
        } else if symbol_token(c) is Some {
            Ok((t.push(symbol_token(c)->0), Seq::empty()))
        } else if c == ' ' {
            Ok((t, Seq::empty()))
        } else {
            Err(CalcError::UnexpectedChar(c))
        }
    }
}

/// The state after reading all of `s`, or the first error.
pub open spec fn lex_prefix(s: Seq<char>) -> Result<LexState, CalcError>
    decreases s.len(),
{
    if s.len() == 0 {
        Ok((Seq::empty(), Seq::empty()))
    } else {
        match lex_prefix(s.drop_last()) {
            Ok(st) => lex_step(st, s.last()),
            Err(e) => Err(e),
        }
    }
}

/// The tokens of an expression.
pub open spec fn tokenize_spec(s: Seq<char>) -> Result<Seq<TokenV>, CalcError> {
    match lex_prefix(s) {
        Ok((tokens, buf)) => Ok(flush(tokens, buf)),
        Err(e) => Err(e),
    }
}

/// An error in a prefix is the error of the whole text.
proof fn lemma_lex_error_persists(s: Seq<char>, k: int)
    requires
        0 <= k <= s.len(),
        lex_prefix(s.take(k)) is Err,
    ensures
        lex_prefix(s) == lex_prefix(s.take(k)),
    decreases s.len() - k,
{
    if k == s.len() {
        assert(s.take(k) =~= s);
    } else {
        assert(s.take(k + 1).drop_last() =~= s.take(k));
        lemma_lex_error_persists(s, k + 1);
    }
}

fn push_token(tokens: &mut Vec<Token>, t: Token)
    ensures
        tokens_view(final(tokens)@) == tokens_view(old(tokens)@).push(t@),
{
    tokens.push(t);
    assert(tokens_view(tokens@) =~= tokens_view(old(tokens)@).push(t@));
}

fn flush_buffer(tokens: &mut Vec<Token>, buf: Vec<char>)
    ensures
        tokens_view(final(tokens)@) == flush(tokens_view(old(tokens)@), buf@),
{
    if buf.len() == 0 {
    } else if buf.len() == 1 && buf[0] == '-' {
        assert(buf@ =~= seq!['-']);
        push_token(tokens, Token::Operator(Op::Sub));
    } else {
        assert(buf@ != seq!['-']);
        push_token(tokens, Token::Number(buf));
    }
}

fn minus_starts_number(tokens: &Vec<Token>) -> (r: bool)
    ensures
        r == minus_is_sign(tokens_view(tokens@)),
{
    if tokens.len() == 0 {
        true
    } else {
        match &tokens[tokens.len() - 1] {
            Token::Operator(_) | Token::LeftParen => true,
            _ => false,
        }
    }
}

fn symbol(c: char) -> (r: Option<Token>)
    ensures
        match r {
            Some(t) => symbol_token(c) == Some(t@),
            None => symbol_token(c) is None,
        },
{
    if c == '+' {
        Some(Token::Operator(Op::Add))
    } else if c == '-' {
        Some(Token::Operator(Op::Sub))
    } else if c == '*' {
        Some(Token::Operator(Op::Mul))
    } else if c == '/' {
        Some(Token::Operator(Op::Div))
    } else if c == '(' {
        Some(Token::LeftParen)
    } else if c == ')' {
        Some(Token::RightParen)
    } else {
        None
    }
}

/// Splits an expression into number, operator and parenthesis tokens.
/// Digits and dots gather into a number; a `-` at the start or after an
/// operator or `(` begins a negative number; spaces separate tokens; any
/// other character is an error.
pub fn tokenize_expression(expression: &str) -> (r: Result<Vec<Token>, CalcError>)
    ensures
        outcome_view(r) == tokenize_spec(expression@),
{
    let n = expression.unicode_len();
    let mut tokens: Vec<Token> = Vec::new();
    let mut buf: Vec<char> = Vec::new();
    let mut i: usize = 0;
    assert(expression@.take(0) =~= Seq::<char>::empty());
    assert(tokens_view(tokens@) =~= Seq::<TokenV>::empty());
    while i < n
        invariant
            i <= n,
            n == expression@.len(),
            lex_prefix(expression@.take(i as int)) == Ok::<LexState, CalcError>((tokens_view(tokens@), buf@)),
        decreases n - i,
    {
        let c = expression.get_char(i);
        assert(expression@.take(i + 1).drop_last() =~= expression@.take(i as int));
        if ('0' <= c && c <= '9') || c == '.' {
            buf.push(c);
        } else {
            let ghost t = flush(tokens_view(tokens@), buf@);
            flush_buffer(&mut tokens, buf);
            buf = Vec::new();
            if c == '-' && minus_starts_number(&tokens) {
                buf.push(c);
                assert(buf@ =~= seq!['-']);
            } else {
                match symbol(c) {
                    Some(tok) => {
                        push_token(&mut tokens, tok);
                    },
                    None => {
                        if c != ' ' {
                            proof {
                                lemma_lex_error_persists(expression@, i + 1);
                            }
                            return Err(CalcError::UnexpectedChar(c));
                        }
                    },
                }
                assert(buf@ =~= Seq::<char>::empty());
            }
        }
        i = i + 1;
    }
    assert(expression@.take(n as int) =~= expression@);
    flush_buffer(&mut tokens, buf);
    Ok(tokens)
}

} // verus!
