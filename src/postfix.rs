use vstd::prelude::*;
use crate::token::{CalcError, Token, TokenV, tokens_view, outcome_view, is_number_text, prec_of, precedence, is_number};

verus! {

/// Output so far, and the operator stack (its top is the last element).
pub type ConvState = (Seq<TokenV>, Seq<TokenV>);

/// Moves operators from the top of the stack to the output while they bind at
/// least as tightly as `p`; a `(` binds at strength 0 and stops it.
pub open spec fn pop_higher(out: Seq<TokenV>, stack: Seq<TokenV>, p: int) -> ConvState
    decreases stack.len(),
{
    if stack.len() > 0 && prec_of(stack.last()) >= p {
        pop_higher(out.push(stack.last()), stack.drop_last(), p)
    } else {
        (out, stack)
    }
}

/// Moves operators to the output down to the nearest `(`, which is dropped;
/// `None` where the stack holds no `(`.
pub open spec fn close_group(out: Seq<TokenV>, stack: Seq<TokenV>) -> Option<ConvState>
    decreases stack.len(),
{
    if stack.len() == 0 {
        None
    } else if stack.last() is LeftParen {
        Some((out, stack.drop_last()))
    } else {
        close_group(out.push(stack.last()), stack.drop_last())
    }
}

/// Handling one infix token. A number token whose text is not a number is
/// passed over.
pub open spec fn convert_step(st: ConvState, t: TokenV) -> Result<ConvState, CalcError> {
    let (out, stack) = st;
    match t {
        TokenV::Number(x) => if is_number_text(x) {
            Ok((out.push(t), stack))
        } else {
            Ok(st)
        },
        TokenV::Operator(_) => {
            let popped = pop_higher(out, stack, prec_of(t));
            Ok((popped.0, popped.1.push(t)))
        },
        TokenV::LeftParen => Ok((out, stack.push(t))),
        TokenV::RightParen => match close_group(out, stack) {
            Some(next) => Ok(next),
            None => Err(CalcError::MismatchedParens),
        },
    }
}

/// The state after handling all of `toks`, or the first error.
pub open spec fn convert_prefix(toks: Seq<TokenV>) -> Result<ConvState, CalcError>
    decreases toks.len(),
{
    if toks.len() == 0 {
        Ok((Seq::empty(), Seq::empty()))
    } else {
        match convert_prefix(toks.drop_last()) {
            Ok(st) => convert_step(st, toks.last()),
            Err(e) => Err(e),
        }
    }
}

/// Moves what is left on the stack to the output, top first; a parenthesis
/// left there is an error.
pub open spec fn drain(out: Seq<TokenV>, stack: Seq<TokenV>) -> Result<Seq<TokenV>, CalcError>
    decreases stack.len(),
{
    if stack.len() == 0 {
        Ok(out)
    } else if stack.last() is LeftParen || stack.last() is RightParen {
        Err(CalcError::MismatchedParens)
    } else {
        drain(out.push(stack.last()), stack.drop_last())
    }
}

/// The postfix form of an infix token sequence.
pub open spec fn postfix_spec(toks: Seq<TokenV>) -> Result<Seq<TokenV>, CalcError> {
    match convert_prefix(toks) {
        Ok((out, stack)) => drain(out, stack),
        Err(e) => Err(e),
    }
}

fn pop_top(stack: &mut Vec<Token>) -> (t: Token)
    requires
        old(stack)@.len() > 0,
    ensures
        t@ == tokens_view(old(stack)@).last(),
        final(stack)@.len() == old(stack)@.len() - 1,
        tokens_view(final(stack)@) == tokens_view(old(stack)@).drop_last(),
{
    let t = stack.pop().unwrap();
    assert(tokens_view(stack@) =~= tokens_view(old(stack)@).drop_last());
    t
}

fn push_token(v: &mut Vec<Token>, t: Token)
    ensures
        tokens_view(final(v)@) == tokens_view(old(v)@).push(t@),
{
    v.push(t);
    assert(tokens_view(v@) =~= tokens_view(old(v)@).push(t@));
}

fn pop_higher_exec(out: &mut Vec<Token>, stack: &mut Vec<Token>, p: i32)
    ensures
        (tokens_view(final(out)@), tokens_view(final(stack)@)) == pop_higher(
            tokens_view(old(out)@),
            tokens_view(old(stack)@),
            p as int,
        ),
{
    while stack.len() > 0 && precedence(&stack[stack.len() - 1]) >= p
        invariant
            pop_higher(tokens_view(out@), tokens_view(stack@), p as int) == pop_higher(
                tokens_view(old(out)@),
                tokens_view(old(stack)@),
                p as int,
            ),
        decreases stack@.len(),
    {
        let top = pop_top(stack);
        push_token(out, top);
    }
}

fn close_group_exec(out: &mut Vec<Token>, stack: &mut Vec<Token>) -> (found: bool)
    ensures
        found <==> close_group(tokens_view(old(out)@), tokens_view(old(stack)@)) is Some,
        found ==> close_group(tokens_view(old(out)@), tokens_view(old(stack)@)) == Some(
            (tokens_view(final(out)@), tokens_view(final(stack)@)),
        ),
{
    while stack.len() > 0
        invariant
            close_group(tokens_view(out@), tokens_view(stack@)) == close_group(
                tokens_view(old(out)@),
                tokens_view(old(stack)@),
            ),
        decreases stack@.len(),
    {
        let top = pop_top(stack);
        match top {
            Token::LeftParen => {
                return true;
            },
            _ => {
                push_token(out, top);
            },
        }
    }
    false
}

fn drain_exec(out0: Vec<Token>, stack0: Vec<Token>) -> (r: Result<Vec<Token>, CalcError>)
    ensures
        outcome_view(r) == drain(tokens_view(out0@), tokens_view(stack0@)),
{
    let mut out = out0;
    let mut stack = stack0;
    while stack.len() > 0
        invariant
            drain(tokens_view(out@), tokens_view(stack@)) == drain(
                tokens_view(out0@),
                tokens_view(stack0@),
            ),
        decreases stack@.len(),
    {
        let top = pop_top(&mut stack);
        match top {
            Token::LeftParen | Token::RightParen => {
                return Err(CalcError::MismatchedParens);
            },
            _ => {
                push_token(&mut out, top);
            },
        }
    }
    Ok(out)
}

/// An error in a prefix is the error of the whole sequence.
proof fn lemma_convert_error_persists(toks: Seq<TokenV>, k: int)
    requires
        0 <= k <= toks.len(),
        convert_prefix(toks.take(k)) is Err,
    ensures
        convert_prefix(toks) == convert_prefix(toks.take(k)),
    decreases toks.len() - k,
{
    if k == toks.len() {
        assert(toks.take(k) =~= toks);
    } else {
        assert(toks.take(k + 1).drop_last() =~= toks.take(k));
        lemma_convert_error_persists(toks, k + 1);
    }
}

/// Converts infix tokens to postfix order (shunting-yard): numbers go to the
/// output as they come; an operator first moves to the output the stacked
/// operators that bind at least as tightly (so equal strengths associate to
/// the left); `)` moves operators out down to its `(`, and is an error where
/// there is none; at the end the stack is emptied onto the output, and a `(`
/// still on it is an error.
pub fn infix_to_postfix(tokens: Vec<Token>) -> (r: Result<Vec<Token>, CalcError>)
    ensures
        outcome_view(r) == postfix_spec(tokens_view(tokens@)),
{
    let ghost input = tokens_view(tokens@);
    let mut rest = tokens;
    let mut out: Vec<Token> = Vec::new();
    let mut stack: Vec<Token> = Vec::new();
    let ghost mut i: int = 0;
    assert(input.take(0) =~= Seq::<TokenV>::empty());
    assert(tokens_view(out@) =~= Seq::<TokenV>::empty());
    assert(tokens_view(stack@) =~= Seq::<TokenV>::empty());
    assert(input.skip(0) =~= input);
    while rest.len() > 0
        invariant
            0 <= i <= input.len(),
            input == tokens_view(tokens@),
            tokens_view(rest@) == input.skip(i),
            rest@.len() == input.len() - i,
            convert_prefix(input.take(i)) == Ok::<ConvState, CalcError>(
                (tokens_view(out@), tokens_view(stack@)),
            ),
        decreases rest@.len(),
    {
        let ghost before = rest@;
        let tok = rest.remove(0);
        assert(tokens_view(before)[0] == tok@);
        assert forall|j: int| 0 <= j < rest@.len() implies tokens_view(rest@)[j] == input.skip(
            i + 1,
        )[j] by {
            assert(rest@[j] == before[j + 1]);
            assert(tokens_view(before)[j + 1] == input.skip(i)[j + 1]);
        }
        assert(tok@ == input[i]);
        assert(tokens_view(rest@) =~= input.skip(i + 1));
        assert(input.take(i + 1).drop_last() =~= input.take(i));
        assert(input.take(i + 1).last() == input[i]);
        match tok {
            Token::Number(x) => {
                if is_number(&x) {
                    push_token(&mut out, Token::Number(x));
                }
            },
            Token::Operator(o) => {
                let p = precedence(&Token::Operator(o));
                pop_higher_exec(&mut out, &mut stack, p);
                push_token(&mut stack, Token::Operator(o));
            },
            Token::LeftParen => {
                push_token(&mut stack, Token::LeftParen);
            },
            Token::RightParen => {
                let ghost st = (tokens_view(out@), tokens_view(stack@));
                if !close_group_exec(&mut out, &mut stack) {
                    assert(convert_prefix(input.take(i + 1)) is Err);
                    proof {
                        lemma_convert_error_persists(input, i + 1);
                    }
                    return Err(CalcError::MismatchedParens);
                }
            },
        }
        proof {
            i = i + 1;
        }
    }
    assert(input.take(i) =~= input);
    drain_exec(out, stack)
}

} // verus!
