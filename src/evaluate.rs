use vstd::prelude::*;
use crate::token::{CalcError, Token, TokenV, tokens_view, outcome_view, is_number_text, is_number};
use crate::tokenizer::{tokenize_spec, tokenize_expression};
use crate::postfix::{postfix_spec, infix_to_postfix};

verus! {

/// Depth of the value stack after running `toks`, or the index of the first
/// token that cannot run and its error. A number pushes one value; an
/// operator pops two and pushes one, and needs two values; any other token is
/// unexpected.
pub open spec fn scan(toks: Seq<TokenV>) -> Result<nat, (nat, CalcError)>
    decreases toks.len(),
{
    if toks.len() == 0 {
        Ok(0)
    } else {
        match scan(toks.drop_last()) {
            Err(x) => Err(x),
            Ok(d) => match toks.last() {
                TokenV::Number(x) => if is_number_text(x) {
                    Ok(d + 1)
                } else {
                    Err(((toks.len() - 1) as nat, CalcError::UnexpectedToken))
                },
                TokenV::Operator(_) => if d < 2 {
                    Err(((toks.len() - 1) as nat, CalcError::InsufficientOperands))
                } else {
                    Ok((d - 1) as nat)
                },
                _ => Err(((toks.len() - 1) as nat, CalcError::UnexpectedToken)),
            },
        }
    }
}

/// How many leading tokens run, and the error met after them, if any: the
/// error of the first token that cannot run, or, where all run, an
/// unevaluable expression unless exactly one value is left.
pub open spec fn check_spec(toks: Seq<TokenV>) -> (nat, Option<CalcError>) {
    match scan(toks) {
        Ok(d) => (toks.len(), if d == 1 { None } else { Some(CalcError::Unevaluable) }),
        Err((i, e)) => (i, Some(e)),
    }
}

/// The outcome of checking a postfix sequence before its arithmetic: the
/// first `steps` tokens run without a structural fault, and `error` is what
/// comes after them (`None`: the sequence leaves exactly one value).
#[derive(Clone, Copy, Debug, PartialEq, Eq, Structural)]
pub struct PostfixCheck {
    pub steps: usize,
    pub error: Option<CalcError>,
}

proof fn lemma_scan_error_persists(toks: Seq<TokenV>, k: int)
    requires
        0 <= k <= toks.len(),
        scan(toks.take(k)) is Err,
    ensures
        scan(toks) == scan(toks.take(k)),
    decreases toks.len() - k,
{
    if k == toks.len() {
        assert(toks.take(k) =~= toks);
    } else {
        assert(toks.take(k + 1).drop_last() =~= toks.take(k));
        lemma_scan_error_persists(toks, k + 1);
    }
}

/// Runs a postfix sequence on stack depths alone: finds the first token that
/// is neither a number nor an operator, or an operator with fewer than two
/// values below it, and otherwise whether exactly one value is left. These
/// faults do not depend on the values; the arithmetic, and a zero divisor
/// met within the first `steps` tokens, are the caller's.
pub fn check_postfix(postfix: &Vec<Token>) -> (r: PostfixCheck)
    ensures
        (r.steps as nat, r.error) == check_spec(tokens_view(postfix@)),
{
    let ghost toks = tokens_view(postfix@);
    let n = postfix.len();
    let mut depth: usize = 0;
    let mut i: usize = 0;
    assert(toks.take(0) =~= Seq::<TokenV>::empty());
    while i < n
        invariant
            i <= n,
            n == postfix@.len(),
            toks == tokens_view(postfix@),
            depth <= i,
            scan(toks.take(i as int)) == Ok::<nat, (nat, CalcError)>(depth as nat),
        decreases n - i,
    {
        assert(toks.take(i + 1).drop_last() =~= toks.take(i as int));
        assert(toks[i as int] == postfix@[i as int]@);
        let fault = match &postfix[i] {
            Token::Number(x) => if is_number(x) {
                depth = depth + 1;
                None
            } else {
                Some(CalcError::UnexpectedToken)
            },
            Token::Operator(_) => if depth < 2 {
                Some(CalcError::InsufficientOperands)
            } else {
                depth = depth - 1;
                None
            },
            _ => Some(CalcError::UnexpectedToken),
        };
        if let Some(e) = fault {
            proof {
                lemma_scan_error_persists(toks, i + 1);
            }
            return PostfixCheck { steps: i, error: Some(e) };
        }
        i = i + 1;
    }
    assert(toks.take(n as int) =~= toks);
    PostfixCheck { steps: n, error: if depth == 1 { None } else { Some(CalcError::Unevaluable) } }
}

/// The postfix form of an expression, or the first error of tokenizing or
/// converting it.
pub open spec fn compile_spec(s: Seq<char>) -> Result<Seq<TokenV>, CalcError> {
    match tokenize_spec(s) {
        Ok(toks) => postfix_spec(toks),
        Err(e) => Err(e),
    }
}

/// Tokenizes an expression and converts it to postfix order.
pub fn compile_expression(expression: &str) -> (r: Result<Vec<Token>, CalcError>)
    ensures
        outcome_view(r) == compile_spec(expression@),
{
    let tokens = tokenize_expression(expression)?;
    infix_to_postfix(tokens)
}

} // verus!
