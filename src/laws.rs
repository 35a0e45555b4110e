use vstd::prelude::*;
use crate::token::{Token, CalcError, tokens_view, outcome_view};
use crate::postfix::postfix_spec;
use crate::evaluate::{compile_spec, check_spec};

verus! {

/// Converting to postfix keeps no state between calls: any two results that
/// `infix_to_postfix` may give for token sequences with the same view are
/// the same.
pub proof fn lemma_postfix_deterministic(
    a: Vec<Token>,
    b: Vec<Token>,
    ra: Result<Vec<Token>, CalcError>,
    rb: Result<Vec<Token>, CalcError>,
)
    requires
        tokens_view(a@) == tokens_view(b@),
        outcome_view(ra) == postfix_spec(tokens_view(a@)),
        outcome_view(rb) == postfix_spec(tokens_view(b@)),
    ensures
        outcome_view(ra) == outcome_view(rb),
{
}

/// Evaluating keeps no state between calls: for the same expression, any two
/// results that `compile_expression` may give are the same, and so is what
/// `check_postfix` finds in them.
pub proof fn lemma_evaluation_idempotent(
    s: &str,
    ra: Result<Vec<Token>, CalcError>,
    rb: Result<Vec<Token>, CalcError>,
)
    requires
        outcome_view(ra) == compile_spec(s@),
        outcome_view(rb) == compile_spec(s@),
    ensures
        outcome_view(ra) == outcome_view(rb),
        ra is Ok <==> rb is Ok,
        ra is Ok ==> check_spec(tokens_view(ra->Ok_0@)) == check_spec(tokens_view(rb->Ok_0@)),
{
}

} // verus!
