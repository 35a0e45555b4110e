use vstd::prelude::*;
use crate::token::{CalcError, Op, TokenV, is_number_text, prec_of};
use crate::postfix::{ConvState, convert_step, convert_prefix, pop_higher, close_group, drain, postfix_spec};
use crate::evaluate::{scan, check_spec};

verus! {

/// An arithmetic expression as a tree: a number, a parenthesized expression,
/// or a binary operation.
pub enum Expr {
    Num(Seq<char>),
    Paren(Box<Expr>),
    Bin(Op, Box<Expr>, Box<Expr>),
}

/// Binding strength of an expression's outermost form: an operation binds as
/// its operator does; numbers and parentheses bind tightest.
pub open spec fn expr_prec(e: Expr) -> int {
    match e {
        Expr::Bin(o, _, _) => prec_of(TokenV::Operator(o)),
        _ => 3,
    }
}

/// A tree that infix text written without extra rules denotes: every number
/// is number text, the left operand of an operator binds at least as tightly
/// as the operator, and the right operand binds more tightly (so `a - b - c`
/// is `(a - b) - c`, and `a + b * c` is `a + (b * c)`).
pub open spec fn well_formed(e: Expr) -> bool
    decreases e,
{
    match e {
        Expr::Num(x) => is_number_text(x),
        Expr::Paren(inner) => well_formed(*inner),
        Expr::Bin(o, l, r) => {
            &&& well_formed(*l)
            &&& well_formed(*r)
            &&& expr_prec(*l) >= prec_of(TokenV::Operator(o))
            &&& expr_prec(*r) > prec_of(TokenV::Operator(o))
        },
    }
}

/// The infix tokens of an expression.
pub open spec fn infix(e: Expr) -> Seq<TokenV>
    decreases e,
{
    match e {
        Expr::Num(x) => seq![TokenV::Number(x)],
        Expr::Paren(inner) => seq![TokenV::LeftParen] + infix(*inner) + seq![TokenV::RightParen],
        Expr::Bin(o, l, r) => infix(*l) + seq![TokenV::Operator(o)] + infix(*r),
    }
}

/// The postfix tokens of an expression: operands first, then the operator.
pub open spec fn rpn(e: Expr) -> Seq<TokenV>
    decreases e,
{
    match e {
        Expr::Num(x) => seq![TokenV::Number(x)],
        Expr::Paren(inner) => rpn(*inner),
        Expr::Bin(o, l, r) => rpn(*l) + rpn(*r) + seq![TokenV::Operator(o)],
    }
}

/// Handling `toks` in order from the state `st`.
pub open spec fn run(st: ConvState, toks: Seq<TokenV>) -> Result<ConvState, CalcError>
    decreases toks.len(),
{
    if toks.len() == 0 {
        Ok(st)
    } else {
        match convert_step(st, toks[0]) {
            Ok(next) => run(next, toks.drop_first()),
            Err(e) => Err(e),
        }
    }
}

pub open spec fn all_operators(s: Seq<TokenV>) -> bool {
    forall|i: int| 0 <= i < s.len() ==> #[trigger] s[i] is Operator
}

pub open spec fn reversed(s: Seq<TokenV>) -> Seq<TokenV> {
    Seq::new(s.len(), |i: int| s[s.len() - 1 - i])
}

proof fn lemma_run_push(st: ConvState, toks: Seq<TokenV>, t: TokenV)
    ensures
        run(st, toks.push(t)) == match run(st, toks) {
            Ok(s) => convert_step(s, t),
            Err(e) => Err(e),
        },
    decreases toks.len(),
{
    if toks.len() == 0 {
        assert(toks.push(t).drop_first() =~= Seq::<TokenV>::empty());
        match convert_step(st, t) {
            Ok(next) => assert(run(next, Seq::<TokenV>::empty()) == Ok::<ConvState, CalcError>(next)),
            Err(_) => {},
        }
    } else {
        assert(toks.push(t).drop_first() =~= toks.drop_first().push(t));
        match convert_step(st, toks[0]) {
            Ok(next) => lemma_run_push(next, toks.drop_first(), t),
            Err(_) => {},
        }
    }
}

proof fn lemma_prefix_is_run(toks: Seq<TokenV>)
    ensures
        convert_prefix(toks) == run((Seq::empty(), Seq::empty()), toks),
    decreases toks.len(),
{
    if toks.len() > 0 {
        lemma_prefix_is_run(toks.drop_last());
        lemma_run_push((Seq::empty(), Seq::empty()), toks.drop_last(), toks.last());
        assert(toks.drop_last().push(toks.last()) =~= toks);
    }
}

proof fn lemma_run_concat(st: ConvState, a: Seq<TokenV>, b: Seq<TokenV>)
    requires
        run(st, a) is Ok,
    ensures
        run(st, a + b) == run(run(st, a)->Ok_0, b),
    decreases a.len(),
{
    if a.len() == 0 {
        assert(a + b =~= b);
    } else {
        assert((a + b).drop_first() =~= a.drop_first() + b);
        lemma_run_concat(convert_step(st, a[0])->Ok_0, a.drop_first(), b);
    }
}

/// Nothing on the stack is popped by an operator of strength `p`.
pub open spec fn blocks(stack: Seq<TokenV>, p: int) -> bool {
    stack.len() == 0 || prec_of(stack.last()) < p
}

pub open spec fn binds_at_least(b: Seq<TokenV>, p: int) -> bool {
    forall|i: int| 0 <= i < b.len() ==> prec_of(#[trigger] b[i]) >= p
}

proof fn lemma_reversed_drop_last(out: Seq<TokenV>, b: Seq<TokenV>)
    requires
        b.len() > 0,
    ensures
        out.push(b.last()) + reversed(b.drop_last()) == out + reversed(b),
{
    assert(out.push(b.last()) + reversed(b.drop_last()) =~= out + reversed(b));
}

proof fn lemma_pop_higher_all(out: Seq<TokenV>, s: Seq<TokenV>, b: Seq<TokenV>, p: int)
    requires
        binds_at_least(b, p),
        blocks(s, p),
    ensures
        pop_higher(out, s + b, p) == (out + reversed(b), s),
    decreases b.len(),
{
    if b.len() == 0 {
        assert(s + b =~= s);
        assert(out + reversed(b) =~= out);
    } else {
        assert((s + b).drop_last() =~= s + b.drop_last());
        assert((s + b).last() == b.last());
        assert(prec_of(b[b.len() - 1]) >= p);
        lemma_pop_higher_all(out.push(b.last()), s, b.drop_last(), p);
        lemma_reversed_drop_last(out, b);
    }
}

proof fn lemma_close_group_all(out: Seq<TokenV>, s: Seq<TokenV>, b: Seq<TokenV>)
    requires
        all_operators(b),
    ensures
        close_group(out, s.push(TokenV::LeftParen) + b) == Some((out + reversed(b), s)),
    decreases b.len(),
{
    if b.len() == 0 {
        assert(s.push(TokenV::LeftParen) + b =~= s.push(TokenV::LeftParen));
        assert(out + reversed(b) =~= out);
        assert(s.push(TokenV::LeftParen).drop_last() =~= s);
    } else {
        assert((s.push(TokenV::LeftParen) + b).drop_last() =~= s.push(TokenV::LeftParen) + b.drop_last());
        assert((s.push(TokenV::LeftParen) + b).last() == b.last());
        assert(b[b.len() - 1] is Operator);
        lemma_close_group_all(out.push(b.last()), s, b.drop_last());
        lemma_reversed_drop_last(out, b);
    }
}

proof fn lemma_drain_all(out: Seq<TokenV>, b: Seq<TokenV>)
    requires
        all_operators(b),
    ensures
        drain(out, b) == Ok::<Seq<TokenV>, CalcError>(out + reversed(b)),
    decreases b.len(),
{
    if b.len() == 0 {
        assert(out + reversed(b) =~= out);
    } else {
        assert(b[b.len() - 1] is Operator);
        lemma_drain_all(out.push(b.last()), b.drop_last());
        lemma_reversed_drop_last(out, b);
    }
}

proof fn lemma_run_single(st: ConvState, t: TokenV)
    ensures
        run(st, seq![t]) == convert_step(st, t),
{
    lemma_run_push(st, Seq::empty(), t);
    assert(Seq::<TokenV>::empty().push(t) =~= seq![t]);
}

/// Handling the infix tokens of a well-formed expression from a stack that
/// they cannot pop appends `a` to the output and pushes operators `b`, where
/// `a` followed by `b` popped in reverse is the expression's postfix order.
proof fn lemma_run_expr(e: Expr, out: Seq<TokenV>, s: Seq<TokenV>) -> (ab: (Seq<TokenV>, Seq<TokenV>))
    requires
        well_formed(e),
        blocks(s, expr_prec(e)),
    ensures
        run((out, s), infix(e)) == Ok::<ConvState, CalcError>((out + ab.0, s + ab.1)),
        all_operators(ab.1),
        binds_at_least(ab.1, expr_prec(e)),
        ab.0 + reversed(ab.1) == rpn(e),
    decreases e,
{
    match e {
        Expr::Num(x) => {
            lemma_run_single((out, s), TokenV::Number(x));
            let b = Seq::<TokenV>::empty();
            assert(s + b =~= s);
            assert(seq![TokenV::Number(x)] + reversed(b) =~= seq![TokenV::Number(x)]);
            assert(out.push(TokenV::Number(x)) =~= out + seq![TokenV::Number(x)]);
            (seq![TokenV::Number(x)], b)
        },
        Expr::Paren(inner) => {
            let lp = seq![TokenV::LeftParen];
            lemma_run_single((out, s), TokenV::LeftParen);
            lemma_run_concat((out, s), lp, infix(*inner));
            let (a, b) = lemma_run_expr(*inner, out, s.push(TokenV::LeftParen));
            assert(out + a == out + a);
            lemma_run_push((out, s), lp + infix(*inner), TokenV::RightParen);
            assert((lp + infix(*inner)).push(TokenV::RightParen) =~= infix(e));
            lemma_close_group_all(out + a, s, b);
            let b2 = Seq::<TokenV>::empty();
            assert(s + b2 =~= s);
            assert((a + reversed(b)) + reversed(b2) =~= a + reversed(b));
            assert(out + a + reversed(b) =~= out + (a + reversed(b)));
            (a + reversed(b), b2)
        },
        Expr::Bin(o, l, r) => {
            let ot = TokenV::Operator(o);
            let p = prec_of(ot);
            let (al, bl) = lemma_run_expr(*l, out, s);
            lemma_run_push((out, s), infix(*l), ot);
            lemma_pop_higher_all(out + al, s, bl, p);
            let out2 = out + al + reversed(bl);
            lemma_run_concat((out, s), infix(*l).push(ot), infix(*r));
            let (ar, br) = lemma_run_expr(*r, out2, s.push(ot));
            assert(infix(*l).push(ot) + infix(*r) =~= infix(e));
            let a = al + reversed(bl) + ar;
            let b = seq![ot] + br;
            assert(out2 + ar =~= out + a);
            assert(s.push(ot) + br =~= s + b);
            assert(reversed(b) =~= reversed(br).push(ot));
            assert(a + reversed(b) =~= (al + reversed(bl)) + (ar + reversed(br)) + seq![ot]);
            assert forall|i: int| 0 <= i < b.len() implies #[trigger] b[i] is Operator && prec_of(b[i]) >= p by {
                if i > 0 {
                    assert(b[i] == br[i - 1]);
                }
            }
            (a, b)
        },
    }
}

proof fn lemma_scan_rpn(pre: Seq<TokenV>, e: Expr, d: nat)
    requires
        well_formed(e),
        scan(pre) == Ok::<nat, (nat, CalcError)>(d),
    ensures
        scan(pre + rpn(e)) == Ok::<nat, (nat, CalcError)>(d + 1),
    decreases e,
{
    match e {
        Expr::Num(x) => {
            assert((pre + rpn(e)).drop_last() =~= pre);
        },
        Expr::Paren(inner) => {
            lemma_scan_rpn(pre, *inner, d);
        },
        Expr::Bin(o, l, r) => {
            lemma_scan_rpn(pre, *l, d);
            lemma_scan_rpn(pre + rpn(*l), *r, d + 1);
            assert((pre + rpn(e)).drop_last() =~= pre + rpn(*l) + rpn(*r));
            assert((pre + rpn(e)).last() == TokenV::Operator(o));
        },
    }
}

/// Conversion follows precedence and left associativity: the infix tokens of
/// every well-formed expression convert to exactly its postfix order
/// (operands before their operator, tighter operators and earlier equal ones
/// applied first), and that postfix order runs with no structural fault,
/// leaving one value.
pub proof fn lemma_infix_converts_to_rpn(e: Expr)
    requires
        well_formed(e),
    ensures
        postfix_spec(infix(e)) == Ok::<Seq<TokenV>, CalcError>(rpn(e)),
        check_spec(rpn(e)) == (rpn(e).len(), None::<CalcError>),
{
    let empty = Seq::<TokenV>::empty();
    lemma_prefix_is_run(infix(e));
    let (a, b) = lemma_run_expr(e, empty, empty);
    assert(empty + a =~= a);
    assert(empty + b =~= b);
    lemma_drain_all(a, b);
    lemma_scan_rpn(empty, e, 0);
    assert(empty + rpn(e) =~= rpn(e));
}

/// The value of an expression, given what a number text is worth and what an
/// operator does to its two operands.
pub open spec fn tree_value<V>(e: Expr, num: spec_fn(Seq<char>) -> V, apply: spec_fn(Op, V, V) -> V) -> V
    decreases e,
{
    match e {
        Expr::Num(x) => num(x),
        Expr::Paren(inner) => tree_value(*inner, num, apply),
        Expr::Bin(o, l, r) => apply(o, tree_value(*l, num, apply), tree_value(*r, num, apply)),
    }
}

/// The value stack after running postfix tokens: a number pushes its value;
/// an operator pops `b` and then `a` and pushes `apply(op, a, b)`; a token
/// that cannot run leaves the stack as it is.
pub open spec fn stack_run<V>(toks: Seq<TokenV>, num: spec_fn(Seq<char>) -> V, apply: spec_fn(Op, V, V) -> V) -> Seq<V>
    decreases toks.len(),
{
    if toks.len() == 0 {
        Seq::empty()
    } else {
        let st = stack_run(toks.drop_last(), num, apply);
        match toks.last() {
            TokenV::Number(x) => st.push(num(x)),
            TokenV::Operator(o) => if st.len() >= 2 {
                st.subrange(0, st.len() - 2).push(apply(o, st[st.len() - 2], st[st.len() - 1]))
            } else {
                st
            },
            _ => st,
        }
    }
}

proof fn lemma_stack_run_rpn<V>(pre: Seq<TokenV>, e: Expr, num: spec_fn(Seq<char>) -> V, apply: spec_fn(Op, V, V) -> V)
    ensures
        stack_run(pre + rpn(e), num, apply) == stack_run(pre, num, apply).push(tree_value(e, num, apply)),
    decreases e,
{
    match e {
        Expr::Num(x) => {
            assert((pre + rpn(e)).drop_last() =~= pre);
        },
        Expr::Paren(inner) => {
            lemma_stack_run_rpn(pre, *inner, num, apply);
        },
        Expr::Bin(o, l, r) => {
            lemma_stack_run_rpn(pre, *l, num, apply);
            lemma_stack_run_rpn(pre + rpn(*l), *r, num, apply);
            assert((pre + rpn(e)).drop_last() =~= pre + rpn(*l) + rpn(*r));
            assert((pre + rpn(e)).last() == TokenV::Operator(o));
            let st = stack_run(pre + rpn(*l) + rpn(*r), num, apply);
            let base = stack_run(pre, num, apply);
            assert(st.subrange(0, st.len() - 2) =~= base);
        },
    }
}

/// Postfix order computes the usual value of an expression: for any meaning
/// of numbers and operators, running the postfix tokens of an expression on a
/// value stack leaves exactly the expression's value.
pub proof fn lemma_rpn_computes_tree_value<V>(e: Expr, num: spec_fn(Seq<char>) -> V, apply: spec_fn(Op, V, V) -> V)
    ensures
        stack_run(rpn(e), num, apply) == seq![tree_value(e, num, apply)],
{
    let empty = Seq::<TokenV>::empty();
    lemma_stack_run_rpn(empty, e, num, apply);
    assert(empty + rpn(e) =~= rpn(e));
    assert(Seq::<V>::empty().push(tree_value(e, num, apply)) =~= seq![tree_value(e, num, apply)]);
}

} // verus!
