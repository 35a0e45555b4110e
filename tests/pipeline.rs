use calculator::evaluate::{check_postfix, compile_expression, PostfixCheck};
use calculator::postfix::infix_to_postfix;
use calculator::token::{is_number, precedence, CalcError, Op, Token};
use calculator::tokenizer::tokenize_expression;

fn num(text: &str) -> Token {
    Token::Number(text.chars().collect())
}

fn op(o: Op) -> Token {
    Token::Operator(o)
}

/// Runs checked postfix tokens with floating-point values.
fn run(postfix: &Vec<Token>) -> Result<f64, CalcError> {
    let check = check_postfix(postfix);
    let mut stack: Vec<f64> = Vec::new();
    for token in &postfix[..check.steps] {
        match token {
            Token::Number(text) => stack.push(text.iter().collect::<String>().parse().unwrap()),
            Token::Operator(o) => {
                let b = stack.pop().unwrap();
                let a = stack.pop().unwrap();
                stack.push(match o {
                    Op::Add => a + b,
                    Op::Sub => a - b,
                    Op::Mul => a * b,
                    Op::Div => {
                        if b == 0.0 {
                            return Err(CalcError::DivisionByZero);
                        }
                        a / b
                    }
                });
            }
            _ => unreachable!(),
        }
    }
    match check.error {
        Some(e) => Err(e),
        None => Ok(stack[0]),
    }
}

fn evaluate(expression: &str) -> Result<f64, CalcError> {
    run(&compile_expression(expression)?)
}

#[test]
fn tokenize_absorbs_unary_minus() {
    assert_eq!(
        tokenize_expression("-3 + 4"),
        Ok(vec![num("-3"), op(Op::Add), num("4")])
    );
}

#[test]
fn tokenize_keeps_binary_minus() {
    assert_eq!(
        tokenize_expression("3 - 4"),
        Ok(vec![num("3"), op(Op::Sub), num("4")])
    );
}

#[test]
fn tokenize_minus_after_operator_and_paren() {
    assert_eq!(
        tokenize_expression("2 - -3"),
        Ok(vec![num("2"), op(Op::Sub), num("-3")])
    );
    assert_eq!(
        tokenize_expression("(-1)"),
        Ok(vec![Token::LeftParen, num("-1"), Token::RightParen])
    );
}

#[test]
fn tokenize_double_minus_gives_operator_then_number() {
    assert_eq!(tokenize_expression("--3"), Ok(vec![op(Op::Sub), num("-3")]));
}

#[test]
fn tokenize_keeps_malformed_number_text() {
    assert_eq!(
        tokenize_expression("1.2.3*.5"),
        Ok(vec![num("1.2.3"), op(Op::Mul), num(".5")])
    );
}

#[test]
fn tokenize_empty_and_spaces() {
    assert_eq!(tokenize_expression(""), Ok(vec![]));
    assert_eq!(tokenize_expression("   "), Ok(vec![]));
}

#[test]
fn tokenize_rejects_letters() {
    assert_eq!(tokenize_expression("abc"), Err(CalcError::UnexpectedChar('a')));
    assert_eq!(tokenize_expression("1 + x"), Err(CalcError::UnexpectedChar('x')));
}

#[test]
fn tokenize_rejects_tab() {
    assert_eq!(tokenize_expression("1\t+ 2"), Err(CalcError::UnexpectedChar('\t')));
}

#[test]
fn precedence_values() {
    assert_eq!(precedence(&op(Op::Add)), 1);
    assert_eq!(precedence(&op(Op::Sub)), 1);
    assert_eq!(precedence(&op(Op::Mul)), 2);
    assert_eq!(precedence(&op(Op::Div)), 2);
    assert_eq!(precedence(&Token::LeftParen), 0);
    assert_eq!(precedence(&num("1")), 0);
}

#[test]
fn number_text_recognition() {
    for t in ["12", "-3.5", ".5", "7.", "0"] {
        assert!(is_number(&t.chars().collect()), "{}", t);
    }
    for t in ["", ".", "-", "-.", "1.2.3", "--1"] {
        assert!(!is_number(&t.chars().collect()), "{}", t);
    }
}

#[test]
fn postfix_multiplication_binds_tighter() {
    let postfix = compile_expression("2 + 3 * 4").unwrap();
    assert_eq!(
        postfix,
        vec![num("2"), num("3"), num("4"), op(Op::Mul), op(Op::Add)]
    );
    assert_eq!(evaluate("2 + 3 * 4"), Ok(14.0));
}

#[test]
fn postfix_parentheses_override_precedence() {
    let postfix = compile_expression("(2 + 3) * 4").unwrap();
    assert_eq!(
        postfix,
        vec![num("2"), num("3"), op(Op::Add), num("4"), op(Op::Mul)]
    );
    assert_eq!(evaluate("(2 + 3) * 4"), Ok(20.0));
}

#[test]
fn postfix_left_associative() {
    assert_eq!(
        compile_expression("8 - 3 - 2").unwrap(),
        vec![num("8"), num("3"), op(Op::Sub), num("2"), op(Op::Sub)]
    );
    assert_eq!(evaluate("8 - 3 - 2"), Ok(3.0));
    assert_eq!(evaluate("8 / 4 * 2"), Ok(4.0));
}

#[test]
fn evaluate_decimals_and_negatives() {
    assert_eq!(evaluate("3 * -2"), Ok(-6.0));
    assert_eq!(evaluate("1.5 + .5"), Ok(2.0));
    assert_eq!(evaluate("2 * (3 + 4) - 10 / 5"), Ok(12.0));
}

#[test]
fn division_by_zero_is_reported() {
    let postfix = compile_expression("5 / 0").unwrap();
    assert_eq!(postfix, vec![num("5"), num("0"), op(Op::Div)]);
    assert_eq!(check_postfix(&postfix), PostfixCheck { steps: 3, error: None });
    assert_eq!(evaluate("5 / 0"), Err(CalcError::DivisionByZero));
}

#[test]
fn division_by_zero_comes_before_a_later_fault() {
    let postfix = compile_expression("1 / 0 +").unwrap();
    assert_eq!(
        check_postfix(&postfix),
        PostfixCheck { steps: 3, error: Some(CalcError::InsufficientOperands) }
    );
    assert_eq!(evaluate("1 / 0 +"), Err(CalcError::DivisionByZero));
}

#[test]
fn unmatched_closing_paren_is_an_error() {
    assert_eq!(compile_expression("2 + )"), Err(CalcError::MismatchedParens));
}

#[test]
fn unmatched_opening_paren_is_an_error() {
    assert_eq!(compile_expression("(1 + 2"), Err(CalcError::MismatchedParens));
    assert_eq!(evaluate("((1)"), Err(CalcError::MismatchedParens));
}

#[test]
fn letters_are_a_lexical_error() {
    assert_eq!(evaluate("abc"), Err(CalcError::UnexpectedChar('a')));
}

#[test]
fn empty_expression_is_unevaluable() {
    let postfix = compile_expression("").unwrap();
    assert_eq!(check_postfix(&postfix), PostfixCheck { steps: 0, error: Some(CalcError::Unevaluable) });
}

#[test]
fn two_numbers_without_operator_are_unevaluable() {
    assert_eq!(evaluate("1 2"), Err(CalcError::Unevaluable));
}

#[test]
fn malformed_number_is_passed_over_in_conversion() {
    let postfix = compile_expression("1.2.3 + 4").unwrap();
    assert_eq!(postfix, vec![num("4"), op(Op::Add)]);
    assert_eq!(
        check_postfix(&postfix),
        PostfixCheck { steps: 1, error: Some(CalcError::InsufficientOperands) }
    );
}

#[test]
fn unexpected_token_in_postfix() {
    assert_eq!(
        check_postfix(&vec![num("1"), Token::LeftParen]),
        PostfixCheck { steps: 1, error: Some(CalcError::UnexpectedToken) }
    );
    assert_eq!(
        check_postfix(&vec![num(".")]),
        PostfixCheck { steps: 0, error: Some(CalcError::UnexpectedToken) }
    );
}

#[test]
fn evaluation_is_idempotent() {
    let e = "2 * (3 - 1) / 4";
    assert_eq!(compile_expression(e), compile_expression(e));
    assert_eq!(evaluate(e), evaluate(e));
    assert_eq!(evaluate(e), Ok(1.0));
}

#[test]
fn postfix_conversion_is_deterministic() {
    let tokens = tokenize_expression("1 + 2 * (3 - 4) / 5").unwrap();
    let a = infix_to_postfix(tokens.clone()).unwrap();
    let b = infix_to_postfix(tokens).unwrap();
    assert_eq!(a, b);
    assert_eq!(
        a,
        vec![
            num("1"),
            num("2"),
            num("3"),
            num("4"),
            op(Op::Sub),
            op(Op::Mul),
            num("5"),
            op(Op::Div),
            op(Op::Add)
        ]
    );
}

#[test]
fn redundant_parentheses_are_transparent() {
    assert_eq!(
        compile_expression("((2)) + (3)").unwrap(),
        vec![num("2"), num("3"), op(Op::Add)]
    );
    assert_eq!(evaluate("((2)) + (3)"), Ok(5.0));
}

#[test]
fn nested_groups_follow_precedence() {
    assert_eq!(evaluate("2 * (3 + (4 - 1) * 2) / 3"), Ok(6.0));
    assert_eq!(evaluate("10 - 2 * 3 + 1"), Ok(5.0));
}
