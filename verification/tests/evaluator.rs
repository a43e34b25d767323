//! The integer evaluator and its operation log, driven through the
//! engine's call surface.

use polycalc::engine::Engine;
use polycalc::errors::EvalError;
use polycalc::log::{LogAction, StackKind};

fn ready() -> Engine {
    let mut e = Engine::new();
    assert!(e.init(16).is_ok());
    e
}

#[test]
fn precedence_is_respected() {
    let mut e = ready();
    assert_eq!(e.evaluate_expression("2+3*4"), Ok(14));
}

#[test]
fn parentheses_group() {
    let mut e = ready();
    assert_eq!(e.evaluate_expression("(2+3)*4"), Ok(20));
}

#[test]
fn left_associative_subtraction() {
    let mut e = ready();
    assert_eq!(e.evaluate_expression("10-3-2"), Ok(5));
}

#[test]
fn division_truncates_toward_zero() {
    let mut e = ready();
    assert_eq!(e.evaluate_expression("7/2"), Ok(3));
    assert_eq!(e.evaluate_expression("7/-2"), Ok(-3));
    assert_eq!(e.evaluate_expression("-7/2"), Ok(-3));
}

#[test]
fn division_by_zero_is_reported() {
    let mut e = ready();
    assert_eq!(e.evaluate_expression("1/0"), Err(EvalError::DivisionByZero));
}

#[test]
fn unbalanced_parenthesis_is_reported() {
    let mut e = ready();
    assert_eq!(
        e.evaluate_expression("(1+2"),
        Err(EvalError::MismatchedParentheses)
    );
    assert_eq!(
        e.evaluate_expression("1+2)"),
        Err(EvalError::MismatchedParentheses)
    );
}

#[test]
fn empty_input_is_reported() {
    let mut e = ready();
    assert_eq!(e.evaluate_expression(""), Err(EvalError::EmptyInput));
    assert_eq!(e.evaluate_expression("   "), Err(EvalError::EmptyInput));
}

#[test]
fn unknown_character_is_an_unknown_operator() {
    let mut e = ready();
    assert_eq!(e.evaluate_expression("2%3"), Err(EvalError::UnknownOperator));
}

#[test]
fn dangling_operator_is_invalid() {
    let mut e = ready();
    assert_eq!(e.evaluate_expression("2+"), Err(EvalError::InvalidExpression));
    assert_eq!(e.evaluate_expression("+2"), Err(EvalError::InvalidExpression));
}

#[test]
fn empty_parentheses_give_no_result() {
    let mut e = ready();
    assert_eq!(e.evaluate_expression("()"), Err(EvalError::NoResult));
}

#[test]
fn unary_minus_folds_into_numbers() {
    let mut e = ready();
    assert_eq!(e.evaluate_expression("-5+3"), Ok(-2));
    assert_eq!(e.evaluate_expression("2--3"), Ok(5));
    assert_eq!(e.evaluate_expression("-(2+3)"), Ok(-5));
}

#[test]
fn whitespace_is_ignored() {
    let mut e = ready();
    assert_eq!(e.evaluate_expression(" 2 + 3 * 4 "), Ok(14));
}

#[test]
fn arithmetic_saturates_at_the_word_bounds() {
    let mut e = ready();
    assert_eq!(
        e.evaluate_expression("9223372036854775807+1"),
        Ok(i64::MAX)
    );
    assert_eq!(
        e.evaluate_expression("-9223372036854775808-1"),
        Ok(i64::MIN)
    );
}

#[test]
fn oversized_literal_is_invalid() {
    let mut e = ready();
    assert_eq!(
        e.evaluate_expression("9223372036854775808"),
        Err(EvalError::InvalidExpression)
    );
}

#[test]
fn uninitialized_engine_refuses_evaluation() {
    let mut e = Engine::new();
    assert_eq!(
        e.evaluate_expression("1+1"),
        Err(EvalError::StackNotInitialized)
    );
}

#[test]
fn init_rejects_nonpositive_capacity() {
    let mut e = Engine::new();
    assert_eq!(e.init(0), Err(EvalError::StackNotInitialized));
    assert_eq!(e.init(-4), Err(EvalError::StackNotInitialized));
    assert!(e.init(1).is_ok());
    assert_eq!(e.evaluate_expression("1+1"), Ok(2));
}

#[test]
fn log_balances_pushes_and_pops_on_success() {
    let mut e = ready();
    assert_eq!(e.evaluate_expression("2+3*4"), Ok(14));
    let log = e.query_operation_log();
    let count = |stack: StackKind, action: LogAction| {
        log.iter()
            .filter(|en| en.stack == stack && en.action == action)
            .count()
    };
    let num_push = count(StackKind::Numeric, LogAction::Push);
    let num_pop = count(StackKind::Numeric, LogAction::Pop);
    let sym_push = count(StackKind::Symbolic, LogAction::Push);
    let sym_pop = count(StackKind::Symbolic, LogAction::Pop);
    // three operands and two intermediate results are pushed and,
    // since the stack drains to the final answer, popped again
    assert_eq!(num_push, 5);
    assert_eq!(num_push, num_pop);
    assert_eq!(sym_push, 2);
    assert_eq!(sym_push, sym_pop);
}

#[test]
fn log_timestamps_are_sequential() {
    let mut e = ready();
    assert_eq!(e.evaluate_expression("2+3"), Ok(5));
    let log = e.query_operation_log();
    assert!(!log.is_empty());
    for (i, en) in log.iter().enumerate() {
        assert_eq!(en.timestamp as usize, i);
    }
}

#[test]
fn log_is_reset_by_each_evaluation() {
    let mut e = ready();
    assert_eq!(e.evaluate_expression("2+3*4"), Ok(14));
    let first = e.query_operation_log().len();
    assert_eq!(e.evaluate_expression("1+1"), Ok(2));
    let second = e.query_operation_log().len();
    assert!(second < first);
    // querying twice changes nothing
    assert_eq!(e.query_operation_log().len(), second);
}

#[test]
fn failed_evaluation_keeps_a_partial_log() {
    let mut e = ready();
    assert_eq!(e.evaluate_expression("1/0"), Err(EvalError::DivisionByZero));
    let log = e.query_operation_log();
    // both operands were pushed before the division failed
    let num_push = log
        .iter()
        .filter(|en| en.stack == StackKind::Numeric && en.action == LogAction::Push)
        .count();
    assert_eq!(num_push, 2);
}
