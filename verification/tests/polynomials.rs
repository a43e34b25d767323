//! The polynomial side: parser, registry, formatter, derivative,
//! evaluation and the combination engine.

use polycalc::engine::Engine;
use polycalc::errors::PolyError;
use polycalc::parse::parse_polynomial;
use polycalc::poly::Polynomial;
use polycalc::render::to_standard;

#[test]
fn create_and_render_standard_form() {
    let mut e = Engine::new();
    assert!(e.create_polynomial('a', "3x^2+2x-5").is_ok());
    assert_eq!(e.get_polynomial('a').unwrap(), "3x^2+2x-5");
}

#[test]
fn rendering_elides_unit_coefficients_and_exponents() {
    let mut e = Engine::new();
    assert!(e.create_polynomial('a', "1x^1+1").is_ok());
    assert_eq!(e.get_polynomial('a').unwrap(), "x+1");
    assert!(e.create_polynomial('b', "-1x^3-1x").is_ok());
    assert_eq!(e.get_polynomial('b').unwrap(), "-x^3-x");
}

#[test]
fn zero_polynomial_renders_as_zero() {
    let mut e = Engine::new();
    assert!(e.create_polynomial('a', "x-x").is_ok());
    assert_eq!(e.get_polynomial('a').unwrap(), "0");
    assert_eq!(e.term_count('a').unwrap(), 0);
}

#[test]
fn duplicate_exponents_are_summed() {
    let mut e = Engine::new();
    assert!(e.create_polynomial('a', "x+x+2x^2+3").is_ok());
    assert_eq!(e.get_polynomial('a').unwrap(), "2x^2+2x+3");
}

#[test]
fn whitespace_is_ignored_in_literals() {
    let mut e = Engine::new();
    assert!(e.create_polynomial('a', " 3x^2 + 2x - 5 ").is_ok());
    assert_eq!(e.get_polynomial('a').unwrap(), "3x^2+2x-5");
}

#[test]
fn latex_form_uses_braced_exponents() {
    let mut e = Engine::new();
    assert!(e.create_polynomial('a', "3x^2+2x-5").is_ok());
    let out = e.get_polynomial_with_latex('a').unwrap();
    assert_eq!(out.standard, "3x^2+2x-5");
    assert_eq!(out.latex, "3x^{2}+2x-5");
}

#[test]
fn parser_rejects_malformed_terms() {
    let mut e = Engine::new();
    assert_eq!(
        e.create_polynomial('a', "x^"),
        Err(PolyError::ParseError)
    );
    assert_eq!(
        e.create_polynomial('a', "^2"),
        Err(PolyError::ParseError)
    );
    assert_eq!(
        e.create_polynomial('a', "3x2"),
        Err(PolyError::ParseError)
    );
    assert_eq!(
        e.create_polynomial('a', "x++1"),
        Err(PolyError::ParseError)
    );
}

#[test]
fn parser_rejects_foreign_characters() {
    let mut e = Engine::new();
    assert_eq!(
        e.create_polynomial('a', "3y+1"),
        Err(PolyError::InvalidCharacter)
    );
}

#[test]
fn parser_rejects_empty_input() {
    let mut e = Engine::new();
    assert_eq!(
        e.create_polynomial('a', ""),
        Err(PolyError::EmptyExpression)
    );
}

#[test]
fn parser_rejects_numbers_beyond_the_machine() {
    let mut e = Engine::new();
    assert_eq!(
        e.create_polynomial('a', "x^64"),
        Err(PolyError::InputFormatInvalid)
    );
    assert_eq!(
        e.create_polynomial('a', "9223372036854775808"),
        Err(PolyError::InputFormatInvalid)
    );
    // the most negative machine word is still a valid coefficient
    assert!(e.create_polynomial('a', "-9223372036854775808").is_ok());
    assert_eq!(e.get_polynomial('a').unwrap(), "-9223372036854775808");
}

#[test]
fn invalid_names_are_rejected_everywhere() {
    let mut e = Engine::new();
    assert_eq!(
        e.create_polynomial('z', "x+1"),
        Err(PolyError::InvalidName)
    );
    assert_eq!(e.get_polynomial('z'), Err(PolyError::InvalidName));
    match e.get_polynomial_with_latex('z') {
        Err(err) => assert_eq!(err, PolyError::InvalidName),
        Ok(_) => panic!("invalid name accepted"),
    }
    assert_eq!(e.evaluate_polynomial('z', 1), Err(PolyError::InvalidName));
    assert_eq!(e.derivative('z'), Err(PolyError::InvalidName));
    assert_eq!(e.term_count('z'), Err(PolyError::InvalidName));
    assert!(!e.polynomial_exists('z'));
}

#[test]
fn absent_slots_are_not_found() {
    let e = Engine::new();
    assert_eq!(e.get_polynomial('a'), Err(PolyError::NotFound));
    assert_eq!(e.evaluate_polynomial('b', 1), Err(PolyError::NotFound));
    assert_eq!(e.derivative('c'), Err(PolyError::NotFound));
    assert_eq!(e.term_count('d'), Err(PolyError::NotFound));
}

#[test]
fn create_replaces_an_occupied_slot() {
    let mut e = Engine::new();
    assert!(e.create_polynomial('a', "x+1").is_ok());
    assert!(e.create_polynomial('a', "x^3").is_ok());
    assert_eq!(e.get_polynomial('a').unwrap(), "x^3");
}

#[test]
fn evaluate_polynomial_at_a_point() {
    let mut e = Engine::new();
    assert!(e.create_polynomial('a', "3x^2+2x-5").is_ok());
    assert_eq!(e.evaluate_polynomial('a', 2), Ok(11));
    assert_eq!(e.evaluate_polynomial('a', 0), Ok(-5));
    assert_eq!(e.evaluate_polynomial('a', -1), Ok(-4));
}

#[test]
fn polynomial_evaluation_reports_overflow() {
    let mut e = Engine::new();
    assert!(e.create_polynomial('a', "x^63").is_ok());
    assert_eq!(e.evaluate_polynomial('a', 2), Err(PolyError::Overflow));
    assert_eq!(e.evaluate_polynomial('a', 1), Ok(1));
}

#[test]
fn derivative_follows_the_power_rule() {
    let mut e = Engine::new();
    assert!(e.create_polynomial('a', "3x^2+2x-5").is_ok());
    assert_eq!(e.derivative('a').unwrap(), "6x+2");
    let both = e.derivative_with_latex('a').unwrap();
    assert_eq!(both.standard, "6x+2");
    assert_eq!(both.latex, "6x+2");
}

#[test]
fn derivative_latex_braces_exponents() {
    let mut e = Engine::new();
    assert!(e.create_polynomial('a', "x^3").is_ok());
    let both = e.derivative_with_latex('a').unwrap();
    assert_eq!(both.standard, "3x^2");
    assert_eq!(both.latex, "3x^{2}");
}

#[test]
fn derivative_of_a_constant_is_zero() {
    let mut e = Engine::new();
    assert!(e.create_polynomial('a', "42").is_ok());
    assert_eq!(e.derivative('a').unwrap(), "0");
}

#[test]
fn derivative_reports_overflow() {
    let mut e = Engine::new();
    assert!(e.create_polynomial('a', "9223372036854775807x^2").is_ok());
    assert_eq!(e.derivative('a'), Err(PolyError::Overflow));
}

#[test]
fn registry_lists_names_in_fixed_order() {
    let mut e = Engine::new();
    assert!(e.create_polynomial('c', "x").is_ok());
    assert!(e.create_polynomial('a', "x+1").is_ok());
    assert_eq!(e.list_polynomial_names(), vec!['a', 'c']);
    assert!(e.polynomial_exists('a'));
    assert!(!e.polynomial_exists('b'));
    assert!(e.clear_all_polynomials().is_ok());
    assert_eq!(e.list_polynomial_names(), Vec::<char>::new());
    assert!(!e.polynomial_exists('a'));
}

#[test]
fn term_count_counts_stored_terms() {
    let mut e = Engine::new();
    assert!(e.create_polynomial('a', "3x^2+2x-5").is_ok());
    assert_eq!(e.term_count('a'), Ok(3));
}

#[test]
fn combine_adds_named_polynomials() {
    let mut e = Engine::new();
    assert!(e.create_polynomial('a', "x+1").is_ok());
    assert!(e.create_polynomial('b', "x-1").is_ok());
    assert_eq!(e.combine("a+b").unwrap(), "2x");
}

#[test]
fn combine_respects_precedence_and_parentheses() {
    let mut e = Engine::new();
    assert!(e.create_polynomial('a', "x+1").is_ok());
    assert!(e.create_polynomial('b', "x-1").is_ok());
    assert_eq!(e.combine("a*b").unwrap(), "x^2-1");
    assert_eq!(e.combine("a+a*b").unwrap(), "x^2+x");
    assert_eq!(e.combine("(a+a)*b").unwrap(), "2x^2-2");
    let both = e.combine_with_latex("a*a").unwrap();
    assert_eq!(both.standard, "x^2+2x+1");
    assert_eq!(both.latex, "x^{2}+2x+1");
}

#[test]
fn combine_reports_each_failure_kind() {
    let mut e = Engine::new();
    assert!(e.create_polynomial('a', "x+1").is_ok());
    assert_eq!(e.combine(""), Err(PolyError::EmptyExpression));
    assert_eq!(e.combine("a+q"), Err(PolyError::InvalidCharacter));
    assert_eq!(e.combine("a/a"), Err(PolyError::UnknownOperator));
    assert_eq!(e.combine("a+b"), Err(PolyError::NotFound));
    assert_eq!(e.combine("(a+a"), Err(PolyError::MismatchedParentheses));
    assert_eq!(e.combine("a+"), Err(PolyError::ParseError));
    assert!(e.create_polynomial('b', "x^32").is_ok());
    assert_eq!(e.combine("b*b*b"), Err(PolyError::InputFormatInvalid));
}

#[test]
fn round_trip_is_stable() {
    let texts = ["3x^2-2x+5", "x", "-x^63+7", "0", "10x^5+x^4-x-9223372036854775808"];
    for text in texts.iter() {
        let p = parse_polynomial(text).unwrap();
        let rendered = to_standard(&p);
        let q = parse_polynomial(&rendered).unwrap();
        assert_eq!(to_standard(&q), rendered);
        assert_eq!(q.terms, p.terms);
    }
}

#[test]
fn derivative_is_linear_on_samples() {
    let p = parse_polynomial("3x^4+2x-5").unwrap();
    let q = parse_polynomial("-x^4+x^2+9").unwrap();
    let sum: Polynomial = p.add(&q).unwrap();
    let left = sum.derivative().unwrap();
    let dp = p.derivative().unwrap();
    let dq = q.derivative().unwrap();
    let right = dp.add(&dq).unwrap();
    assert_eq!(left.terms, right.terms);
    assert_eq!(to_standard(&left), "8x^3+2x+2");
}
