//! The engine: one owned state object holding the operation log and
//! the polynomial registry, with the synchronous call surface of the
//! whole system. Calls are meant to be serialized by the caller; the
//! engine itself holds no lock.

use vstd::prelude::*;

verus! {

use crate::combine::{PolyOutcome, comb_chars_ok, combine_polynomials, has_div, run_combine};
use crate::errors::{EvalError, PolyError};
use crate::eval::{calc_chars_ok, evaluate_tokens, run_eval, scan_tokens, spec_tokens, EvalOutcome};
use crate::log::{LogAction, LogEntry, OperationLog, StackKind, count_ops};
use crate::parse::{entries_coef, lemma_strip_len, parse_err_of, parse_ok, poly_entries,
    strip_spaces, stripped_chars};
use crate::poly::{MAX_EXPONENT, Polynomial, Term, canon_from, coef_of, eval_fits, fits_i64,
    lemma_coef_range, lemma_distinct_of_wf, lemma_matches_canon, poly_eval};
use crate::registry::{Registry, name_list, name_ok};
use crate::render::{render_latex, render_std, to_latex, to_standard};

/// The largest accepted input length, so that the operation log's
/// clock cannot exhaust its word.
pub const MAX_INPUT_LEN: usize = 0x0800_0000;

/// The canonical derivative of a canonical term list.
pub open spec fn spec_pderiv(s: Seq<Term>) -> Seq<Term> {
    canon_from(|e: int| (e + 1) * coef_of(s, e + 1), MAX_EXPONENT as int)
}

/// Do all derivative coefficients fit the machine?
pub open spec fn pderiv_fits(s: Seq<Term>) -> bool {
    forall|e: int| 0 <= e ==> fits_i64((e + 1) * #[trigger] coef_of(s, e + 1))
}

/// A polynomial rendered in both forms, derived from one term list.
pub struct PolynomialOutput {
    pub standard: String,
    pub latex: String,
}

/// The engine state: initialization flag, operation log, registry.
pub struct Engine {
    pub initialized: bool,
    pub log: OperationLog,
    pub registry: Registry,
}

impl Engine {
    /// A well-formed log and registry.
    pub open spec fn wf(&self) -> bool {
        self.log.wf() && self.registry.wf()
    }

    /// A fresh engine: uninitialized, empty log, empty registry.
    pub fn new() -> (r: Engine)
        ensures
            r.wf(),
            !r.initialized,
            r.log.entries@.len() == 0,
            forall|c: char| name_ok(c) ==> (#[trigger] r.registry.slot(c)) is None,
    {
        Engine { initialized: false, log: OperationLog::new(), registry: Registry::new() }
    }

    /// Prepares the evaluator. The capacity is advisory: the call fails
    /// exactly when it is not positive.
    pub fn init(&mut self, capacity: i64) -> (r: Result<(), EvalError>)
        requires
            old(self).wf(),
        ensures
            final(self).wf(),
            r is Ok <==> capacity > 0,
            r is Err ==> r->Err_0 == EvalError::StackNotInitialized,
            r is Ok ==> final(self).initialized,
            r is Err ==> final(self).initialized == old(self).initialized,
            final(self).registry == old(self).registry,
            final(self).log == old(self).log,
    {
        if capacity <= 0 {
            return Err(EvalError::StackNotInitialized);
        }
        self.initialized = true;
        Ok(())
    }

    /// Evaluates an integer expression on the dual-stack machine,
    /// recording every stack operation in a fresh log.
    ///
    /// With `t` the input stripped of spaces: an uninitialized engine
    /// is `StackNotInitialized`; an empty `t` is `EmptyInput`; a
    /// character outside the alphabet is `UnknownOperator`; a number
    /// literal outside the machine range is `InvalidExpression`;
    /// otherwise the machine's verdict on the scanned tokens decides.
    /// On success both stacks have been drained, so the log's push and
    /// pop counts agree on each stack.
    pub fn evaluate_expression(&mut self, text: &str) -> (r: Result<i64, EvalError>)
        requires
            old(self).wf(),
            text@.len() <= MAX_INPUT_LEN,
        ensures
            final(self).wf(),
            final(self).registry == old(self).registry,
            final(self).initialized == old(self).initialized,
            !old(self).initialized ==> r == Err::<i64, EvalError>(EvalError::StackNotInitialized)
                && final(self).log == old(self).log,
            old(self).initialized && strip_spaces(text@).len() == 0 ==> r == Err::<i64, EvalError>(
                EvalError::EmptyInput,
            ),
            old(self).initialized && strip_spaces(text@).len() > 0 && !calc_chars_ok(
                strip_spaces(text@),
            ) ==> r == Err::<i64, EvalError>(EvalError::UnknownOperator),
            old(self).initialized && calc_chars_ok(strip_spaces(text@)) && spec_tokens(
                strip_spaces(text@),
                true,
            ) is None ==> r == Err::<i64, EvalError>(EvalError::InvalidExpression),
            old(self).initialized && strip_spaces(text@).len() > 0 && calc_chars_ok(
                strip_spaces(text@),
            ) && spec_tokens(strip_spaces(text@), true) is Some ==> match run_eval(
                spec_tokens(strip_spaces(text@), true)->0,
            ) {
                EvalOutcome::Value(v) => r == Ok::<i64, EvalError>(v),
                EvalOutcome::DivByZero => r == Err::<i64, EvalError>(EvalError::DivisionByZero),
                EvalOutcome::Mismatch => r == Err::<i64, EvalError>(
                    EvalError::MismatchedParentheses,
                ),
                EvalOutcome::Invalid => r == Err::<i64, EvalError>(EvalError::InvalidExpression),
                EvalOutcome::NoValue => r == Err::<i64, EvalError>(EvalError::NoResult),
            },
            r is Ok ==> count_ops(final(self).log.entries@, StackKind::Numeric, LogAction::Push)
                == count_ops(final(self).log.entries@, StackKind::Numeric, LogAction::Pop),
            r is Ok ==> count_ops(final(self).log.entries@, StackKind::Symbolic, LogAction::Push)
                == count_ops(final(self).log.entries@, StackKind::Symbolic, LogAction::Pop),
    {
        if !self.initialized {
            return Err(EvalError::StackNotInitialized);
        }
        self.log.reset();
        let tv = stripped_chars(text);
        proof {
            lemma_strip_len(text@);
        }
        if tv.len() == 0 {
            return Err(EvalError::EmptyInput);
        }
        let toks = match scan_tokens(&tv) {
            Err(e) => {
                return Err(e);
            },
            Ok(toks) => toks,
        };
        evaluate_tokens(&toks, &mut self.log)
    }

    /// The recorded operations of the last evaluation, in timestamp
    /// order; reading does not change the log.
    pub fn query_operation_log(&self) -> (r: Vec<LogEntry>)
        requires
            self.wf(),
        ensures
            r@ == self.log.entries@,
            forall|i: int| 0 <= i < r@.len() ==> (#[trigger] r@[i]).timestamp as int == i,
    {
        self.log.query()
    }

    /// Parses `text` and stores the result under `name`, replacing any
    /// earlier polynomial there.
    pub fn create_polynomial(&mut self, name: char, text: &str) -> (r: Result<(), PolyError>)
        requires
            old(self).wf(),
        ensures
            final(self).wf(),
            final(self).log == old(self).log,
            final(self).initialized == old(self).initialized,
            !name_ok(name) ==> r == Err::<(), PolyError>(PolyError::InvalidName)
                && final(self).registry == old(self).registry,
            name_ok(name) && !parse_ok(strip_spaces(text@)) ==> r == Err::<(), PolyError>(
                parse_err_of(strip_spaces(text@)),
            ) && final(self).registry == old(self).registry,
            r is Ok <==> (name_ok(name) && parse_ok(strip_spaces(text@))),
            r is Ok ==> (final(self).registry.slot(name) is Some && final(self).registry.slot(
                name,
            )->0.wf() && forall|e: int| #[trigger] final(self).registry.slot(name)->0.coef(e)
                == entries_coef(poly_entries(strip_spaces(text@)), e)),
            r is Ok ==> forall|c: char| name_ok(c) && c != name
                ==> #[trigger] final(self).registry.slot(c) == old(self).registry.slot(c),
    {
        self.registry.create(name, text)
    }

    /// The canonical plain-text form of the polynomial under `name`.
    pub fn get_polynomial(&self, name: char) -> (r: Result<String, PolyError>)
        requires
            self.wf(),
        ensures
            !name_ok(name) ==> r == Err::<String, PolyError>(PolyError::InvalidName),
            name_ok(name) && self.registry.slot(name) is None ==> r == Err::<String, PolyError>(
                PolyError::NotFound,
            ),
            r is Ok <==> (name_ok(name) && self.registry.slot(name) is Some),
            r is Ok ==> r->Ok_0@ == render_std(self.registry.slot(name)->0.terms@),
    {
        match self.registry.get(name) {
            Err(e) => Err(e),
            Ok(p) => Ok(to_standard(&p)),
        }
    }

    /// Both rendered forms of the polynomial under `name`, derived
    /// from the same term list.
    pub fn get_polynomial_with_latex(&self, name: char) -> (r: Result<PolynomialOutput, PolyError>)
        requires
            self.wf(),
        ensures
            !name_ok(name) ==> r == Err::<PolynomialOutput, PolyError>(PolyError::InvalidName),
            name_ok(name) && self.registry.slot(name) is None ==> r == Err::<
                PolynomialOutput,
                PolyError,
            >(PolyError::NotFound),
            r is Ok <==> (name_ok(name) && self.registry.slot(name) is Some),
            r is Ok ==> r->Ok_0.standard@ == render_std(self.registry.slot(name)->0.terms@),
            r is Ok ==> r->Ok_0.latex@ == render_latex(self.registry.slot(name)->0.terms@),
    {
        match self.registry.get(name) {
            Err(e) => Err(e),
            Ok(p) => Ok(PolynomialOutput { standard: to_standard(&p), latex: to_latex(&p) }),
        }
    }

    /// The value of the polynomial under `name` at the point `x`.
    /// Fails with `Overflow` exactly when an intermediate power,
    /// product or partial sum leaves the machine range.
    pub fn evaluate_polynomial(&self, name: char, x: i64) -> (r: Result<i64, PolyError>)
        requires
            self.wf(),
        ensures
            !name_ok(name) ==> r == Err::<i64, PolyError>(PolyError::InvalidName),
            name_ok(name) && self.registry.slot(name) is None ==> r == Err::<i64, PolyError>(
                PolyError::NotFound,
            ),
            name_ok(name) && self.registry.slot(name) is Some ==> (r is Ok <==> eval_fits(
                self.registry.slot(name)->0.terms@,
                x as int,
            )),
            r is Ok ==> r->Ok_0 as int == poly_eval(self.registry.slot(name)->0.terms@, x as int),
            name_ok(name) && self.registry.slot(name) is Some && !eval_fits(
                self.registry.slot(name)->0.terms@,
                x as int,
            ) ==> r == Err::<i64, PolyError>(PolyError::Overflow),
    {
        match self.registry.get(name) {
            Err(e) => Err(e),
            Ok(p) => p.eval_at(x),
        }
    }

    /// The canonical plain-text form of the derivative of the
    /// polynomial under `name`. Fails with `Overflow` exactly when a
    /// derivative coefficient leaves the machine range.
    pub fn derivative(&self, name: char) -> (r: Result<String, PolyError>)
        requires
            self.wf(),
        ensures
            !name_ok(name) ==> r == Err::<String, PolyError>(PolyError::InvalidName),
            name_ok(name) && self.registry.slot(name) is None ==> r == Err::<String, PolyError>(
                PolyError::NotFound,
            ),
            name_ok(name) && self.registry.slot(name) is Some ==> (r is Ok <==> pderiv_fits(
                self.registry.slot(name)->0.terms@,
            )),
            r is Ok ==> r->Ok_0@ == render_std(spec_pderiv(self.registry.slot(name)->0.terms@)),
            name_ok(name) && self.registry.slot(name) is Some && !pderiv_fits(
                self.registry.slot(name)->0.terms@,
            ) ==> r == Err::<String, PolyError>(PolyError::Overflow),
    {
        match self.registry.get(name) {
            Err(e) => Err(e),
            Ok(p) => {
                proof {
                    lemma_pderiv_fits_bridge(p);
                }
                match p.derivative() {
                    Err(e) => Err(e),
                    Ok(d) => {
                        proof {
                            lemma_deriv_canon(p, d);
                        }
                        Ok(to_standard(&d))
                    },
                }
            },
        }
    }

    /// Both rendered forms of the derivative of the polynomial under
    /// `name`.
    pub fn derivative_with_latex(&self, name: char) -> (r: Result<PolynomialOutput, PolyError>)
        requires
            self.wf(),
        ensures
            !name_ok(name) ==> r == Err::<PolynomialOutput, PolyError>(PolyError::InvalidName),
            name_ok(name) && self.registry.slot(name) is None ==> r == Err::<
                PolynomialOutput,
                PolyError,
            >(PolyError::NotFound),
            name_ok(name) && self.registry.slot(name) is Some ==> (r is Ok <==> pderiv_fits(
                self.registry.slot(name)->0.terms@,
            )),
            r is Ok ==> r->Ok_0.standard@ == render_std(
                spec_pderiv(self.registry.slot(name)->0.terms@),
            ),
            r is Ok ==> r->Ok_0.latex@ == render_latex(
                spec_pderiv(self.registry.slot(name)->0.terms@),
            ),
            name_ok(name) && self.registry.slot(name) is Some && !pderiv_fits(
                self.registry.slot(name)->0.terms@,
            ) ==> r == Err::<PolynomialOutput, PolyError>(PolyError::Overflow),
    {
        match self.registry.get(name) {
            Err(e) => Err(e),
            Ok(p) => {
                proof {
                    lemma_pderiv_fits_bridge(p);
                }
                match p.derivative() {
                    Err(e) => Err(e),
                    Ok(d) => {
                        proof {
                            lemma_deriv_canon(p, d);
                        }
                        Ok(PolynomialOutput { standard: to_standard(&d), latex: to_latex(&d) })
                    },
                }
            },
        }
    }

    /// Evaluates an expression over the named polynomials and renders
    /// the canonical result in plain text.
    pub fn combine(&self, text: &str) -> (r: Result<String, PolyError>)
        requires
            self.wf(),
        ensures
            strip_spaces(text@).len() == 0 ==> r == Err::<String, PolyError>(
                PolyError::EmptyExpression,
            ),
            strip_spaces(text@).len() > 0 && !comb_chars_ok(strip_spaces(text@)) ==> r == Err::<
                String,
                PolyError,
            >(PolyError::InvalidCharacter),
            comb_chars_ok(strip_spaces(text@)) && has_div(strip_spaces(text@)) ==> r == Err::<
                String,
                PolyError,
            >(PolyError::UnknownOperator),
            strip_spaces(text@).len() > 0 && comb_chars_ok(strip_spaces(text@)) && !has_div(
                strip_spaces(text@),
            ) ==> match run_combine(strip_spaces(text@), self.registry.slots@) {
                PolyOutcome::PVal(s) => r is Ok && r->Ok_0@ == render_std(s),
                PolyOutcome::PMismatch => r == Err::<String, PolyError>(
                    PolyError::MismatchedParentheses,
                ),
                PolyOutcome::PInvalid => r == Err::<String, PolyError>(PolyError::ParseError),
                PolyOutcome::PNotFound => r == Err::<String, PolyError>(PolyError::NotFound),
                PolyOutcome::POverflow => r == Err::<String, PolyError>(PolyError::Overflow),
                PolyOutcome::PTooBig => r == Err::<String, PolyError>(
                    PolyError::InputFormatInvalid,
                ),
            },
    {
        match combine_polynomials(&self.registry, text) {
            Err(e) => Err(e),
            Ok(p) => Ok(to_standard(&p)),
        }
    }

    /// Evaluates an expression over the named polynomials and renders
    /// the canonical result in both forms.
    pub fn combine_with_latex(&self, text: &str) -> (r: Result<PolynomialOutput, PolyError>)
        requires
            self.wf(),
        ensures
            strip_spaces(text@).len() == 0 ==> r == Err::<PolynomialOutput, PolyError>(
                PolyError::EmptyExpression,
            ),
            strip_spaces(text@).len() > 0 && !comb_chars_ok(strip_spaces(text@)) ==> r == Err::<
                PolynomialOutput,
                PolyError,
            >(PolyError::InvalidCharacter),
            comb_chars_ok(strip_spaces(text@)) && has_div(strip_spaces(text@)) ==> r == Err::<
                PolynomialOutput,
                PolyError,
            >(PolyError::UnknownOperator),
            strip_spaces(text@).len() > 0 && comb_chars_ok(strip_spaces(text@)) && !has_div(
                strip_spaces(text@),
            ) ==> match run_combine(strip_spaces(text@), self.registry.slots@) {
                PolyOutcome::PVal(s) => r is Ok && r->Ok_0.standard@ == render_std(s)
                    && r->Ok_0.latex@ == render_latex(s),
                PolyOutcome::PMismatch => r == Err::<PolynomialOutput, PolyError>(
                    PolyError::MismatchedParentheses,
                ),
                PolyOutcome::PInvalid => r == Err::<PolynomialOutput, PolyError>(
                    PolyError::ParseError,
                ),
                PolyOutcome::PNotFound => r == Err::<PolynomialOutput, PolyError>(
                    PolyError::NotFound,
                ),
                PolyOutcome::POverflow => r == Err::<PolynomialOutput, PolyError>(
                    PolyError::Overflow,
                ),
                PolyOutcome::PTooBig => r == Err::<PolynomialOutput, PolyError>(
                    PolyError::InputFormatInvalid,
                ),
            },
    {
        match combine_polynomials(&self.registry, text) {
            Err(e) => Err(e),
            Ok(p) => Ok(PolynomialOutput { standard: to_standard(&p), latex: to_latex(&p) }),
        }
    }

    /// Empties every registry slot.
    pub fn clear_all_polynomials(&mut self) -> (r: Result<(), PolyError>)
        requires
            old(self).wf(),
        ensures
            final(self).wf(),
            r is Ok,
            forall|c: char| name_ok(c) ==> (#[trigger] final(self).registry.slot(c)) is None,
            final(self).log == old(self).log,
            final(self).initialized == old(self).initialized,
    {
        self.registry.clear_all();
        Ok(())
    }

    /// The names of the stored polynomials, in fixed `a`..`e` order.
    pub fn list_polynomial_names(&self) -> (r: Vec<char>)
        requires
            self.wf(),
        ensures
            r@ == name_list(&self.registry),
    {
        self.registry.list_names()
    }

    /// Does `name` hold a polynomial? Invalid names hold none.
    pub fn polynomial_exists(&self, name: char) -> (r: bool)
        requires
            self.wf(),
        ensures
            r == (name_ok(name) && self.registry.slot(name) is Some),
    {
        self.registry.contains(name)
    }

    /// The number of terms of the polynomial under `name`.
    pub fn term_count(&self, name: char) -> (r: Result<usize, PolyError>)
        requires
            self.wf(),
        ensures
            !name_ok(name) ==> r == Err::<usize, PolyError>(PolyError::InvalidName),
            name_ok(name) && self.registry.slot(name) is None ==> r == Err::<usize, PolyError>(
                PolyError::NotFound,
            ),
            r is Ok <==> (name_ok(name) && self.registry.slot(name) is Some),
            r is Ok ==> r->Ok_0 == self.registry.slot(name)->0.terms@.len(),
    {
        self.registry.term_count(name)
    }
}

/// The fit condition of a derivative, stated over the polynomial's own
/// coefficient function.
proof fn lemma_pderiv_fits_bridge(p: Polynomial)
    requires
        p.wf(),
    ensures
        pderiv_fits(p.terms@) == (forall|e: int| 0 <= e ==> fits_i64(
            (e + 1) * #[trigger] p.coef(e + 1),
        )),
{
    if pderiv_fits(p.terms@) {
        assert forall|e: int| 0 <= e implies fits_i64((e + 1) * #[trigger] p.coef(e + 1)) by {
            assert(p.coef(e + 1) == coef_of(p.terms@, e + 1));
            assert(fits_i64((e + 1) * coef_of(p.terms@, e + 1)));
        }
    }
    if forall|e: int| 0 <= e ==> fits_i64((e + 1) * #[trigger] p.coef(e + 1)) {
        assert forall|e: int| #![trigger coef_of(p.terms@, e + 1)] 0 <= e implies fits_i64(
            (e + 1) * coef_of(p.terms@, e + 1),
        ) by {
            assert(fits_i64((e + 1) * p.coef(e + 1)));
        }
    }
}

/// A derivative that fit the machine is the canonical derivative list.
proof fn lemma_deriv_canon(p: Polynomial, d: Polynomial)
    requires
        p.wf(),
        d.wf(),
        forall|e: int| 0 <= e ==> #[trigger] d.coef(e) == (e + 1) * p.coef(e + 1),
    ensures
        d.terms@ == spec_pderiv(p.terms@),
{
    let s = p.terms@;
    assert forall|e: int| #![trigger coef_of(s, e + 1)] 0 <= e <= MAX_EXPONENT implies fits_i64(
        (e + 1) * coef_of(s, e + 1),
    ) && d.coef(e) == (e + 1) * coef_of(s, e + 1) by {
        assert(d.coef(e) == (e + 1) * p.coef(e + 1));
        assert(p.coef(e + 1) == coef_of(s, e + 1));
        lemma_distinct_of_wf(d.terms@);
        lemma_coef_range(d.terms@, e);
    }
    lemma_matches_canon(d, |e: int| (e + 1) * coef_of(s, e + 1));
}

} // verus!
