//! Rendering of canonical polynomials: a plain-text standard form and a
//! typeset form, both derived from the same descending term list.
//! Standard form: `3x^2+2x-5`; typeset form: `3x^{2}+2x-5`.

use vstd::prelude::*;

verus! {

use crate::digits::{digits_of, push_char, push_digits};
use crate::poly::{Polynomial, Term};

/// The magnitude of a coefficient.
pub open spec fn mag_of(c: int) -> nat {
    if c < 0 {
        (-c) as nat
    } else {
        c as nat
    }
}

/// The sign marker before a term: a leading term only marks a negative
/// sign; later terms always carry `+` or `-`.
pub open spec fn sign_chars(first: bool, c: int) -> Seq<char> {
    if c < 0 {
        seq!['-']
    } else if first {
        Seq::<char>::empty()
    } else {
        seq!['+']
    }
}

/// The body of one rendered term: magnitude 1 is elided before `x`,
/// exponent 1 is written as plain `x`, exponent 0 leaves the magnitude
/// alone.
pub open spec fn term_body(t: Term) -> Seq<char> {
    let m = mag_of(t.coef as int);
    if t.exp == 0 {
        digits_of(m)
    } else {
        (if m == 1 {
            Seq::<char>::empty()
        } else {
            digits_of(m)
        }) + seq!['x'] + (if t.exp == 1 {
            Seq::<char>::empty()
        } else {
            seq!['^'] + digits_of(t.exp as nat)
        })
    }
}

/// The body of one typeset term: as `term_body`, with the exponent in
/// braces.
pub open spec fn term_body_latex(t: Term) -> Seq<char> {
    let m = mag_of(t.coef as int);
    if t.exp == 0 {
        digits_of(m)
    } else {
        (if m == 1 {
            Seq::<char>::empty()
        } else {
            digits_of(m)
        }) + seq!['x'] + (if t.exp == 1 {
            Seq::<char>::empty()
        } else {
            seq!['^', '{'] + digits_of(t.exp as nat) + seq!['}']
        })
    }
}

/// The rendering of a term list, term after term.
pub open spec fn render_terms(s: Seq<Term>, first: bool) -> Seq<char>
    decreases s.len(),
{
    if s.len() == 0 {
        Seq::<char>::empty()
    } else {
        sign_chars(first, s[0].coef as int) + term_body(s[0]) + render_terms(s.drop_first(), false)
    }
}

/// The typeset rendering of a term list, term after term.
pub open spec fn render_terms_latex(s: Seq<Term>, first: bool) -> Seq<char>
    decreases s.len(),
{
    if s.len() == 0 {
        Seq::<char>::empty()
    } else {
        sign_chars(first, s[0].coef as int) + term_body_latex(s[0]) + render_terms_latex(
            s.drop_first(),
            false,
        )
    }
}

/// The standard rendering of a canonical term list; the zero polynomial
/// renders as `0`.
pub open spec fn render_std(s: Seq<Term>) -> Seq<char> {
    if s.len() == 0 {
        seq!['0']
    } else {
        render_terms(s, true)
    }
}

/// The typeset rendering of a canonical term list.
pub open spec fn render_latex(s: Seq<Term>) -> Seq<char> {
    if s.len() == 0 {
        seq!['0']
    } else {
        render_terms_latex(s, true)
    }
}

/// The magnitude of a coefficient, as an executable value.
fn mag_value(c: i64) -> (r: u64)
    ensures
        r as nat == mag_of(c as int),
{
    if c >= 0 {
        c as u64
    } else {
        ((-(c + 1)) as u64) + 1
    }
}

/// Appends one rendered term in either form.
fn push_term(out: &mut String, t: Term, first: bool, latex: bool)
    ensures
        !latex ==> final(out)@ == old(out)@ + sign_chars(first, t.coef as int) + term_body(t),
        latex ==> final(out)@ == old(out)@ + sign_chars(first, t.coef as int) + term_body_latex(t),
{
    if t.coef < 0 {
        push_char(out, '-');
    } else if !first {
        push_char(out, '+');
    }
    let ghost after_sign = out@;
    proof {
        assert(after_sign =~= old(out)@ + sign_chars(first, t.coef as int));
    }
    let m = mag_value(t.coef);
    if t.exp == 0 {
        push_digits(out, m);
        proof {
            assert(final(out)@ =~= old(out)@ + sign_chars(first, t.coef as int) + term_body(t));
            assert(final(out)@ =~= old(out)@ + sign_chars(first, t.coef as int) + term_body_latex(
                t,
            ));
        }
    } else {
        if m != 1 {
            push_digits(out, m);
        }
        push_char(out, 'x');
        if t.exp != 1 {
            push_char(out, '^');
            if latex {
                push_char(out, '{');
            }
            push_digits(out, t.exp as u64);
            if latex {
                push_char(out, '}');
            }
        }
        proof {
            if !latex {
                assert(final(out)@ =~= old(out)@ + sign_chars(first, t.coef as int) + term_body(
                    t,
                ));
            } else {
                assert(final(out)@ =~= old(out)@ + sign_chars(first, t.coef as int)
                    + term_body_latex(t));
            }
        }
    }
}

/// Renders a canonical term list in either form.
fn render_into(terms: &Vec<Term>, latex: bool) -> (r: String)
    ensures
        !latex ==> r@ == render_std(terms@),
        latex ==> r@ == render_latex(terms@),
{
    let mut out = String::new();
    let n = terms.len();
    if n == 0 {
        push_char(&mut out, '0');
        proof {
            assert(out@ =~= seq!['0']);
        }
        return out;
    }
    let mut i: usize = 0;
    proof {
        assert(terms@.skip(0) =~= terms@);
        assert(out@ + render_terms(terms@, true) =~= render_terms(terms@, true));
        assert(out@ + render_terms_latex(terms@, true) =~= render_terms_latex(terms@, true));
    }
    while i < n
        invariant
            0 < n == terms@.len(),
            i <= n,
            !latex ==> out@ + render_terms(terms@.skip(i as int), i == 0) == render_std(terms@),
            latex ==> out@ + render_terms_latex(terms@.skip(i as int), i == 0) == render_latex(
                terms@,
            ),
        decreases n - i,
    {
        let t = terms[i];
        let ghost before = out@;
        push_term(&mut out, t, i == 0, latex);
        proof {
            let rest = terms@.skip(i as int);
            assert(rest[0] == terms@[i as int]);
            assert(rest.drop_first() =~= terms@.skip(i as int + 1));
            if !latex {
                assert(render_terms(rest, i == 0) == sign_chars(i == 0, t.coef as int) + term_body(
                    t,
                ) + render_terms(terms@.skip(i as int + 1), false));
                assert(out@ + render_terms(terms@.skip(i as int + 1), false) =~= before
                    + render_terms(rest, i == 0));
            } else {
                assert(render_terms_latex(rest, i == 0) == sign_chars(i == 0, t.coef as int)
                    + term_body_latex(t) + render_terms_latex(terms@.skip(i as int + 1), false));
                assert(out@ + render_terms_latex(terms@.skip(i as int + 1), false) =~= before
                    + render_terms_latex(rest, i == 0));
            }
        }
        i += 1;
    }
    proof {
        assert(terms@.skip(n as int) =~= Seq::<Term>::empty());
        if !latex {
            assert(out@ + render_terms(terms@.skip(n as int), false) =~= out@);
        } else {
            assert(out@ + render_terms_latex(terms@.skip(n as int), false) =~= out@);
        }
    }
    out
}

/// The canonical plain-text form of a polynomial: descending exponents,
/// sign-normalized, `x^n` notation, `0` for the zero polynomial.
pub fn to_standard(p: &Polynomial) -> (r: String)
    ensures
        r@ == render_std(p.terms@),
{
    render_into(&p.terms, false)
}

/// The typeset form of a polynomial, derived from the same term list as
/// the plain-text form.
pub fn to_latex(p: &Polynomial) -> (r: String)
    ensures
        r@ == render_latex(p.terms@),
{
    render_into(&p.terms, true)
}

} // verus!
