//! The round trip between the formatter and the parser: the standard
//! rendering of a canonical polynomial always parses, and parsing it
//! recovers exactly the same canonical polynomial.

use vstd::prelude::*;

verus! {

use crate::digits::{digits_len, digits_of, lemma_digits_len_concat, lemma_digits_of_digits,
    lemma_digits_roundtrip};
use crate::parse::{entries_coef, entries_fit, lemma_strip_id, parse_ok, poly_body, poly_char,
    poly_entries, poly_sign, poly_wf, strip_spaces, term_exp, term_len, term_mag, terms_entries,
    terms_wf};
use crate::poly::{MAX_EXPONENT, Polynomial, Term, coef_of, fits_i64, lemma_canonical_unique,
    lemma_coef_range, lemma_distinct_of_wf, wf_terms};
use crate::render::{mag_of, render_std, render_terms, sign_chars, term_body};

/// The entry carried by one term.
pub open spec fn entry_of(t: Term) -> (nat, int) {
    (t.exp as nat, t.coef as int)
}

/// The rendered body of one term reads back as that term: its digit
/// runs, exponent and magnitude are recovered whole when a separator
/// or the end follows.
#[verifier::rlimit(100)]
#[verifier::spinoff_prover]
proof fn lemma_term_shape(t: Term, tail: Seq<char>)
    requires
        t.coef != 0,
        t.exp <= MAX_EXPONENT,
        tail.len() == 0 || tail[0] == '+' || tail[0] == '-',
    ensures
        term_body(t).len() > 0,
        term_len(term_body(t) + tail) == term_body(t).len(),
        term_exp(term_body(t) + tail) == t.exp as nat,
        term_mag(term_body(t) + tail) == mag_of(t.coef as int),
        forall|i: int| 0 <= i < term_body(t).len() ==> poly_char(#[trigger] term_body(t)[i]),
        !((term_body(t) + tail)[0] == '+' || (term_body(t) + tail)[0] == '-'),
{
    let m = mag_of(t.coef as int);
    let dm = digits_of(m);
    let de = digits_of(t.exp as nat);
    let body = term_body(t);
    let txt = body + tail;
    lemma_digits_of_digits(m);
    lemma_digits_roundtrip(m);
    lemma_digits_of_digits(t.exp as nat);
    lemma_digits_roundtrip(t.exp as nat);
    if t.exp == 0 {
        assert(body == dm);
        lemma_digits_len_concat(dm, tail);
        assert(digits_len(txt) == dm.len());
        let d = dm.len() as int;
        assert(forall|i: int| 0 <= i < d ==> #[trigger] txt[i] == dm[i]);
        if d < txt.len() {
            assert(txt[d] == tail[0]);
        }
        assert(txt.take(d) =~= dm);
        assert(term_mag(txt) == m);
        assert(term_len(txt) == d);
        assert(term_exp(txt) == 0);
    } else {
        let head: Seq<char> = if m == 1 {
            Seq::<char>::empty()
        } else {
            dm
        };
        let epart: Seq<char> = if t.exp == 1 {
            Seq::<char>::empty()
        } else {
            seq!['^'] + de
        };
        assert(body == head + seq!['x'] + epart);
        let d = head.len() as int;
        assert(txt =~= head + (seq!['x'] + (epart + tail)));
        assert((seq!['x'] + (epart + tail))[0] == 'x');
        lemma_digits_len_concat(head, seq!['x'] + (epart + tail));
        assert(digits_len(txt) == d);
        assert(txt[d] == 'x');
        assert(txt.take(d) =~= head);
        if m != 1 {
            assert(term_mag(txt) == m);
        } else {
            assert(term_mag(txt) == 1);
        }
        if t.exp == 1 {
            assert(body.len() == d + 1);
            if d + 1 < txt.len() {
                assert(txt[d + 1] == tail[0]);
                assert(txt[d + 1] != '^');
            }
            assert(term_len(txt) == d + 1);
            assert(term_exp(txt) == 1);
        } else {
            assert(body.len() == d + 2 + de.len());
            assert(txt[d + 1] == '^');
            assert(txt.skip(d + 2) =~= de + tail);
            lemma_digits_len_concat(de, tail);
            assert(digits_len(txt.skip(d + 2)) == de.len());
            assert(txt.skip(d + 2).take(de.len() as int) =~= de);
            assert(term_exp(txt) == t.exp as nat);
            assert(term_len(txt) == d + 2 + de.len());
        }
        assert forall|i: int| 0 <= i < body.len() implies poly_char(#[trigger] body[i]) by {
            if i < d {
                assert(body[i] == dm[i]);
            } else if i == d {
                assert(body[i] == 'x');
            } else if i == d + 1 {
                assert(body[i] == '^');
            } else {
                assert(body[i] == de[i - d - 2]);
            }
        }
    }
}

/// A term list rendered after its first sign reads back as exactly its
/// entries, with the separators carrying the later signs.
proof fn lemma_terms_roundtrip(s: Seq<Term>)
    requires
        wf_terms(s),
        s.len() > 0,
    ensures
        ({
            let txt = term_body(s[0]) + render_terms(s.drop_first(), false);
            let sgn: int = if s[0].coef < 0 {
                -1
            } else {
                1
            };
            &&& txt.len() > 0
            &&& terms_wf(txt)
            &&& terms_entries(txt, sgn) == s.map_values(|t: Term| entry_of(t))
            &&& forall|i: int| 0 <= i < txt.len() ==> poly_char(#[trigger] txt[i])
            &&& !(txt[0] == '+' || txt[0] == '-')
        }),
    decreases s.len(),
{
    let t0 = s[0];
    let rest = s.drop_first();
    let body = term_body(t0);
    let tail = render_terms(rest, false);
    let txt = body + tail;
    let sgn: int = if t0.coef < 0 {
        -1
    } else {
        1
    };
    if rest.len() == 0 {
        assert(tail =~= Seq::<char>::empty());
        lemma_term_shape(t0, tail);
        assert(txt =~= body);
        assert(term_len(txt) == txt.len());
        assert(terms_wf(txt));
        assert(sgn * (term_mag(txt) as int) == t0.coef as int);
        assert(terms_entries(txt, sgn) =~= s.map_values(|t: Term| entry_of(t)));
        assert forall|i: int| 0 <= i < txt.len() implies poly_char(#[trigger] txt[i]) by {
            assert(txt[i] == body[i]);
        }
    } else {
        let sep = sign_chars(false, rest[0].coef as int);
        let body1 = term_body(rest[0]);
        let tail1 = render_terms(rest.drop_first(), false);
        assert(tail == sep + body1 + tail1);
        assert(sep.len() == 1);
        assert(tail[0] == sep[0]);
        assert(tail[0] == '+' || tail[0] == '-');
        lemma_term_shape(t0, tail);
        let n0 = body.len() as int;
        assert(term_len(txt) == n0);
        assert(txt[n0] == tail[0]);
        lemma_terms_roundtrip(rest);
        let txt1 = body1 + tail1;
        assert(txt.skip(n0 + 1) =~= txt1);
        let sgn1: int = if rest[0].coef < 0 {
            -1
        } else {
            1
        };
        assert((if txt[n0] == '-' {
            -1int
        } else {
            1int
        }) == sgn1);
        assert(terms_wf(txt));
        assert(sgn * (term_mag(txt) as int) == t0.coef as int);
        assert(terms_entries(txt, sgn) == seq![entry_of(t0)] + terms_entries(txt1, sgn1));
        assert(terms_entries(txt, sgn) =~= s.map_values(|t: Term| entry_of(t)));
        assert forall|i: int| 0 <= i < txt.len() implies poly_char(#[trigger] txt[i]) by {
            if i < n0 {
                assert(txt[i] == body[i]);
            } else if i == n0 {
            } else {
                assert(txt[i] == txt1[i - n0 - 1]);
            }
        }
    }
}

/// The coefficient function of the entries of a term list is the
/// coefficient function of the list.
proof fn lemma_entries_of_map(s: Seq<Term>, e: int)
    ensures
        entries_coef(s.map_values(|t: Term| entry_of(t)), e) == coef_of(s, e),
    decreases s.len(),
{
    if s.len() > 0 {
        assert(s.map_values(|t: Term| entry_of(t)).drop_first() =~= s.drop_first().map_values(
            |t: Term| entry_of(t),
        ));
        lemma_entries_of_map(s.drop_first(), e);
    }
}

/// The standard rendering of a canonical polynomial has no spaces,
/// parses, and describes exactly the polynomial's coefficients.
pub proof fn lemma_render_parses(s: Seq<Term>)
    requires
        wf_terms(s),
    ensures
        strip_spaces(render_std(s)) == render_std(s),
        parse_ok(render_std(s)),
        forall|e: int| entries_coef(poly_entries(render_std(s)), e) == coef_of(s, e),
{
    let r = render_std(s);
    if s.len() == 0 {
        assert(r == seq!['0']);
        assert(poly_char(r[0]));
        lemma_strip_id(r);
        assert(poly_body(r) == r);
        assert(digits_of(0) =~= seq!['0']);
        lemma_digits_roundtrip(0);
        lemma_digits_of_digits(0);
        assert(r =~= digits_of(0) + Seq::<char>::empty());
        lemma_digits_len_concat(digits_of(0), Seq::<char>::empty());
        assert(digits_len(r) == 1);
        assert(term_len(r) == 1);
        assert(terms_wf(r));
        assert(r.take(1) =~= digits_of(0));
        assert(term_mag(r) == 0);
        assert(term_exp(r) == 0);
        let l = poly_entries(r);
        assert(l =~= seq![(0nat, 0int)]);
        assert forall|e: int| entries_coef(l, e) == coef_of(s, e) by {
            assert(l.drop_first() =~= Seq::<(nat, int)>::empty());
            assert(entries_coef(Seq::<(nat, int)>::empty(), e) == 0);
            assert(l[0] == (0nat, 0int));
            assert(entries_coef(l, e) == 0);
            assert(coef_of(s, e) == 0);
        }
        assert forall|k: int, e: int| 0 <= k <= l.len() implies fits_i64(
            #[trigger] entries_coef(l.take(k), e),
        ) by {
            if k == 0 {
                assert(l.take(0) =~= Seq::<(nat, int)>::empty());
            } else {
                assert(l.take(k) =~= l);
                assert(l.drop_first() =~= Seq::<(nat, int)>::empty());
            }
        }
        assert(entries_fit(l));
    } else {
        lemma_terms_roundtrip(s);
        let txt = term_body(s[0]) + render_terms(s.drop_first(), false);
        let sgn: int = if s[0].coef < 0 {
            -1
        } else {
            1
        };
        assert(r == sign_chars(true, s[0].coef as int) + txt);
        if s[0].coef < 0 {
            assert(r =~= seq!['-'] + txt);
            assert(r[0] == '-');
            assert(r.drop_first() =~= txt);
            assert(poly_body(r) == txt);
            assert(poly_sign(r) == -1);
        } else {
            assert(r =~= txt);
            assert(poly_body(r) == txt);
            assert(poly_sign(r) == 1);
        }
        assert forall|i: int| 0 <= i < r.len() implies poly_char(#[trigger] r[i]) by {
            if s[0].coef < 0 {
                if i > 0 {
                    assert(r[i] == txt[i - 1]);
                }
            } else {
                assert(r[i] == txt[i]);
            }
        }
        assert forall|i: int| 0 <= i < r.len() implies (#[trigger] r[i]) != ' ' by {
            assert(poly_char(r[i]));
        }
        lemma_strip_id(r);
        assert(poly_wf(r));
        let l = poly_entries(r);
        assert(l == s.map_values(|t: Term| entry_of(t)));
        assert forall|e: int| entries_coef(l, e) == coef_of(s, e) by {
            lemma_entries_of_map(s, e);
        }
        assert forall|i: int| 0 <= i < l.len() implies (#[trigger] l[i]).0 <= MAX_EXPONENT
            && fits_i64(l[i].1) by {
            assert(l[i] == entry_of(s[i]));
        }
        assert forall|k: int, e: int| 0 <= k <= l.len() implies fits_i64(
            #[trigger] entries_coef(l.take(k), e),
        ) by {
            assert(l.take(k) =~= s.take(k).map_values(|t: Term| entry_of(t)));
            lemma_entries_of_map(s.take(k), e);
            lemma_distinct_of_wf(s);
            assert(forall|a: int, b: int| 0 <= a < b < k ==> (#[trigger] s.take(k)[a]).exp != (
            #[trigger] s.take(k)[b]).exp);
            lemma_coef_range(s.take(k), e);
        }
        assert(entries_fit(l));
        assert(parse_ok(r));
    }
}

/// Parsing the standard rendering of a canonical polynomial yields the
/// same canonical polynomial: the canonical term mapping is stable
/// under a render–parse round trip, as the `ensures` of `to_standard`
/// and `parse_polynomial` relate them.
pub proof fn lemma_parse_render_roundtrip(p: Polynomial, q: Polynomial)
    requires
        p.wf(),
        q.wf(),
        forall|e: int| #[trigger] q.coef(e) == entries_coef(
            poly_entries(strip_spaces(render_std(p.terms@))),
            e,
        ),
    ensures
        q.terms@ == p.terms@,
{
    lemma_render_parses(p.terms@);
    assert forall|e: int| coef_of(q.terms@, e) == coef_of(p.terms@, e) by {
        assert(q.coef(e) == entries_coef(poly_entries(render_std(p.terms@)), e));
    }
    lemma_canonical_unique(q.terms@, p.terms@);
}

} // verus!
