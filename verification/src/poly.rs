//! Sparse single-variable polynomials in canonical form: a term list
//! sorted by strictly descending exponent, with no zero coefficient and
//! every exponent within the degree bound. The semantic model of a term
//! list is its coefficient function `coef_of`, which maps an exponent to
//! the summed coefficient stored for it.

use vstd::prelude::*;

verus! {

use crate::errors::PolyError;

/// Largest exponent a polynomial may carry.
pub const MAX_EXPONENT: u32 = 63;

/// One monomial: `coef * x^exp`.
#[derive(Clone, Copy, PartialEq, Eq, Structural, Debug)]
pub struct Term {
    pub exp: u32,
    pub coef: i64,
}

/// A polynomial in canonical sparse form (see `wf`).
pub struct Polynomial {
    pub terms: Vec<Term>,
}

/// Does `v` fit a machine word?
pub open spec fn fits_i64(v: int) -> bool {
    i64::MIN <= v <= i64::MAX
}

/// The coefficient of `x^e` described by a term list: the sum of the
/// coefficients of all terms with exponent `e`.
pub open spec fn coef_of(s: Seq<Term>, e: int) -> int
    decreases s.len(),
{
    if s.len() == 0 {
        0
    } else {
        (if s[0].exp as int == e {
            s[0].coef as int
        } else {
            0
        }) + coef_of(s.drop_first(), e)
    }
}

/// Canonical sparse form: strictly descending exponents, no zero
/// coefficient, exponents within the degree bound.
pub open spec fn wf_terms(s: Seq<Term>) -> bool {
    &&& forall|i: int| 0 <= i < s.len() ==> (#[trigger] s[i]).coef != 0
    &&& forall|i: int| 0 <= i < s.len() ==> (#[trigger] s[i]).exp <= MAX_EXPONENT
    &&& forall|i: int, j: int| 0 <= i < j < s.len() ==> (#[trigger] s[i]).exp > (#[trigger] s[j]).exp
}

/// The degree of a term list in canonical form, -1 for the zero polynomial.
pub open spec fn deg_of(s: Seq<Term>) -> int {
    if s.len() == 0 {
        -1
    } else {
        s[0].exp as int
    }
}

impl Polynomial {
    /// The canonical-form invariant.
    pub open spec fn wf(&self) -> bool {
        wf_terms(self.terms@)
    }

    /// The coefficient of `x^e`.
    pub open spec fn coef(&self, e: int) -> int {
        coef_of(self.terms@, e)
    }

    /// The degree, -1 for the zero polynomial.
    pub open spec fn deg(&self) -> int {
        deg_of(self.terms@)
    }
}

/// The coefficient function ignores a prepended term of another exponent
/// and adds in one of the same exponent.
pub proof fn lemma_coef_additive(s1: Seq<Term>, s2: Seq<Term>, e: int)
    ensures
        coef_of(s1 + s2, e) == coef_of(s1, e) + coef_of(s2, e),
    decreases s1.len(),
{
    if s1.len() == 0 {
        assert(s1 + s2 =~= s2);
    } else {
        assert((s1 + s2).drop_first() =~= s1.drop_first() + s2);
        lemma_coef_additive(s1.drop_first(), s2, e);
    }
}

/// A term list without exponent `e` contributes nothing at `e`.
pub proof fn lemma_coef_absent(s: Seq<Term>, e: int)
    requires
        forall|i: int| 0 <= i < s.len() ==> (#[trigger] s[i]).exp as int != e,
    ensures
        coef_of(s, e) == 0,
    decreases s.len(),
{
    if s.len() > 0 {
        lemma_coef_absent(s.drop_first(), e);
    }
}

/// In a list with pairwise distinct exponents, the coefficient at a
/// stored exponent is the stored coefficient.
pub proof fn lemma_coef_at_index(s: Seq<Term>, i: int)
    requires
        0 <= i < s.len(),
        forall|k: int, j: int| 0 <= k < j < s.len() ==> (#[trigger] s[k]).exp != (#[trigger] s[j]).exp,
    ensures
        coef_of(s, s[i].exp as int) == s[i].coef as int,
    decreases s.len(),
{
    let e = s[i].exp as int;
    if i == 0 {
        assert(forall|k: int| 0 <= k < s.drop_first().len()
            ==> (#[trigger] s.drop_first()[k]).exp as int != e);
        lemma_coef_absent(s.drop_first(), e);
    } else {
        lemma_coef_at_index(s.drop_first(), i - 1);
        assert(s.drop_first()[i - 1] == s[i]);
    }
}

/// In canonical form every coefficient value fits a machine word.
pub proof fn lemma_coef_range(s: Seq<Term>, e: int)
    requires
        forall|k: int, j: int| 0 <= k < j < s.len() ==> (#[trigger] s[k]).exp != (#[trigger] s[j]).exp,
    ensures
        fits_i64(coef_of(s, e)),
    decreases s.len(),
{
    if s.len() == 0 {
    } else if s[0].exp as int == e {
        assert(forall|k: int| 0 <= k < s.drop_first().len()
            ==> (#[trigger] s.drop_first()[k]).exp as int != e);
        lemma_coef_absent(s.drop_first(), e);
    } else {
        lemma_coef_range(s.drop_first(), e);
    }
}

/// Outside `[0, head exponent]` a canonical list has coefficient 0.
pub proof fn lemma_coef_beyond(s: Seq<Term>, e: int)
    requires
        wf_terms(s),
        e < 0 || e > deg_of(s),
    ensures
        coef_of(s, e) == 0,
{
    assert forall|i: int| 0 <= i < s.len() implies (#[trigger] s[i]).exp as int != e by {
        if i > 0 {
            assert(s[0].exp > s[i].exp);
        }
    }
    lemma_coef_absent(s, e);
}

/// Two canonical term lists with the same coefficient function are the
/// same list: the canonical sparse form is unique.
pub proof fn lemma_canonical_unique(s1: Seq<Term>, s2: Seq<Term>)
    requires
        wf_terms(s1),
        wf_terms(s2),
        forall|e: int| coef_of(s1, e) == coef_of(s2, e),
    ensures
        s1 == s2,
    decreases s1.len(),
{
    if s1.len() == 0 && s2.len() == 0 {
        assert(s1 =~= s2);
    } else if s1.len() == 0 {
        lemma_coef_at_index(s2, 0);
        assert(coef_of(s1, s2[0].exp as int) == 0);
    } else if s2.len() == 0 {
        lemma_coef_at_index(s1, 0);
        assert(coef_of(s2, s1[0].exp as int) == 0);
    } else {
        let e1 = s1[0].exp as int;
        let e2 = s2[0].exp as int;
        lemma_coef_at_index(s1, 0);
        lemma_coef_at_index(s2, 0);
        if e1 > e2 {
            lemma_coef_beyond(s2, e1);
        }
        if e2 > e1 {
            lemma_coef_beyond(s1, e2);
        }
        assert(e1 == e2);
        assert(s1[0].coef == s2[0].coef);
        let t1 = s1.drop_first();
        let t2 = s2.drop_first();
        assert forall|e: int| coef_of(t1, e) == coef_of(t2, e) by {
            if e == e1 {
                assert(forall|i: int| 0 <= i < t1.len() ==> (#[trigger] t1[i]).exp as int != e);
                assert(forall|i: int| 0 <= i < t2.len() ==> (#[trigger] t2[i]).exp as int != e);
                lemma_coef_absent(t1, e);
                lemma_coef_absent(t2, e);
            } else {
                assert(coef_of(s1, e) == coef_of(t1, e));
                assert(coef_of(s2, e) == coef_of(t2, e));
            }
        }
        lemma_canonical_unique(t1, t2);
        assert(s1.len() == s2.len());
        assert forall|i: int| 0 <= i < s1.len() implies s1[i] == s2[i] by {
            if i > 0 {
                assert(t1[i - 1] == s1[i]);
                assert(t2[i - 1] == s2[i]);
            }
        }
        assert(s1 =~= s2);
    }
}

/// The canonical term list of the coefficient function `f` up to
/// exponent `d`: descending exponents, zeros dropped.
pub open spec fn canon_from(f: spec_fn(int) -> int, d: int) -> Seq<Term>
    decreases d + 1,
{
    if d < 0 {
        Seq::<Term>::empty()
    } else {
        (if f(d) != 0 {
            seq![Term { exp: d as u32, coef: f(d) as i64 }]
        } else {
            Seq::<Term>::empty()
        }) + canon_from(f, d - 1)
    }
}

/// The canonical term list of a bounded coefficient function is in
/// canonical form and carries exactly that function.
pub proof fn lemma_canon(f: spec_fn(int) -> int, d: int)
    requires
        d <= MAX_EXPONENT,
        forall|e: int| 0 <= e <= d ==> fits_i64(#[trigger] f(e)),
    ensures
        wf_terms(canon_from(f, d)),
        forall|e: int| #[trigger] coef_of(canon_from(f, d), e) == if 0 <= e <= d {
            f(e)
        } else {
            0
        },
        forall|i: int| 0 <= i < canon_from(f, d).len()
            ==> (#[trigger] canon_from(f, d)[i]).exp <= d,
    decreases d + 1,
{
    if d < 0 {
        assert forall|e: int| #[trigger] coef_of(canon_from(f, d), e) == 0 by {
            assert(canon_from(f, d).len() == 0);
        }
    } else {
        lemma_canon(f, d - 1);
        let tail = canon_from(f, d - 1);
        let whole = canon_from(f, d);
        if f(d) != 0 {
            let t = Term { exp: d as u32, coef: f(d) as i64 };
            assert(whole == seq![t] + tail);
            assert(whole.len() == 1 + tail.len());
            assert(whole[0] == t);
            assert forall|i: int| 0 <= i < whole.len() implies (#[trigger] whole[i]).exp <= d by {
                if i > 0 {
                    assert(whole[i] == tail[i - 1]);
                }
            }
            assert forall|k: int, j: int| 0 <= k < j < whole.len()
                implies (#[trigger] whole[k]).exp > (#[trigger] whole[j]).exp by {
                if k > 0 {
                    assert(whole[k] == tail[k - 1]);
                    assert(whole[j] == tail[j - 1]);
                } else {
                    assert(whole[j] == tail[j - 1]);
                    assert(tail[j - 1].exp <= d - 1);
                }
            }
            assert forall|i: int| 0 <= i < whole.len() implies (#[trigger] whole[i]).coef != 0 by {
                if i > 0 {
                    assert(whole[i] == tail[i - 1]);
                }
            }
            assert forall|e: int| #[trigger] coef_of(whole, e) == if 0 <= e <= d {
                f(e)
            } else {
                0
            } by {
                lemma_coef_additive(seq![t], tail, e);
                lemma_coef_push(Seq::<Term>::empty(), t, e);
                assert(Seq::<Term>::empty().push(t) =~= seq![t]);
            }
        } else {
            assert(whole =~= tail);
            assert forall|e: int| #[trigger] coef_of(whole, e) == if 0 <= e <= d {
                f(e)
            } else {
                0
            } by {
            }
        }
    }
}

/// The canonical sum of two canonical term lists.
pub open spec fn spec_padd(a: Seq<Term>, b: Seq<Term>) -> Seq<Term> {
    canon_from(|e: int| coef_of(a, e) + coef_of(b, e), MAX_EXPONENT as int)
}

/// Do all summed coefficients fit the machine?
pub open spec fn padd_fits(a: Seq<Term>, b: Seq<Term>) -> bool {
    forall|e: int| fits_i64(coef_of(a, e) + coef_of(b, e))
}

/// The canonical difference of two canonical term lists.
pub open spec fn spec_psub(a: Seq<Term>, b: Seq<Term>) -> Seq<Term> {
    canon_from(|e: int| coef_of(a, e) - coef_of(b, e), MAX_EXPONENT as int)
}

/// Does the difference, computed as the sum with the negation, fit the
/// machine?
pub open spec fn psub_fits(a: Seq<Term>, b: Seq<Term>) -> bool {
    &&& forall|e: int| #[trigger] coef_of(b, e) != i64::MIN
    &&& forall|e: int| fits_i64(coef_of(a, e) - coef_of(b, e))
}

/// The canonical product of two canonical term lists.
pub open spec fn spec_pmul(a: Seq<Term>, b: Seq<Term>) -> Seq<Term> {
    canon_from(|e: int| mul_coef(a, b, e), MAX_EXPONENT as int)
}

/// A canonical polynomial whose coefficient function matches a bounded
/// `f` everywhere is the canonical list of `f`.
pub proof fn lemma_matches_canon(r: Polynomial, f: spec_fn(int) -> int)
    requires
        r.wf(),
        forall|e: int| 0 <= e <= MAX_EXPONENT ==> fits_i64(#[trigger] f(e)),
        forall|e: int| 0 <= e <= MAX_EXPONENT ==> #[trigger] r.coef(e) == f(e),
    ensures
        r.terms@ == canon_from(f, MAX_EXPONENT as int),
{
    lemma_canon(f, MAX_EXPONENT as int);
    assert forall|e: int| coef_of(r.terms@, e) == coef_of(
        canon_from(f, MAX_EXPONENT as int),
        e,
    ) by {
        if e < 0 || e > MAX_EXPONENT {
            lemma_coef_beyond(r.terms@, e);
        } else {
            assert(r.coef(e) == f(e));
        }
    }
    lemma_canonical_unique(r.terms@, canon_from(f, MAX_EXPONENT as int));
}

/// Differentiation distributes over addition. If `s` is the sum of `p`
/// and `q`, `ds` its derivative, and `dp`, `dq`, `dpq` the derivatives
/// of `p` and `q` and their sum — each related to its inputs as the
/// `ensures` of `add` and `derivative` state — then differentiating the
/// sum and summing the derivatives give the same canonical polynomial.
pub proof fn lemma_derivative_linear(
    p: Polynomial,
    q: Polynomial,
    s: Polynomial,
    ds: Polynomial,
    dp: Polynomial,
    dq: Polynomial,
    dpq: Polynomial,
)
    requires
        p.wf(),
        q.wf(),
        s.wf(),
        ds.wf(),
        dp.wf(),
        dq.wf(),
        dpq.wf(),
        forall|e: int| #[trigger] s.coef(e) == p.coef(e) + q.coef(e),
        forall|e: int| 0 <= e ==> #[trigger] ds.coef(e) == (e + 1) * s.coef(e + 1),
        forall|e: int| 0 <= e ==> #[trigger] dp.coef(e) == (e + 1) * p.coef(e + 1),
        forall|e: int| 0 <= e ==> #[trigger] dq.coef(e) == (e + 1) * q.coef(e + 1),
        forall|e: int| #[trigger] dpq.coef(e) == dp.coef(e) + dq.coef(e),
    ensures
        ds.terms@ == dpq.terms@,
{
    assert forall|e: int| coef_of(ds.terms@, e) == coef_of(dpq.terms@, e) by {
        assert(ds.coef(e) == coef_of(ds.terms@, e));
        assert(dpq.coef(e) == coef_of(dpq.terms@, e));
        if e >= 0 {
            assert((e + 1) * (p.coef(e + 1) + q.coef(e + 1))
                == (e + 1) * p.coef(e + 1) + (e + 1) * q.coef(e + 1)) by (nonlinear_arith);
        } else {
            lemma_coef_beyond(ds.terms@, e);
            lemma_coef_beyond(dpq.terms@, e);
        }
    }
    lemma_canonical_unique(ds.terms@, dpq.terms@);
}

/// Appending a term moves the coefficient function by that term alone.
pub proof fn lemma_coef_push(s: Seq<Term>, t: Term, e: int)
    ensures
        coef_of(s.push(t), e) == coef_of(s, e) + (if t.exp as int == e {
            t.coef as int
        } else {
            0
        }),
{
    assert(s.push(t) =~= s + seq![t]);
    lemma_coef_additive(s, seq![t], e);
    assert(seq![t].drop_first() =~= Seq::<Term>::empty());
    assert(coef_of(seq![t], e) == (if t.exp as int == e {
        t.coef as int
    } else {
        0
    }) + coef_of(seq![t].drop_first(), e));
    assert(coef_of(Seq::<Term>::empty(), e) == 0);
}

/// Appending a nonzero, in-bound term below the last exponent keeps the
/// canonical form.
pub proof fn lemma_push_keeps_wf(s: Seq<Term>, t: Term)
    requires
        wf_terms(s),
        t.coef != 0,
        t.exp <= MAX_EXPONENT,
        s.len() > 0 ==> s.last().exp > t.exp,
    ensures
        wf_terms(s.push(t)),
{
    let p = s.push(t);
    assert forall|i: int, j: int| 0 <= i < j < p.len()
        implies (#[trigger] p[i]).exp > (#[trigger] p[j]).exp by {
        if j == p.len() - 1 {
            if i < s.len() - 1 {
                assert(s[i].exp > s[s.len() - 1].exp);
            }
        }
    }
}

/// Strictly descending exponents are pairwise distinct.
pub proof fn lemma_distinct_of_wf(s: Seq<Term>)
    requires
        wf_terms(s),
    ensures
        forall|k: int, j: int| 0 <= k < j < s.len()
            ==> (#[trigger] s[k]).exp != (#[trigger] s[j]).exp,
{
}

/// A term list with every coefficient negated has the negated
/// coefficient function.
pub proof fn lemma_coef_mapped_neg(a: Seq<Term>, b: Seq<Term>, e: int)
    requires
        a.len() == b.len(),
        forall|k: int| 0 <= k < a.len() ==> (#[trigger] b[k]).exp == a[k].exp,
        forall|k: int| 0 <= k < a.len() ==> (#[trigger] b[k]).coef as int == -(a[k].coef as int),
    ensures
        coef_of(b, e) == -coef_of(a, e),
    decreases a.len(),
{
    if a.len() > 0 {
        assert(b[0].exp == a[0].exp);
        lemma_coef_mapped_neg(a.drop_first(), b.drop_first(), e);
    }
}

/// `x^n` over the integers.
pub open spec fn pow_int(x: int, n: nat) -> int
    decreases n,
{
    if n == 0 {
        1
    } else {
        pow_int(x, (n - 1) as nat) * x
    }
}

/// The value of the first `k` terms of `s` at the point `x`.
pub open spec fn eval_prefix(s: Seq<Term>, x: int, k: int) -> int
    decreases k,
{
    if k <= 0 {
        0
    } else {
        eval_prefix(s, x, k - 1) + s[k - 1].coef * pow_int(x, s[k - 1].exp as nat)
    }
}

/// The value of the polynomial at the point `x`: the sum of
/// `coef * x^exp` over all terms.
pub open spec fn poly_eval(s: Seq<Term>, x: int) -> int {
    eval_prefix(s, x, s.len() as int)
}

/// Every intermediate value of the term-by-term evaluation fits a
/// machine word: each power up to a stored exponent, each term value,
/// and each partial sum in term order.
pub open spec fn eval_fits(s: Seq<Term>, x: int) -> bool {
    &&& forall|i: int| 0 <= i < s.len()
        ==> (forall|m: nat| m <= (#[trigger] s[i]).exp ==> fits_i64(#[trigger] pow_int(x, m)))
    &&& forall|i: int| 0 <= i < s.len()
        ==> fits_i64((#[trigger] s[i]).coef * pow_int(x, s[i].exp as nat))
    &&& forall|i: int| 0 <= i < s.len() ==> fits_i64(#[trigger] eval_prefix(s, x, i + 1))
}

/// The convolution sum of the coefficient functions of `a` and `b` at
/// exponent `e`, restricted to first factors below `k`.
pub open spec fn mul_coef_prefix(a: Seq<Term>, b: Seq<Term>, e: int, k: int) -> int
    decreases k,
{
    if k <= 0 {
        0
    } else {
        mul_coef_prefix(a, b, e, k - 1) + coef_of(a, k - 1) * coef_of(b, e - (k - 1))
    }
}

/// The coefficient of `x^e` in the product of `a` and `b`: the sum of
/// `coef_of(a, k) * coef_of(b, e - k)` over all splits of `e`.
pub open spec fn mul_coef(a: Seq<Term>, b: Seq<Term>, e: int) -> int {
    mul_coef_prefix(a, b, e, e + 1)
}

/// Every intermediate value of the convolution computation fits a
/// machine word: each pairwise coefficient product and each partial sum
/// in ascending split order.
pub open spec fn mul_fits(a: Seq<Term>, b: Seq<Term>) -> bool {
    &&& forall|e: int, k: int| 0 <= e <= MAX_EXPONENT && 0 <= k <= e
        ==> fits_i64(#[trigger] (coef_of(a, k) * coef_of(b, e - k)))
    &&& forall|e: int, k: int| 0 <= e <= MAX_EXPONENT && 0 <= k <= e
        ==> fits_i64(#[trigger] mul_coef_prefix(a, b, e, k + 1))
}

/// Past the summed degrees every convolution summand, and so every
/// partial convolution sum, is 0.
pub proof fn lemma_mul_coef_beyond(a: Seq<Term>, b: Seq<Term>, e: int, k: int)
    requires
        wf_terms(a),
        wf_terms(b),
        e > deg_of(a) + deg_of(b),
    ensures
        mul_coef_prefix(a, b, e, k) == 0,
        forall|j: int| 0 <= j < k ==> #[trigger] (coef_of(a, j) * coef_of(b, e - j)) == 0,
    decreases k,
{
    if k > 0 {
        lemma_mul_coef_beyond(a, b, e, k - 1);
        if k - 1 > deg_of(a) {
            lemma_coef_beyond(a, k - 1);
        } else {
            lemma_coef_beyond(b, e - (k - 1));
        }
    }
}

/// A convolution with the zero polynomial is 0 everywhere.
pub proof fn lemma_mul_coef_zero(a: Seq<Term>, b: Seq<Term>, e: int, k: int)
    requires
        a.len() == 0 || b.len() == 0,
    ensures
        mul_coef_prefix(a, b, e, k) == 0,
    decreases k,
{
    if k > 0 {
        lemma_mul_coef_zero(a, b, e, k - 1);
        if a.len() == 0 {
            assert(coef_of(a, k - 1) == 0);
        } else {
            assert(coef_of(b, e - (k - 1)) == 0);
        }
    }
}

/// `x^n` on machine words, `None` exactly when an intermediate power
/// leaves the machine range.
fn pow_checked(x: i64, n: u32) -> (r: Option<i64>)
    ensures
        r is Some <==> forall|m: nat| m <= n ==> fits_i64(#[trigger] pow_int(x as int, m)),
        r is Some ==> r->0 as int == pow_int(x as int, n as nat),
{
    let mut acc: i64 = 1;
    let mut k: u32 = 0;
    while k < n
        invariant
            k <= n,
            acc as int == pow_int(x as int, k as nat),
            forall|m: nat| m <= k ==> fits_i64(#[trigger] pow_int(x as int, m)),
        decreases n - k,
    {
        acc = match acc.checked_mul(x) {
            None => {
                proof {
                    assert(pow_int(x as int, (k + 1) as nat) == pow_int(x as int, k as nat) * (x as int));
                }
                return None;
            },
            Some(a) => a,
        };
        proof {
            assert forall|m: nat| m <= k + 1 implies fits_i64(#[trigger] pow_int(x as int, m)) by {
                if m == k + 1 {
                    assert(pow_int(x as int, m) == pow_int(x as int, k as nat) * (x as int));
                }
            }
        }
        k += 1;
    }
    Some(acc)
}

impl Polynomial {
    /// The zero polynomial: the empty term list.
    pub fn zero() -> (r: Polynomial)
        ensures
            r.wf(),
            r.terms@.len() == 0,
            forall|e: int| r.coef(e) == 0,
    {
        let r = Polynomial { terms: Vec::new() };
        proof {
            assert forall|e: int| r.coef(e) == 0 by {
                lemma_coef_absent(r.terms@, e);
            }
        }
        r
    }

    /// An exact copy.
    pub fn duplicate(&self) -> (r: Polynomial)
        ensures
            r.terms@ == self.terms@,
    {
        let mut out: Vec<Term> = Vec::new();
        let n = self.terms.len();
        let mut i: usize = 0;
        while i < n
            invariant
                i <= n,
                n == self.terms@.len(),
                out@ == self.terms@.take(i as int),
            decreases n - i,
        {
            out.push(self.terms[i]);
            proof {
                assert(out@ =~= self.terms@.take(i as int + 1));
            }
            i += 1;
        }
        proof {
            assert(out@ =~= self.terms@);
        }
        Polynomial { terms: out }
    }

    /// The number of stored terms.
    pub fn term_count(&self) -> (r: usize)
        ensures
            r == self.terms@.len(),
    {
        self.terms.len()
    }

    /// The sum of two polynomials: coefficients added pointwise, zero
    /// results dropped. Fails with `Overflow` exactly when some summed
    /// coefficient leaves the machine range.
    pub fn add(&self, other: &Polynomial) -> (r: Result<Polynomial, PolyError>)
        requires
            self.wf(),
            other.wf(),
        ensures
            r is Ok <==> forall|e: int| fits_i64(self.coef(e) + other.coef(e)),
            r is Ok ==> r->Ok_0.wf(),
            r is Ok ==> forall|e: int| #[trigger] r->Ok_0.coef(e) == self.coef(e) + other.coef(e),
            r is Err ==> r->Err_0 == PolyError::Overflow,
    {
        let ghost aseq = self.terms@;
        let ghost bseq = other.terms@;
        let alen = self.terms.len();
        let blen = other.terms.len();
        let mut out: Vec<Term> = Vec::new();
        let mut i: usize = 0;
        let mut j: usize = 0;
        while i < alen || j < blen
            invariant
                i <= alen,
                j <= blen,
                alen == aseq.len(),
                blen == bseq.len(),
                aseq == self.terms@,
                bseq == other.terms@,
                wf_terms(aseq),
                wf_terms(bseq),
                wf_terms(out@),
                out@.len() > 0 && i < alen ==> out@.last().exp > aseq[i as int].exp,
                out@.len() > 0 && j < blen ==> out@.last().exp > bseq[j as int].exp,
                forall|e: int| #[trigger] coef_of(out@, e)
                    == coef_of(aseq.take(i as int), e) + coef_of(bseq.take(j as int), e),
            decreases alen - i + blen - j,
        {
            let ghost out0 = out@;
            if j == blen || (i < alen && self.terms[i].exp > other.terms[j].exp) {
                let t = self.terms[i];
                proof {
                    lemma_push_keeps_wf(out@, t);
                }
                out.push(t);
                proof {
                    assert(aseq.take(i as int + 1) =~= aseq.take(i as int).push(t));
                    assert forall|e: int| #[trigger] coef_of(out@, e)
                        == coef_of(aseq.take(i as int + 1), e) + coef_of(bseq.take(j as int), e) by {
                        lemma_coef_push(out0, t, e);
                        lemma_coef_push(aseq.take(i as int), t, e);
                    }
                }
                i += 1;
            } else if i == alen || other.terms[j].exp > self.terms[i].exp {
                let t = other.terms[j];
                proof {
                    lemma_push_keeps_wf(out@, t);
                }
                out.push(t);
                proof {
                    assert(bseq.take(j as int + 1) =~= bseq.take(j as int).push(t));
                    assert forall|e: int| #[trigger] coef_of(out@, e)
                        == coef_of(aseq.take(i as int), e) + coef_of(bseq.take(j as int + 1), e) by {
                        lemma_coef_push(out0, t, e);
                        lemma_coef_push(bseq.take(j as int), t, e);
                    }
                }
                j += 1;
            } else {
                let ta = self.terms[i];
                let tb = other.terms[j];
                match ta.coef.checked_add(tb.coef) {
                    None => {
                        proof {
                            lemma_distinct_of_wf(aseq);
                            lemma_distinct_of_wf(bseq);
                            lemma_coef_at_index(aseq, i as int);
                            lemma_coef_at_index(bseq, j as int);
                            assert(!fits_i64(self.coef(ta.exp as int) + other.coef(ta.exp as int)));
                        }
                        return Err(PolyError::Overflow);
                    },
                    Some(c) => {
                        if c != 0 {
                            let t = Term { exp: ta.exp, coef: c };
                            proof {
                                lemma_push_keeps_wf(out@, t);
                            }
                            out.push(t);
                        }
                        proof {
                            assert(aseq.take(i as int + 1) =~= aseq.take(i as int).push(ta));
                            assert(bseq.take(j as int + 1) =~= bseq.take(j as int).push(tb));
                            assert forall|e: int| #[trigger] coef_of(out@, e)
                                == coef_of(aseq.take(i as int + 1), e)
                                    + coef_of(bseq.take(j as int + 1), e) by {
                                if c != 0 {
                                    lemma_coef_push(out0, Term { exp: ta.exp, coef: c }, e);
                                }
                                lemma_coef_push(aseq.take(i as int), ta, e);
                                lemma_coef_push(bseq.take(j as int), tb, e);
                            }
                        }
                        i += 1;
                        j += 1;
                    },
                }
            }
        }
        proof {
            assert(aseq.take(i as int) =~= aseq);
            assert(bseq.take(j as int) =~= bseq);
        }
        let r = Polynomial { terms: out };
        proof {
            lemma_distinct_of_wf(r.terms@);
            assert forall|e: int| fits_i64(self.coef(e) + other.coef(e)) by {
                lemma_coef_range(r.terms@, e);
            }
        }
        Ok(r)
    }

    /// The pointwise negation. Fails with `Overflow` exactly when a
    /// coefficient is the one machine value without a negation.
    pub fn neg(&self) -> (r: Result<Polynomial, PolyError>)
        requires
            self.wf(),
        ensures
            r is Ok <==> forall|e: int| #[trigger] self.coef(e) != i64::MIN,
            r is Ok ==> r->Ok_0.wf(),
            r is Ok ==> forall|e: int| #[trigger] r->Ok_0.coef(e) == -self.coef(e),
            r is Err ==> r->Err_0 == PolyError::Overflow,
    {
        let ghost aseq = self.terms@;
        let n = self.terms.len();
        let mut out: Vec<Term> = Vec::new();
        let mut i: usize = 0;
        while i < n
            invariant
                i <= n,
                n == aseq.len(),
                aseq == self.terms@,
                wf_terms(aseq),
                wf_terms(out@),
                out@.len() == i,
                forall|k: int| 0 <= k < i ==> (#[trigger] out@[k]).exp == aseq[k].exp,
                forall|k: int| 0 <= k < i ==> (#[trigger] out@[k]).coef as int == -(aseq[k].coef as int),
            decreases n - i,
        {
            let t = self.terms[i];
            match 0i64.checked_sub(t.coef) {
                None => {
                    proof {
                        lemma_distinct_of_wf(aseq);
                        lemma_coef_at_index(aseq, i as int);
                        assert(self.coef(t.exp as int) == i64::MIN);
                    }
                    return Err(PolyError::Overflow);
                },
                Some(c) => {
                    let nt = Term { exp: t.exp, coef: c };
                    proof {
                        assert forall|k: int, j: int| 0 <= k < j < out@.push(nt).len()
                            implies (#[trigger] out@.push(nt)[k]).exp > (#[trigger] out@.push(nt)[j]).exp by {
                            assert(out@.push(nt)[k].exp == aseq[k].exp);
                            assert(out@.push(nt)[j].exp == aseq[j].exp);
                        }
                    }
                    out.push(nt);
                },
            }
            i += 1;
        }
        let r = Polynomial { terms: out };
        proof {
            lemma_distinct_of_wf(aseq);
            lemma_distinct_of_wf(r.terms@);
            assert forall|e: int| #[trigger] coef_of(r.terms@, e) == -coef_of(aseq, e) by {
                lemma_coef_mapped_neg(aseq, r.terms@, e);
            }
            assert forall|e: int| #[trigger] coef_of(aseq, e) != i64::MIN by {
                lemma_coef_range(r.terms@, e);
            }
        }
        Ok(r)
    }

    /// The difference, computed as the sum with the negation. Fails with
    /// `Overflow` exactly when the negation or a summed coefficient
    /// leaves the machine range.
    pub fn sub(&self, other: &Polynomial) -> (r: Result<Polynomial, PolyError>)
        requires
            self.wf(),
            other.wf(),
        ensures
            r is Ok <==> ((forall|e: int| #[trigger] other.coef(e) != i64::MIN)
                && (forall|e: int| fits_i64(self.coef(e) - other.coef(e)))),
            r is Ok ==> r->Ok_0.wf(),
            r is Ok ==> forall|e: int| #[trigger] r->Ok_0.coef(e) == self.coef(e) - other.coef(e),
            r is Err ==> r->Err_0 == PolyError::Overflow,
    {
        match other.neg() {
            Err(e) => Err(e),
            Ok(n) => self.add(&n),
        }
    }

    /// The formal derivative: each term `c * x^e` with `e >= 1` becomes
    /// `c*e * x^(e-1)`; constant terms vanish. Fails with `Overflow`
    /// exactly when some product `c*e` leaves the machine range.
    pub fn derivative(&self) -> (r: Result<Polynomial, PolyError>)
        requires
            self.wf(),
        ensures
            r is Ok <==> forall|e: int| 0 <= e ==> fits_i64((e + 1) * #[trigger] self.coef(e + 1)),
            r is Ok ==> r->Ok_0.wf(),
            r is Ok ==> forall|e: int| 0 <= e
                ==> #[trigger] r->Ok_0.coef(e) == (e + 1) * self.coef(e + 1),
            r is Err ==> r->Err_0 == PolyError::Overflow,
    {
        let ghost aseq = self.terms@;
        let n = self.terms.len();
        let mut out: Vec<Term> = Vec::new();
        let mut i: usize = 0;
        while i < n
            invariant
                i <= n,
                n == aseq.len(),
                aseq == self.terms@,
                wf_terms(aseq),
                out@.len() <= i,
                out@.len() == i || (i > 0 && aseq[i - 1].exp == 0 && out@.len() == i - 1),
                forall|k: int| 0 <= k < out@.len()
                    ==> (#[trigger] out@[k]).exp as int == aseq[k].exp - 1,
                forall|k: int| 0 <= k < out@.len()
                    ==> (#[trigger] out@[k]).coef as int == (aseq[k].exp as int) * (aseq[k].coef as int),
                forall|k: int| 0 <= k < out@.len() ==> (#[trigger] out@[k]).coef != 0,
            decreases n - i,
        {
            let t = self.terms[i];
            if t.exp > 0 {
                proof {
                    if out@.len() != i {
                        assert(aseq[i - 1].exp > aseq[i as int].exp);
                    }
                }
                match t.coef.checked_mul(t.exp as i64) {
                    None => {
                        proof {
                            lemma_distinct_of_wf(aseq);
                            lemma_coef_at_index(aseq, i as int);
                            let ghost e = t.exp as int - 1;
                            assert((t.coef as int) * (t.exp as int) == (e + 1) * self.coef(e + 1))
                                by (nonlinear_arith)
                                requires
                                    self.coef(e + 1) == t.coef as int,
                                    e + 1 == t.exp as int,
                            ;
                            assert(!fits_i64((e + 1) * self.coef(e + 1)));
                        }
                        return Err(PolyError::Overflow);
                    },
                    Some(c) => {
                        proof {
                            assert(c != 0) by (nonlinear_arith)
                                requires
                                    c as int == (t.coef as int) * (t.exp as int),
                                    t.coef != 0,
                                    t.exp > 0,
                            ;
                            assert(c as int == (t.exp as int) * (t.coef as int)) by (nonlinear_arith)
                                requires
                                    c as int == (t.coef as int) * (t.exp as int),
                            ;
                        }
                        out.push(Term { exp: t.exp - 1, coef: c });
                    },
                }
            }
            i += 1;
        }
        let r = Polynomial { terms: out };
        proof {
            assert forall|k: int, j: int| 0 <= k < j < r.terms@.len()
                implies (#[trigger] r.terms@[k]).exp > (#[trigger] r.terms@[j]).exp by {
                assert(aseq[k].exp > aseq[j].exp);
            }
            assert(r.wf());
            lemma_distinct_of_wf(aseq);
            lemma_distinct_of_wf(r.terms@);
            assert forall|e: int| 0 <= e implies #[trigger] r.coef(e) == (e + 1) * self.coef(e + 1)
                && fits_i64((e + 1) * self.coef(e + 1)) by {
                if coef_of(aseq, e + 1) == 0 {
                    assert forall|k: int| 0 <= k < r.terms@.len()
                        implies (#[trigger] r.terms@[k]).exp as int != e by {
                        if r.terms@[k].exp as int == e {
                            lemma_coef_at_index(aseq, k);
                        }
                    }
                    lemma_coef_absent(r.terms@, e);
                } else {
                    if forall|k: int| 0 <= k < aseq.len()
                        ==> (#[trigger] aseq[k]).exp as int != e + 1 {
                        lemma_coef_absent(aseq, e + 1);
                    }
                    let k = choose|k: int|
                        0 <= k < aseq.len() && (#[trigger] aseq[k]).exp as int == e + 1;
                    lemma_coef_at_index(aseq, k);
                    assert(k < r.terms@.len());
                    assert(r.terms@[k].exp as int == e);
                    lemma_coef_at_index(r.terms@, k);
                }
            }
            assert forall|e: int| 0 <= e implies fits_i64((e + 1) * #[trigger] self.coef(e + 1)) by {
                assert(r.coef(e) == (e + 1) * self.coef(e + 1));
            }
        }
        Ok(r)
    }

    /// The value of the polynomial at the point `x`, summed term by
    /// term. Fails with `Overflow` exactly when an intermediate power,
    /// product or partial sum leaves the machine range.
    pub fn eval_at(&self, x: i64) -> (r: Result<i64, PolyError>)
        requires
            self.wf(),
        ensures
            r is Ok <==> eval_fits(self.terms@, x as int),
            r is Ok ==> r->Ok_0 as int == poly_eval(self.terms@, x as int),
            r is Err ==> r->Err_0 == PolyError::Overflow,
    {
        let ghost s = self.terms@;
        let n = self.terms.len();
        let mut acc: i64 = 0;
        let mut i: usize = 0;
        while i < n
            invariant
                i <= n,
                n == s.len(),
                s == self.terms@,
                wf_terms(s),
                acc as int == eval_prefix(s, x as int, i as int),
                forall|ii: int| 0 <= ii < i
                    ==> (forall|m: nat| m <= (#[trigger] s[ii]).exp
                        ==> fits_i64(#[trigger] pow_int(x as int, m))),
                forall|ii: int| 0 <= ii < i
                    ==> fits_i64((#[trigger] s[ii]).coef * pow_int(x as int, s[ii].exp as nat)),
                forall|ii: int| 0 <= ii < i
                    ==> fits_i64(#[trigger] eval_prefix(s, x as int, ii + 1)),
            decreases n - i,
        {
            let t = self.terms[i];
            let p = match pow_checked(x, t.exp) {
                None => {
                    proof {
                        if eval_fits(s, x as int) {
                            assert(forall|m: nat| m <= (s[i as int]).exp
                                ==> fits_i64(#[trigger] pow_int(x as int, m)));
                        }
                    }
                    return Err(PolyError::Overflow);
                },
                Some(p) => p,
            };
            let tv = match t.coef.checked_mul(p) {
                None => {
                    proof {
                        if eval_fits(s, x as int) {
                            assert(fits_i64((s[i as int]).coef
                                * pow_int(x as int, s[i as int].exp as nat)));
                        }
                    }
                    return Err(PolyError::Overflow);
                },
                Some(tv) => tv,
            };
            acc = match acc.checked_add(tv) {
                None => {
                    proof {
                        if eval_fits(s, x as int) {
                            assert(fits_i64(eval_prefix(s, x as int, i as int + 1)));
                        }
                    }
                    return Err(PolyError::Overflow);
                },
                Some(a2) => a2,
            };
            i += 1;
        }
        Ok(acc)
    }

    /// The product of two polynomials: for every pair of exponents
    /// `(e1, e2)`, `c1*c2` is accumulated at `e1+e2` and zero results
    /// are dropped. Fails with `InputFormatInvalid` when the degree of
    /// the product would exceed the bound, and otherwise with
    /// `Overflow` exactly when an intermediate product or partial
    /// convolution sum leaves the machine range.
    pub fn mul(&self, other: &Polynomial) -> (r: Result<Polynomial, PolyError>)
        requires
            self.wf(),
            other.wf(),
        ensures
            r is Ok <==> (self.deg() + other.deg() <= MAX_EXPONENT
                && mul_fits(self.terms@, other.terms@)),
            r is Ok ==> r->Ok_0.wf(),
            r is Ok ==> forall|e: int| #[trigger] r->Ok_0.coef(e)
                == mul_coef(self.terms@, other.terms@, e),
            !(self.deg() + other.deg() <= MAX_EXPONENT) ==> r == Err::<Polynomial, PolyError>(
                PolyError::InputFormatInvalid,
            ),
            self.deg() + other.deg() <= MAX_EXPONENT && !mul_fits(self.terms@, other.terms@)
                ==> r == Err::<Polynomial, PolyError>(PolyError::Overflow),
    {
        let ghost aseq = self.terms@;
        let ghost bseq = other.terms@;
        if self.terms.len() == 0 || other.terms.len() == 0 {
            let z = Polynomial::zero();
            proof {
                assert forall|e: int| #[trigger] coef_of(z.terms@, e) == mul_coef(aseq, bseq, e) by {
                    lemma_mul_coef_zero(aseq, bseq, e, e + 1);
                }
                assert forall|e: int, k: int| 0 <= e <= MAX_EXPONENT && 0 <= k <= e
                    implies fits_i64(#[trigger] (coef_of(aseq, k) * coef_of(bseq, e - k))) by {
                    if aseq.len() == 0 {
                        assert(coef_of(aseq, k) == 0);
                    } else {
                        assert(coef_of(bseq, e - k) == 0);
                    }
                }
                assert forall|e: int, k: int| 0 <= e <= MAX_EXPONENT && 0 <= k <= e
                    implies fits_i64(#[trigger] mul_coef_prefix(aseq, bseq, e, k + 1)) by {
                    lemma_mul_coef_zero(aseq, bseq, e, k + 1);
                }
            }
            return Ok(z);
        }
        let dega = self.terms[0].exp;
        let degb = other.terms[0].exp;
        if dega > MAX_EXPONENT - degb {
            return Err(PolyError::InputFormatInvalid);
        }
        let dd: u32 = dega + degb;
        let mut out: Vec<Term> = Vec::new();
        let mut e: u32 = dd + 1;
        while e > 0
            invariant
                e <= dd + 1,
                dd == dega + degb,
                dd <= MAX_EXPONENT,
                dega as int == deg_of(aseq),
                degb as int == deg_of(bseq),
                aseq == self.terms@,
                bseq == other.terms@,
                wf_terms(aseq),
                wf_terms(bseq),
                wf_terms(out@),
                out@.len() > 0 ==> out@.last().exp as int >= e,
                forall|ee: int| #[trigger] coef_of(out@, ee) == if e <= ee <= dd {
                    mul_coef(aseq, bseq, ee)
                } else {
                    0
                },
                forall|ee: int, k: int| e <= ee <= dd && 0 <= k <= ee
                    ==> fits_i64(#[trigger] (coef_of(aseq, k) * coef_of(bseq, ee - k))),
                forall|ee: int, k: int| e <= ee <= dd && 0 <= k <= ee
                    ==> fits_i64(#[trigger] mul_coef_prefix(aseq, bseq, ee, k + 1)),
            decreases e,
        {
            e -= 1;
            let mut acc: i64 = 0;
            let mut k: u32 = 0;
            while k <= e
                invariant
                    k <= e + 1,
                    e <= dd,
                    dd <= MAX_EXPONENT,
                    dd == dega + degb,
                    dega as int == deg_of(aseq),
                    degb as int == deg_of(bseq),
                    aseq == self.terms@,
                    bseq == other.terms@,
                    wf_terms(aseq),
                    wf_terms(bseq),
                    acc as int == mul_coef_prefix(aseq, bseq, e as int, k as int),
                    forall|kk: int| 0 <= kk < k
                        ==> fits_i64(#[trigger] (coef_of(aseq, kk) * coef_of(bseq, e - kk))),
                    forall|kk: int| 0 <= kk < k
                        ==> fits_i64(#[trigger] mul_coef_prefix(aseq, bseq, e as int, kk + 1)),
                decreases e + 1 - k,
            {
                let ca = self.coef_at(k);
                let cb = other.coef_at(e - k);
                let p = match ca.checked_mul(cb) {
                    None => {
                        proof {
                            assert(!fits_i64(coef_of(aseq, k as int) * coef_of(bseq, e - k)));
                        }
                        return Err(PolyError::Overflow);
                    },
                    Some(p) => p,
                };
                acc = match acc.checked_add(p) {
                    None => {
                        proof {
                            assert(!fits_i64(mul_coef_prefix(aseq, bseq, e as int, k as int + 1)));
                        }
                        return Err(PolyError::Overflow);
                    },
                    Some(a2) => a2,
                };
                k += 1;
            }
            let ghost out0 = out@;
            if acc != 0 {
                let t = Term { exp: e, coef: acc };
                proof {
                    lemma_push_keeps_wf(out@, t);
                }
                out.push(t);
            }
            proof {
                assert forall|ee: int| #[trigger] coef_of(out@, ee) == if e <= ee <= dd {
                    mul_coef(aseq, bseq, ee)
                } else {
                    0
                } by {
                    if acc != 0 {
                        lemma_coef_push(out0, Term { exp: e, coef: acc }, ee);
                    }
                }
            }
        }
        let r = Polynomial { terms: out };
        proof {
            assert forall|ee: int| #[trigger] coef_of(r.terms@, ee) == mul_coef(aseq, bseq, ee) by {
                if ee < 0 {
                    assert(coef_of(r.terms@, ee) == 0);
                    assert(mul_coef_prefix(aseq, bseq, ee, ee + 1) == 0);
                } else if ee > dd {
                    assert(coef_of(r.terms@, ee) == 0);
                    lemma_mul_coef_beyond(aseq, bseq, ee, ee + 1);
                }
            }
            assert forall|ee: int, k: int| 0 <= ee <= MAX_EXPONENT && 0 <= k <= ee
                implies fits_i64(#[trigger] (coef_of(aseq, k) * coef_of(bseq, ee - k))) by {
                if ee > dd {
                    lemma_mul_coef_beyond(aseq, bseq, ee, ee + 1);
                    assert(coef_of(aseq, k) * coef_of(bseq, ee - k) == 0);
                }
            }
            assert forall|ee: int, k: int| 0 <= ee <= MAX_EXPONENT && 0 <= k <= ee
                implies fits_i64(#[trigger] mul_coef_prefix(aseq, bseq, ee, k + 1)) by {
                if ee > dd {
                    lemma_mul_coef_beyond(aseq, bseq, ee, k + 1);
                }
            }
        }
        Ok(r)
    }

    /// The stored coefficient of `x^e`.
    pub fn coef_at(&self, e: u32) -> (r: i64)
        requires
            self.wf(),
        ensures
            r as int == self.coef(e as int),
    {
        let n = self.terms.len();
        let mut i: usize = 0;
        while i < n
            invariant
                i <= n,
                n == self.terms@.len(),
                self.wf(),
                forall|j: int| 0 <= j < i ==> (#[trigger] self.terms@[j]).exp != e,
            decreases n - i,
        {
            if self.terms[i].exp == e {
                proof {
                    lemma_coef_at_index(self.terms@, i as int);
                }
                return self.terms[i].coef;
            }
            i += 1;
        }
        proof {
            lemma_coef_absent(self.terms@, e as int);
        }
        0
    }
}

} // verus!
