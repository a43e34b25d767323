//! The polynomial expression engine: expressions over named
//! polynomials combined with `+`, `-`, `*` and parentheses, evaluated
//! with the same two-stack precedence discipline as the integer
//! evaluator but with polynomial-valued operands. Division is not
//! defined on polynomials and is reported as an unknown operator.

use vstd::prelude::*;

verus! {

use crate::errors::PolyError;
use crate::parse::{strip_spaces, stripped_chars};
use crate::poly::{MAX_EXPONENT, Polynomial, Term, coef_of, deg_of, fits_i64, lemma_coef_range,
    lemma_distinct_of_wf, lemma_matches_canon, mul_coef, mul_fits, padd_fits, psub_fits, spec_padd,
    spec_pmul, spec_psub};
use crate::registry::{Registry, name_idx, name_ok};

/// Is `c` part of the combination alphabet (spaces already removed)?
/// `/` belongs to the alphabet but names an unsupported operator.
pub open spec fn comb_char(c: char) -> bool {
    name_ok(c) || c == '+' || c == '-' || c == '*' || c == '/' || c == '(' || c == ')'
}

/// Does `t` consist of combination characters only?
pub open spec fn comb_chars_ok(t: Seq<char>) -> bool {
    forall|i: int| 0 <= i < t.len() ==> comb_char(#[trigger] t[i])
}

/// Does `t` hold a division sign?
pub open spec fn has_div(t: Seq<char>) -> bool {
    exists|i: int| 0 <= i < t.len() && #[trigger] t[i] == '/'
}

/// Precedence over polynomials: `*` binds tighter than `+` and `-`.
pub open spec fn pprec(c: char) -> int {
    if c == '*' {
        2
    } else {
        1
    }
}

/// Does applying `c` to `a` and `b` stay within the machine?
pub open spec fn papply_ok(c: char, a: Seq<Term>, b: Seq<Term>) -> bool {
    if c == '+' {
        padd_fits(a, b)
    } else if c == '-' {
        psub_fits(a, b)
    } else {
        deg_of(a) + deg_of(b) <= MAX_EXPONENT && mul_fits(a, b)
    }
}

/// The canonical result of applying `c` to `a` and `b`.
pub open spec fn papply(c: char, a: Seq<Term>, b: Seq<Term>) -> Seq<Term> {
    if c == '+' {
        spec_padd(a, b)
    } else if c == '-' {
        spec_psub(a, b)
    } else {
        spec_pmul(a, b)
    }
}

/// How a failed application ends: a product beyond the degree bound,
/// or coefficients beyond the machine range.
pub open spec fn papply_err(c: char, a: Seq<Term>, b: Seq<Term>) -> PolyOutcome {
    if c == '*' && !(deg_of(a) + deg_of(b) <= MAX_EXPONENT) {
        PolyOutcome::PTooBig
    } else {
        PolyOutcome::POverflow
    }
}

/// How a polynomial combination ends.
pub enum PolyOutcome {
    PVal(Seq<Term>),
    PMismatch,
    PInvalid,
    PNotFound,
    POverflow,
    PTooBig,
}

/// The two-stack machine over polynomial operands: a name pushes the
/// registry's polynomial; operators reduce by precedence and apply
/// `+`, `-` or `*` canonically; parentheses group; at the end exactly
/// one operand must remain.
pub open spec fn run_pmachine(
    t: Seq<char>,
    slots: Seq<Option<Polynomial>>,
    i: int,
    nums: Seq<Seq<Term>>,
    ops: Seq<char>,
) -> PolyOutcome
    decreases t.len() - i, ops.len(),
{
    if i < 0 || i > t.len() {
        PolyOutcome::PInvalid
    } else if i == t.len() {
        if ops.len() == 0 {
            if nums.len() == 1 {
                PolyOutcome::PVal(nums[0])
            } else {
                PolyOutcome::PInvalid
            }
        } else if ops.last() == '(' {
            PolyOutcome::PMismatch
        } else if nums.len() < 2 {
            PolyOutcome::PInvalid
        } else if !papply_ok(ops.last(), nums[nums.len() - 2], nums.last()) {
            papply_err(ops.last(), nums[nums.len() - 2], nums.last())
        } else {
            run_pmachine(
                t,
                slots,
                i,
                nums.take(nums.len() - 2).push(
                    papply(ops.last(), nums[nums.len() - 2], nums.last()),
                ),
                ops.drop_last(),
            )
        }
    } else {
        let c = t[i];
        if name_ok(c) {
            if slots[name_idx(c)] is None {
                PolyOutcome::PNotFound
            } else {
                run_pmachine(t, slots, i + 1, nums.push(slots[name_idx(c)]->0.terms@), ops)
            }
        } else if c == '(' {
            run_pmachine(t, slots, i + 1, nums, ops.push('('))
        } else if c == ')' {
            if ops.len() == 0 {
                PolyOutcome::PMismatch
            } else if ops.last() == '(' {
                run_pmachine(t, slots, i + 1, nums, ops.drop_last())
            } else if nums.len() < 2 {
                PolyOutcome::PInvalid
            } else if !papply_ok(ops.last(), nums[nums.len() - 2], nums.last()) {
                papply_err(ops.last(), nums[nums.len() - 2], nums.last())
            } else {
                run_pmachine(
                    t,
                    slots,
                    i,
                    nums.take(nums.len() - 2).push(
                        papply(ops.last(), nums[nums.len() - 2], nums.last()),
                    ),
                    ops.drop_last(),
                )
            }
        } else if c == '+' || c == '-' || c == '*' {
            if ops.len() > 0 && ops.last() != '(' && pprec(ops.last()) >= pprec(c) {
                if nums.len() < 2 {
                    PolyOutcome::PInvalid
                } else if !papply_ok(ops.last(), nums[nums.len() - 2], nums.last()) {
                    papply_err(ops.last(), nums[nums.len() - 2], nums.last())
                } else {
                    run_pmachine(
                        t,
                        slots,
                        i,
                        nums.take(nums.len() - 2).push(
                            papply(ops.last(), nums[nums.len() - 2], nums.last()),
                        ),
                        ops.drop_last(),
                    )
                }
            } else {
                run_pmachine(t, slots, i + 1, nums, ops.push(c))
            }
        } else {
            PolyOutcome::PInvalid
        }
    }
}

/// The machine's verdict on a whole stripped expression.
pub open spec fn run_combine(t: Seq<char>, slots: Seq<Option<Polynomial>>) -> PolyOutcome {
    run_pmachine(t, slots, 0, Seq::<Seq<Term>>::empty(), Seq::<char>::empty())
}

/// The views of a stack of polynomials.
pub open spec fn views_of(s: Seq<Polynomial>) -> Seq<Seq<Term>> {
    s.map_values(|p: Polynomial| p.terms@)
}

/// Pops the top operator and applies it to the top two operands. On
/// failure the error mirrors the machine's verdict for this state.
fn preduce_once(nums: &mut Vec<Polynomial>, ops: &mut Vec<char>) -> (r: Result<(), PolyError>)
    requires
        old(ops)@.len() > 0,
        old(ops)@.last() != '(',
        old(ops)@.last() == '+' || old(ops)@.last() == '-' || old(ops)@.last() == '*',
        forall|k: int| 0 <= k < old(nums)@.len() ==> (#[trigger] old(nums)@[k]).wf(),
    ensures
        old(nums)@.len() < 2 ==> r == Err::<(), PolyError>(PolyError::ParseError),
        old(nums)@.len() >= 2 && !papply_ok(
            old(ops)@.last(),
            old(nums)@[old(nums)@.len() - 2].terms@,
            old(nums)@.last().terms@,
        ) ==> r == Err::<(), PolyError>(
            if papply_err(
                old(ops)@.last(),
                old(nums)@[old(nums)@.len() - 2].terms@,
                old(nums)@.last().terms@,
            ) == PolyOutcome::PTooBig {
                PolyError::InputFormatInvalid
            } else {
                PolyError::Overflow
            },
        ),
        r is Ok <==> (old(nums)@.len() >= 2 && papply_ok(
            old(ops)@.last(),
            old(nums)@[old(nums)@.len() - 2].terms@,
            old(nums)@.last().terms@,
        )),
        r is Ok ==> views_of(final(nums)@) == views_of(old(nums)@).take(old(nums)@.len() - 2).push(
            papply(
                old(ops)@.last(),
                old(nums)@[old(nums)@.len() - 2].terms@,
                old(nums)@.last().terms@,
            ),
        ),
        r is Ok ==> final(ops)@ == old(ops)@.drop_last(),
        r is Ok ==> forall|k: int| 0 <= k < final(nums)@.len()
            ==> (#[trigger] final(nums)@[k]).wf(),
    decreases 0int,
{
    let l = nums.len();
    if l < 2 {
        return Err(PolyError::ParseError);
    }
    let op = ops[ops.len() - 1];
    let b = match nums.pop() {
        None => {
            proof {
                assert(false);
            }
            return Err(PolyError::ParseError);
        },
        Some(b) => b,
    };
    let a = match nums.pop() {
        None => {
            proof {
                assert(false);
            }
            return Err(PolyError::ParseError);
        },
        Some(a) => a,
    };
    let res = if op == '+' {
        a.add(&b)
    } else if op == '-' {
        a.sub(&b)
    } else {
        a.mul(&b)
    };
    match res {
        Err(e) => {
            proof {
                let aa = a.terms@;
                let bb = b.terms@;
                if op == '+' {
                    let e_bad = choose|e: int| !fits_i64(a.coef(e) + b.coef(e));
                    assert(a.coef(e_bad) == coef_of(aa, e_bad));
                    assert(b.coef(e_bad) == coef_of(bb, e_bad));
                    assert(!padd_fits(aa, bb));
                } else if op == '-' {
                    if !(forall|e: int| #[trigger] b.coef(e) != i64::MIN) {
                        let e_bad = choose|e: int| !(#[trigger] b.coef(e) != i64::MIN);
                        assert(coef_of(bb, e_bad) == i64::MIN);
                        assert(!psub_fits(aa, bb));
                    } else {
                        let e_bad = choose|e: int| !fits_i64(a.coef(e) - b.coef(e));
                        assert(a.coef(e_bad) == coef_of(aa, e_bad));
                        assert(b.coef(e_bad) == coef_of(bb, e_bad));
                        assert(!psub_fits(aa, bb));
                    }
                } else {
                    assert(a.deg() == deg_of(aa));
                    assert(b.deg() == deg_of(bb));
                }
            }
            Err(
                if e == PolyError::InputFormatInvalid {
                    PolyError::InputFormatInvalid
                } else {
                    PolyError::Overflow
                },
            )
        },
        Ok(v) => {
            proof {
                let aa = a.terms@;
                let bb = b.terms@;
                if op == '+' {
                    assert forall|e: int| #![trigger coef_of(aa, e)] fits_i64(
                        coef_of(aa, e) + coef_of(bb, e),
                    ) && v.coef(e) == coef_of(aa, e) + coef_of(bb, e) by {
                        assert(v.coef(e) == a.coef(e) + b.coef(e));
                        assert(a.coef(e) == coef_of(aa, e));
                        assert(b.coef(e) == coef_of(bb, e));
                    }
                    assert(padd_fits(aa, bb));
                    lemma_matches_canon(v, |e: int| coef_of(aa, e) + coef_of(bb, e));
                } else if op == '-' {
                    assert forall|e: int| #![trigger coef_of(bb, e)] coef_of(bb, e) != i64::MIN
                        && fits_i64(coef_of(aa, e) - coef_of(bb, e)) && v.coef(e) == coef_of(
                        aa,
                        e,
                    ) - coef_of(bb, e) by {
                        assert(v.coef(e) == a.coef(e) - b.coef(e));
                        assert(b.coef(e) != i64::MIN);
                        assert(a.coef(e) == coef_of(aa, e));
                        assert(b.coef(e) == coef_of(bb, e));
                    }
                    assert(psub_fits(aa, bb));
                    lemma_matches_canon(v, |e: int| coef_of(aa, e) - coef_of(bb, e));
                } else {
                    assert(a.deg() == deg_of(aa));
                    assert(b.deg() == deg_of(bb));
                    assert forall|e: int| 0 <= e <= MAX_EXPONENT implies fits_i64(
                        #[trigger] mul_coef(aa, bb, e),
                    ) && v.coef(e) == mul_coef(aa, bb, e) by {
                        lemma_distinct_of_wf(v.terms@);
                        lemma_coef_range(v.terms@, e);
                    }
                    lemma_matches_canon(v, |e: int| mul_coef(aa, bb, e));
                }
            }
            ops.pop();
            nums.push(v);
            proof {
                assert(views_of(final(nums)@) =~= views_of(old(nums)@).take(
                    old(nums)@.len() - 2,
                ).push(papply(old(ops)@.last(), a.terms@, b.terms@)));
                assert(final(ops)@ =~= old(ops)@.drop_last());
            }
            Ok(())
        },
    }
}

/// Evaluates an expression over the named polynomials against the
/// registry, producing a new canonical polynomial.
///
/// With `t` the input stripped of spaces: an empty `t` is
/// `EmptyExpression`; a character outside the alphabet is
/// `InvalidCharacter`; a division sign is `UnknownOperator`; a name
/// whose slot is empty is `NotFound`; an ill-formed expression is
/// `ParseError` or `MismatchedParentheses`; a result beyond the degree
/// bound or machine range is `InputFormatInvalid` or `Overflow`;
/// otherwise the machine's value is returned.
pub fn combine_polynomials(reg: &Registry, text: &str) -> (r: Result<Polynomial, PolyError>)
    requires
        reg.wf(),
    ensures
        strip_spaces(text@).len() == 0 ==> r == Err::<Polynomial, PolyError>(
            PolyError::EmptyExpression,
        ),
        strip_spaces(text@).len() > 0 && !comb_chars_ok(strip_spaces(text@)) ==> r == Err::<
            Polynomial,
            PolyError,
        >(PolyError::InvalidCharacter),
        comb_chars_ok(strip_spaces(text@)) && has_div(strip_spaces(text@)) ==> r == Err::<
            Polynomial,
            PolyError,
        >(PolyError::UnknownOperator),
        strip_spaces(text@).len() > 0 && comb_chars_ok(strip_spaces(text@)) && !has_div(
            strip_spaces(text@),
        ) ==> match run_combine(strip_spaces(text@), reg.slots@) {
            PolyOutcome::PVal(s) => r is Ok && r->Ok_0.terms@ == s && r->Ok_0.wf(),
            PolyOutcome::PMismatch => r == Err::<Polynomial, PolyError>(
                PolyError::MismatchedParentheses,
            ),
            PolyOutcome::PInvalid => r == Err::<Polynomial, PolyError>(PolyError::ParseError),
            PolyOutcome::PNotFound => r == Err::<Polynomial, PolyError>(PolyError::NotFound),
            PolyOutcome::POverflow => r == Err::<Polynomial, PolyError>(PolyError::Overflow),
            PolyOutcome::PTooBig => r == Err::<Polynomial, PolyError>(
                PolyError::InputFormatInvalid,
            ),
        },
        r is Ok ==> r->Ok_0.wf(),
{
    let tv = stripped_chars(text);
    let ghost t = tv@;
    let n = tv.len();
    if n == 0 {
        return Err(PolyError::EmptyExpression);
    }
    let mut i: usize = 0;
    while i < n
        invariant
            i <= n,
            n == t.len(),
            n > 0,
            t == tv@,
            t == strip_spaces(text@),
            forall|j: int| 0 <= j < i ==> comb_char(#[trigger] t[j]),
        decreases n - i,
    {
        let c = tv[i];
        if !(c == 'a' || c == 'b' || c == 'c' || c == 'd' || c == 'e' || c == '+' || c == '-' || c
            == '*' || c == '/' || c == '(' || c == ')') {
            return Err(PolyError::InvalidCharacter);
        }
        i += 1;
    }
    let mut i: usize = 0;
    while i < n
        invariant
            i <= n,
            n == t.len(),
            t == tv@,
            t == strip_spaces(text@),
            comb_chars_ok(t),
            n > 0,
            forall|j: int| 0 <= j < i ==> (#[trigger] t[j]) != '/',
        decreases n - i,
    {
        if tv[i] == '/' {
            return Err(PolyError::UnknownOperator);
        }
        i += 1;
    }
    let mut nums: Vec<Polynomial> = Vec::new();
    let mut ops: Vec<char> = Vec::new();
    let mut i: usize = 0;
    proof {
        assert(views_of(nums@) =~= Seq::<Seq<Term>>::empty());
    }
    while i < n
        invariant
            i <= n,
            n == t.len(),
            t == tv@,
            t == strip_spaces(text@),
            n > 0,
            comb_chars_ok(t),
            forall|j: int| 0 <= j < t.len() ==> (#[trigger] t[j]) != '/',
            reg.wf(),
            forall|k: int| 0 <= k < nums@.len() ==> (#[trigger] nums@[k]).wf(),
            forall|j: int| 0 <= j < ops@.len() ==> ((#[trigger] ops@[j]) == '(' || ops@[j] == '+'
                || ops@[j] == '-' || ops@[j] == '*'),
            run_combine(t, reg.slots@) == run_pmachine(t, reg.slots@, i as int, views_of(nums@), ops@),
        decreases n - i,
    {
        let c = tv[i];
        if c == '(' {
            ops.push('(');
            i += 1;
        } else if c == ')' {
            let mut done = false;
            while !done
                invariant
                    i < n,
                    n == t.len(),
                    n > 0,
                    t == tv@,
                    t == strip_spaces(text@),
                    comb_chars_ok(t),
                    t[i as int] == ')',
                    forall|j: int| 0 <= j < t.len() ==> (#[trigger] t[j]) != '/',
                    forall|k: int| 0 <= k < nums@.len() ==> (#[trigger] nums@[k]).wf(),
                    forall|j: int| 0 <= j < ops@.len() ==> ((#[trigger] ops@[j]) == '('
                        || ops@[j] == '+' || ops@[j] == '-' || ops@[j] == '*'),
                    reg.wf(),
                    !done ==> run_combine(t, reg.slots@) == run_pmachine(
                        t,
                        reg.slots@,
                        i as int,
                        views_of(nums@),
                        ops@,
                    ),
                    done ==> run_combine(t, reg.slots@) == run_pmachine(
                        t,
                        reg.slots@,
                        i as int + 1,
                        views_of(nums@),
                        ops@,
                    ),
                decreases ops@.len(),
            {
                if ops.len() == 0 {
                    return Err(PolyError::MismatchedParentheses);
                }
                let top = ops[ops.len() - 1];
                if top == '(' {
                    ops.pop();
                    done = true;
                } else {
                    let ghost gnums = nums@;
                    match preduce_once(&mut nums, &mut ops) {
                        Err(e) => {
                            proof {
                                assert(views_of(gnums).len() == gnums.len());
                                if gnums.len() >= 2 {
                                    assert(views_of(gnums)[gnums.len() - 2] == gnums[gnums.len()
                                        - 2].terms@);
                                    assert(views_of(gnums).last() == gnums.last().terms@);
                                }
                            }
                            return Err(e);
                        },
                        Ok(()) => {
                            proof {
                                assert(views_of(gnums)[gnums.len() - 2] == gnums[gnums.len()
                                    - 2].terms@);
                                assert(views_of(gnums).last() == gnums.last().terms@);
                                assert(views_of(gnums).take(gnums.len() - 2) =~= views_of(
                                    gnums,
                                ).take(views_of(gnums).len() - 2));
                            }
                        },
                    }
                }
            }
            i += 1;
        } else if c == '+' || c == '-' || c == '*' {
            while should_preduce(&ops, c)
                invariant
                    i < n,
                    n == t.len(),
                    n > 0,
                    t == tv@,
                    t == strip_spaces(text@),
                    comb_chars_ok(t),
                    t[i as int] == c,
                    c == '+' || c == '-' || c == '*',
                    forall|j: int| 0 <= j < t.len() ==> (#[trigger] t[j]) != '/',
                    forall|k: int| 0 <= k < nums@.len() ==> (#[trigger] nums@[k]).wf(),
                    forall|j: int| 0 <= j < ops@.len() ==> ((#[trigger] ops@[j]) == '('
                        || ops@[j] == '+' || ops@[j] == '-' || ops@[j] == '*'),
                    reg.wf(),
                    run_combine(t, reg.slots@) == run_pmachine(
                        t,
                        reg.slots@,
                        i as int,
                        views_of(nums@),
                        ops@,
                    ),
                decreases ops@.len(),
            {
                let ghost gnums = nums@;
                match preduce_once(&mut nums, &mut ops) {
                    Err(e) => {
                        proof {
                            if gnums.len() >= 2 {
                                assert(views_of(gnums)[gnums.len() - 2] == gnums[gnums.len()
                                    - 2].terms@);
                                assert(views_of(gnums).last() == gnums.last().terms@);
                            }
                        }
                        return Err(e);
                    },
                    Ok(()) => {
                        proof {
                            assert(views_of(gnums)[gnums.len() - 2] == gnums[gnums.len()
                                - 2].terms@);
                            assert(views_of(gnums).last() == gnums.last().terms@);
                            assert(views_of(gnums).take(gnums.len() - 2) =~= views_of(gnums).take(
                                views_of(gnums).len() - 2,
                            ));
                        }
                    },
                }
            }
            ops.push(c);
            i += 1;
        } else {
            proof {
                assert(comb_char(t[i as int]));
                assert(name_ok(c));
            }
            match reg.get(c) {
                Err(_) => {
                    return Err(PolyError::NotFound);
                },
                Ok(p) => {
                    proof {
                        assert(views_of(nums@.push(p)) =~= views_of(nums@).push(p.terms@));
                    }
                    nums.push(p);
                },
            }
            i += 1;
        }
    }
    while ops.len() > 0
        invariant
            n == t.len(),
            t == tv@,
            t == strip_spaces(text@),
            n > 0,
            comb_chars_ok(t),
            forall|j: int| 0 <= j < t.len() ==> (#[trigger] t[j]) != '/',
            forall|k: int| 0 <= k < nums@.len() ==> (#[trigger] nums@[k]).wf(),
            forall|j: int| 0 <= j < ops@.len() ==> ((#[trigger] ops@[j]) == '(' || ops@[j] == '+'
                || ops@[j] == '-' || ops@[j] == '*'),
            reg.wf(),
            run_combine(t, reg.slots@) == run_pmachine(t, reg.slots@, n as int, views_of(nums@), ops@),
        decreases ops@.len(),
    {
        let top = ops[ops.len() - 1];
        if top == '(' {
            return Err(PolyError::MismatchedParentheses);
        }
        let ghost gnums = nums@;
        match preduce_once(&mut nums, &mut ops) {
            Err(e) => {
                proof {
                    if gnums.len() >= 2 {
                        assert(views_of(gnums)[gnums.len() - 2] == gnums[gnums.len() - 2].terms@);
                        assert(views_of(gnums).last() == gnums.last().terms@);
                    }
                }
                return Err(e);
            },
            Ok(()) => {
                proof {
                    assert(views_of(gnums)[gnums.len() - 2] == gnums[gnums.len() - 2].terms@);
                    assert(views_of(gnums).last() == gnums.last().terms@);
                    assert(views_of(gnums).take(gnums.len() - 2) =~= views_of(gnums).take(
                        views_of(gnums).len() - 2,
                    ));
                }
            },
        }
    }
    if nums.len() == 1 {
        let ghost gnums = nums@;
        let p = match nums.pop() {
            None => {
                proof {
                    assert(false);
                }
                return Err(PolyError::ParseError);
            },
            Some(p) => p,
        };
        proof {
            assert(views_of(gnums)[0] == gnums[0].terms@);
        }
        Ok(p)
    } else {
        Err(PolyError::ParseError)
    }
}

/// Does the machine reduce before pushing `c`: is there a top
/// operator, not a barrier, binding at least as tightly?
fn should_preduce(ops: &Vec<char>, c: char) -> (r: bool)
    ensures
        r == (ops@.len() > 0 && ops@.last() != '(' && pprec(ops@.last()) >= pprec(c)),
{
    if ops.len() == 0 {
        return false;
    }
    let top = ops[ops.len() - 1];
    let pt: u32 = if top == '*' {
        2
    } else {
        1
    };
    let pc: u32 = if c == '*' {
        2
    } else {
        1
    };
    top != '(' && pt >= pc
}

} // verus!
