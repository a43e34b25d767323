//! The polynomial parser: a term-list literal such as `3x^2-2x+5`
//! becomes a canonical polynomial. A term is `[coefficient]['x'['^'
//! exponent]]`; an omitted coefficient is 1, an omitted exponent is 1
//! with `x` present and 0 without; `+` and `-` separate terms, the sign
//! belonging to the following term; spaces are ignored; terms with the
//! same exponent are summed.

use vstd::prelude::*;

verus! {

use crate::digits::{digit_at, digits_len, digits_val, is_digit, scan_digits};
use crate::errors::PolyError;
use crate::poly::{MAX_EXPONENT, Polynomial, Term, coef_of, fits_i64, lemma_coef_range,
    lemma_distinct_of_wf};

/// The input with every space removed.
pub open spec fn strip_spaces(s: Seq<char>) -> Seq<char>
    decreases s.len(),
{
    if s.len() == 0 {
        Seq::<char>::empty()
    } else if s[0] == ' ' {
        strip_spaces(s.drop_first())
    } else {
        seq![s[0]] + strip_spaces(s.drop_first())
    }
}

/// Is `c` part of the term-list alphabet (spaces already removed)?
pub open spec fn poly_char(c: char) -> bool {
    is_digit(c) || c == 'x' || c == '^' || c == '+' || c == '-'
}

/// Does `t` consist of term-list characters only?
pub open spec fn poly_chars_ok(t: Seq<char>) -> bool {
    forall|i: int| 0 <= i < t.len() ==> poly_char(#[trigger] t[i])
}

/// The length of the `x` part of a term whose `x` stands at `p - 1`:
/// either nothing follows, or `^` and a nonempty digit run follow; -1
/// marks a malformed tail.
pub open spec fn x_tail_len(t: Seq<char>, p: int) -> int {
    if p < t.len() && t[p] == '^' {
        let e = digits_len(t.skip(p + 1));
        if e > 0 {
            p + 1 + e
        } else {
            -1
        }
    } else {
        p
    }
}

/// The length of the term with which `t` begins, -1 if `t` does not
/// begin with a well-formed term.
pub open spec fn term_len(t: Seq<char>) -> int {
    let d = digits_len(t) as int;
    if d > 0 {
        if d < t.len() && t[d] == 'x' {
            x_tail_len(t, d + 1)
        } else {
            d
        }
    } else {
        if t.len() > 0 && t[0] == 'x' {
            x_tail_len(t, 1)
        } else {
            -1
        }
    }
}

/// The exponent of the term with which `t` begins.
pub open spec fn term_exp(t: Seq<char>) -> nat {
    let d = digits_len(t) as int;
    if d < t.len() && t[d] == 'x' {
        if d + 1 < t.len() && t[d + 1] == '^' {
            digits_val(t.skip(d + 2).take(digits_len(t.skip(d + 2)) as int))
        } else {
            1
        }
    } else {
        0
    }
}

/// The coefficient magnitude of the term with which `t` begins; an
/// omitted coefficient is 1.
pub open spec fn term_mag(t: Seq<char>) -> nat {
    let d = digits_len(t) as int;
    if d == 0 {
        1
    } else {
        digits_val(t.take(d))
    }
}

/// Is `t` a well-formed nonempty term list: terms separated by `+` or
/// `-`, each sign followed by a term?
pub open spec fn terms_wf(t: Seq<char>) -> bool
    decreases t.len(),
{
    let n = term_len(t);
    if n < 0 {
        false
    } else if n >= t.len() {
        true
    } else if t[n] == '+' || t[n] == '-' {
        terms_wf(t.skip(n + 1))
    } else {
        false
    }
}

/// The signed entries `(exponent, coefficient)` of a well-formed term
/// list, in textual order.
pub open spec fn terms_entries(t: Seq<char>, sign: int) -> Seq<(nat, int)>
    decreases t.len(),
{
    let n = term_len(t);
    if n < 0 {
        Seq::<(nat, int)>::empty()
    } else {
        let entry = (term_exp(t), sign * term_mag(t));
        if n >= t.len() {
            seq![entry]
        } else {
            seq![entry] + terms_entries(t.skip(n + 1), if t[n] == '-' {
                -1int
            } else {
                1int
            })
        }
    }
}

/// The term list after the optional leading sign.
pub open spec fn poly_body(t: Seq<char>) -> Seq<char> {
    if t.len() > 0 && (t[0] == '+' || t[0] == '-') {
        t.drop_first()
    } else {
        t
    }
}

/// The sign of the first term.
pub open spec fn poly_sign(t: Seq<char>) -> int {
    if t.len() > 0 && t[0] == '-' {
        -1
    } else {
        1
    }
}

/// Is `t` a well-formed polynomial literal?
pub open spec fn poly_wf(t: Seq<char>) -> bool {
    terms_wf(poly_body(t))
}

/// The signed entries of a well-formed polynomial literal.
pub open spec fn poly_entries(t: Seq<char>) -> Seq<(nat, int)> {
    terms_entries(poly_body(t), poly_sign(t))
}

/// The coefficient of `x^e` described by an entry list: the sum of all
/// entries with exponent `e`.
pub open spec fn entries_coef(l: Seq<(nat, int)>, e: int) -> int
    decreases l.len(),
{
    if l.len() == 0 {
        0
    } else {
        (if l[0].0 as int == e {
            l[0].1
        } else {
            0
        }) + entries_coef(l.drop_first(), e)
    }
}

/// Every number in the entry list, and every partial sum of entries
/// sharing an exponent, fits the machine: exponents within the degree
/// bound, coefficients and running per-exponent sums within a machine
/// word.
pub open spec fn entries_fit(l: Seq<(nat, int)>) -> bool {
    &&& forall|i: int| 0 <= i < l.len() ==> (#[trigger] l[i]).0 <= MAX_EXPONENT
    &&& forall|i: int| 0 <= i < l.len() ==> fits_i64((#[trigger] l[i]).1)
    &&& forall|k: int, e: int| 0 <= k <= l.len()
        ==> fits_i64(#[trigger] entries_coef(l.take(k), e))
}

/// Does `t` (already stripped of spaces) parse into a polynomial?
pub open spec fn parse_ok(t: Seq<char>) -> bool {
    t.len() > 0 && poly_chars_ok(t) && poly_wf(t) && entries_fit(poly_entries(t))
}

/// The error reported for a `t` that does not parse, in the order the
/// conditions are checked: emptiness, alphabet, structure, ranges.
pub open spec fn parse_err_of(t: Seq<char>) -> PolyError {
    if t.len() == 0 {
        PolyError::EmptyExpression
    } else if !poly_chars_ok(t) {
        PolyError::InvalidCharacter
    } else if !poly_wf(t) {
        PolyError::ParseError
    } else {
        PolyError::InputFormatInvalid
    }
}

/// The entry-list coefficient function is additive in the list.
pub proof fn lemma_entries_additive(l1: Seq<(nat, int)>, l2: Seq<(nat, int)>, e: int)
    ensures
        entries_coef(l1 + l2, e) == entries_coef(l1, e) + entries_coef(l2, e),
    decreases l1.len(),
{
    if l1.len() == 0 {
        assert(l1 + l2 =~= l2);
    } else {
        assert((l1 + l2).drop_first() =~= l1.drop_first() + l2);
        lemma_entries_additive(l1.drop_first(), l2, e);
    }
}

/// Appending an entry moves the coefficient function by that entry.
pub proof fn lemma_entries_push(l: Seq<(nat, int)>, en: (nat, int), e: int)
    ensures
        entries_coef(l.push(en), e) == entries_coef(l, e) + (if en.0 as int == e {
            en.1
        } else {
            0
        }),
{
    assert(l.push(en) =~= l + seq![en]);
    lemma_entries_additive(l, seq![en], e);
    assert(seq![en].drop_first() =~= Seq::<(nat, int)>::empty());
    assert(entries_coef(seq![en], e) == (if en.0 as int == e {
        en.1
    } else {
        0
    }) + entries_coef(seq![en].drop_first(), e));
}

/// Removing spaces step by step, from the end.
pub proof fn lemma_strip_snoc(s: Seq<char>, c: char)
    ensures
        strip_spaces(s.push(c)) == strip_spaces(s) + (if c == ' ' {
            Seq::<char>::empty()
        } else {
            seq![c]
        }),
    decreases s.len(),
{
    let tail = (if c == ' ' {
        Seq::<char>::empty()
    } else {
        seq![c]
    });
    if s.len() == 0 {
        assert(s.push(c)[0] == c);
        assert(s.push(c).drop_first() =~= Seq::<char>::empty());
        assert(strip_spaces(Seq::<char>::empty()) == Seq::<char>::empty());
        assert(s =~= Seq::<char>::empty());
        if c == ' ' {
            assert(strip_spaces(s.push(c)) =~= strip_spaces(s) + tail);
        } else {
            assert(strip_spaces(s.push(c)) =~= strip_spaces(s) + tail);
        }
    } else {
        assert(s.push(c).drop_first() =~= s.drop_first().push(c));
        lemma_strip_snoc(s.drop_first(), c);
        if s[0] == ' ' {
            assert(strip_spaces(s.push(c)) == strip_spaces(s.drop_first().push(c)));
        } else {
            assert(strip_spaces(s.push(c)) =~= strip_spaces(s) + tail);
        }
    }
}

/// Finds the end of the `x` tail whose `x` stands at `p - 1`,
/// mirroring `x_tail_len` for the term beginning at `pos`.
fn scan_x_tail(tv: &Vec<char>, p: usize, pos: usize) -> (r: Option<usize>)
    requires
        pos < p <= tv@.len(),
    ensures
        match r {
            Some(end) => p <= end <= tv@.len()
                && x_tail_len(tv@.skip(pos as int), p - pos) == end - pos,
            None => x_tail_len(tv@.skip(pos as int), p - pos) == -1,
        },
{
    let n = tv.len();
    let ghost t = tv@.skip(pos as int);
    proof {
        assert(t.len() == n - pos);
        if (p - pos) < t.len() {
            assert(t[p - pos] == tv@[p as int]);
        }
    }
    if p < n && tv[p] == '^' {
        proof {
            assert(t.skip(p - pos + 1) =~= tv@.skip(p as int + 1));
        }
        let (eend, _ev) = scan_digits(tv, p + 1, 0);
        if eend > p + 1 {
            Some(eend)
        } else {
            None
        }
    } else {
        Some(p)
    }
}

/// Finds the end of the term beginning at `pos`, mirroring `term_len`.
fn scan_term(tv: &Vec<char>, pos: usize) -> (r: Option<usize>)
    requires
        pos <= tv@.len(),
    ensures
        match r {
            Some(end) => pos < end <= tv@.len() && term_len(tv@.skip(pos as int)) == end - pos,
            None => term_len(tv@.skip(pos as int)) == -1,
        },
{
    let n = tv.len();
    let ghost t = tv@.skip(pos as int);
    let (dend, _dv) = scan_digits(tv, pos, 0);
    let d = dend - pos;
    proof {
        assert(t.len() == n - pos);
        if d < t.len() {
            assert(t[d as int] == tv@[dend as int]);
        }
        if 0 < t.len() {
            assert(t[0] == tv@[pos as int]);
        }
    }
    if d > 0 {
        if dend < n && tv[dend] == 'x' {
            scan_x_tail(tv, dend + 1, pos)
        } else {
            Some(dend)
        }
    } else {
        if pos < n && tv[pos] == 'x' {
            scan_x_tail(tv, pos + 1, pos)
        } else {
            None
        }
    }
}

/// A text without spaces is unchanged by space removal.
pub proof fn lemma_strip_id(s: Seq<char>)
    requires
        forall|i: int| 0 <= i < s.len() ==> (#[trigger] s[i]) != ' ',
    ensures
        strip_spaces(s) == s,
    decreases s.len(),
{
    if s.len() == 0 {
        assert(strip_spaces(s) =~= s);
    } else {
        lemma_strip_id(s.drop_first());
        assert(strip_spaces(s) =~= s);
    }
}

/// Removing spaces never lengthens the input.
pub proof fn lemma_strip_len(s: Seq<char>)
    ensures
        strip_spaces(s).len() <= s.len(),
    decreases s.len(),
{
    if s.len() > 0 {
        lemma_strip_len(s.drop_first());
    }
}

/// The characters of `s`, in order.
pub fn chars_of(s: &str) -> (r: Vec<char>)
    ensures
        r@ == s@,
{
    let n = s.unicode_len();
    let mut out: Vec<char> = Vec::new();
    let mut i: usize = 0;
    while i < n
        invariant
            i <= n,
            n == s@.len(),
            out@ == s@.take(i as int),
        decreases n - i,
    {
        out.push(s.get_char(i));
        proof {
            assert(out@ =~= s@.take(i as int + 1));
        }
        i += 1;
    }
    proof {
        assert(out@ =~= s@);
    }
    out
}

/// The characters of `s` with every space removed.
pub fn stripped_chars(s: &str) -> (r: Vec<char>)
    ensures
        r@ == strip_spaces(s@),
{
    let cs = chars_of(s);
    let n = cs.len();
    let mut out: Vec<char> = Vec::new();
    let mut i: usize = 0;
    while i < n
        invariant
            i <= n,
            n == cs@.len(),
            cs@ == s@,
            out@ == strip_spaces(s@.take(i as int)),
        decreases n - i,
    {
        let c = cs[i];
        proof {
            assert(s@.take(i as int + 1) =~= s@.take(i as int).push(c));
            lemma_strip_snoc(s@.take(i as int), c);
        }
        if c != ' ' {
            out.push(c);
            proof {
                assert(out@ =~= strip_spaces(s@.take(i as int + 1)));
            }
        } else {
            proof {
                assert(out@ =~= strip_spaces(s@.take(i as int + 1)));
            }
        }
        i += 1;
    }
    proof {
        assert(s@.take(n as int) =~= s@);
    }
    out
}

/// Does a well-formed term list begin at `start` and cover the rest of
/// the input?
fn check_structure(tv: &Vec<char>, start: usize) -> (r: bool)
    requires
        start <= tv@.len(),
    ensures
        r == terms_wf(tv@.skip(start as int)),
{
    let n = tv.len();
    let mut pos: usize = start;
    while pos < n
        invariant
            start <= pos <= n,
            n == tv@.len(),
            terms_wf(tv@.skip(start as int)) <==> terms_wf(tv@.skip(pos as int)),
        decreases n - pos,
    {
        let ghost t = tv@.skip(pos as int);
        match scan_term(tv, pos) {
            None => {
                return false;
            },
            Some(end) => {
                if end == n {
                    proof {
                        assert(term_len(t) == t.len());
                    }
                    return true;
                }
                let c = tv[end];
                proof {
                    assert(t[end - pos] == tv@[end as int]);
                    assert(t.skip(end - pos + 1) =~= tv@.skip(end as int + 1));
                }
                if c == '+' || c == '-' {
                    pos = end + 1;
                } else {
                    return false;
                }
            },
        }
    }
    proof {
        assert(tv@.skip(pos as int).len() == 0);
        assert(digits_len(tv@.skip(pos as int)) == 0);
    }
    false
}

/// Reads the exponent and signed coefficient of the term beginning at
/// `pos`. Fails with `InputFormatInvalid` exactly when the exponent
/// exceeds the degree bound or the signed coefficient leaves the
/// machine range.
fn scan_term_value(tv: &Vec<char>, pos: usize, sign_neg: bool) -> (r: Result<
    (u32, i64),
    PolyError,
>)
    requires
        pos < tv@.len(),
    ensures
        r is Ok <==> (term_exp(tv@.skip(pos as int)) <= MAX_EXPONENT && fits_i64(
            (if sign_neg {
                -1int
            } else {
                1int
            }) * (term_mag(tv@.skip(pos as int)) as int),
        )),
        r is Err ==> r->Err_0 == PolyError::InputFormatInvalid,
        r is Ok ==> r->Ok_0.0 as nat == term_exp(tv@.skip(pos as int)),
        r is Ok ==> r->Ok_0.1 as int == (if sign_neg {
            -1int
        } else {
            1int
        }) * (term_mag(tv@.skip(pos as int)) as int),
{
    let n = tv.len();
    let ghost rest = tv@.skip(pos as int);
    let ghost sign: int = if sign_neg {
        -1int
    } else {
        1int
    };
    let (dend, mag_raw) = scan_digits(tv, pos, COEF_CAP);
    let d = dend - pos;
    proof {
        assert(rest.take(d as int) =~= tv@.subrange(pos as int, dend as int));
        if d < rest.len() {
            assert(rest[d as int] == tv@[dend as int]);
        }
    }
    let exp: u32;
    if dend < n && tv[dend] == 'x' {
        if dend + 1 < n && tv[dend + 1] == '^' {
            proof {
                assert(rest[d + 1] == tv@[dend + 1]);
                assert(rest.skip(d + 2) =~= tv@.skip(dend + 2));
            }
            let (eend, ev) = scan_digits(tv, dend + 2, 63);
            proof {
                assert(tv@.skip(dend + 2).take(digits_len(tv@.skip(dend + 2)) as int)
                    =~= tv@.subrange(dend as int + 2, eend as int));
                assert(term_exp(rest) == digits_val(tv@.subrange(dend as int + 2, eend as int)));
            }
            if ev > 63 {
                return Err(PolyError::InputFormatInvalid);
            }
            exp = ev as u32;
        } else {
            exp = 1;
        }
    } else {
        exp = 0;
    }
    proof {
        assert(exp as nat == term_exp(rest));
    }
    if d == 0 {
        let c: i64 = if sign_neg {
            -1
        } else {
            1
        };
        proof {
            assert(term_mag(rest) == 1);
        }
        Ok((exp, c))
    } else {
        proof {
            assert(term_mag(rest) == digits_val(tv@.subrange(pos as int, dend as int)));
        }
        if sign_neg {
            if mag_raw > COEF_CAP {
                proof {
                    assert(term_mag(rest) > COEF_CAP);
                    assert(!fits_i64(sign * (term_mag(rest) as int)));
                }
                return Err(PolyError::InputFormatInvalid);
            }
            let c: i64 = if mag_raw == COEF_CAP {
                i64::MIN
            } else {
                -(mag_raw as i64)
            };
            proof {
                assert(mag_raw as nat == term_mag(rest));
                assert(c as int == sign * (term_mag(rest) as int));
            }
            Ok((exp, c))
        } else {
            if mag_raw > COEF_CAP - 1 {
                proof {
                    assert(term_mag(rest) > COEF_CAP - 1);
                    assert(!fits_i64(sign * (term_mag(rest) as int)));
                }
                return Err(PolyError::InputFormatInvalid);
            }
            proof {
                assert(mag_raw as nat == term_mag(rest));
            }
            Ok((exp, mag_raw as i64))
        }
    }
}

/// The magnitude cap for a scanned coefficient: one above the largest
/// magnitude a machine word can carry.
const COEF_CAP: u64 = 9223372036854775808;

/// Parses a term-list literal into a canonical polynomial.
///
/// With `t` the input stripped of spaces: an empty `t` is
/// `EmptyExpression`; a character outside the term-list alphabet is
/// `InvalidCharacter`; a malformed term list is `ParseError`; a
/// coefficient, exponent or summed coefficient outside the machine
/// range or degree bound is `InputFormatInvalid`; otherwise the result
/// carries exactly the summed coefficients of the written terms.
#[verifier::rlimit(100)]
pub fn parse_polynomial(text: &str) -> (r: Result<Polynomial, PolyError>)
    ensures
        r is Ok <==> parse_ok(strip_spaces(text@)),
        !parse_ok(strip_spaces(text@)) ==> r == Err::<Polynomial, PolyError>(
            parse_err_of(strip_spaces(text@)),
        ),
        r is Ok ==> r->Ok_0.wf(),
        r is Ok ==> forall|e: int| #[trigger] r->Ok_0.coef(e) == entries_coef(
            poly_entries(strip_spaces(text@)),
            e,
        ),
{
    let tv = stripped_chars(text);
    let ghost t = tv@;
    let n = tv.len();
    if n == 0 {
        return Err(PolyError::EmptyExpression);
    }
    let mut i: usize = 0;
    while i < n
        invariant
            i <= n,
            n == t.len(),
            n > 0,
            t == tv@,
            t == strip_spaces(text@),
            forall|j: int| 0 <= j < i ==> poly_char(#[trigger] t[j]),
        decreases n - i,
    {
        let c = tv[i];
        if !(digit_at(&tv, i) || c == 'x' || c == '^' || c == '+' || c == '-') {
            return Err(PolyError::InvalidCharacter);
        }
        i += 1;
    }
    let first = tv[0];
    let start: usize = if first == '+' || first == '-' {
        1
    } else {
        0
    };
    proof {
        if start == 1 {
            assert(t.skip(1) =~= t.drop_first());
        } else {
            assert(t.skip(0) =~= t);
        }
        assert(t.skip(start as int) == poly_body(t));
    }
    if !check_structure(&tv, start) {
        return Err(PolyError::ParseError);
    }
    let ghost l = poly_entries(t);
    let mut sign_neg: bool = first == '-';
    let mut pos: usize = start;
    let mut acc = Polynomial::zero();
    let ghost mut done = Seq::<(nat, int)>::empty();
    proof {
        assert(done + terms_entries(t.skip(pos as int), poly_sign(t)) =~= l);
        assert forall|e: int| #[trigger] acc.coef(e) == entries_coef(done, e) by {
        }
    }
    while pos < n
        invariant
            start <= pos <= n,
            n == t.len(),
            t == tv@,
            t == strip_spaces(text@),
            n > 0,
            poly_chars_ok(t),
            poly_wf(t),
            terms_wf(t.skip(pos as int)),
            l == poly_entries(t),
            done + terms_entries(t.skip(pos as int), if sign_neg {
                -1int
            } else {
                1int
            }) == l,
            acc.wf(),
            forall|e: int| #[trigger] acc.coef(e) == entries_coef(done, e),
            forall|j: int| 0 <= j < done.len() ==> (#[trigger] done[j]).0 <= MAX_EXPONENT,
            forall|j: int| 0 <= j < done.len() ==> fits_i64((#[trigger] done[j]).1),
            forall|k: int, e: int| 0 <= k <= done.len()
                ==> fits_i64(#[trigger] entries_coef(done.take(k), e)),
        decreases n - pos,
    {
        let ghost rest = t.skip(pos as int);
        let ghost cur_sign: int = if sign_neg {
            -1int
        } else {
            1int
        };
        let end = match scan_term(&tv, pos) {
            None => {
                proof {
                    assert(false);
                }
                return Err(PolyError::ParseError);
            },
            Some(end) => end,
        };
        let (exp, coef) = match scan_term_value(&tv, pos, sign_neg) {
            Err(_) => {
                proof {
                    assert(l[done.len() as int] == (term_exp(rest), cur_sign * (term_mag(
                        rest,
                    ) as int)));
                    assert(!entries_fit(l));
                }
                return Err(PolyError::InputFormatInvalid);
            },
            Ok(v) => v,
        };
        let ghost entry = (term_exp(rest), cur_sign * (term_mag(rest) as int));
        proof {
            assert(coef as int == entry.1);
            assert(l[done.len() as int] == entry);
            assert(l.take(done.len() as int + 1) =~= done.push(entry));
        }
        let mono: Polynomial;
        if coef == 0 {
            mono = Polynomial::zero();
        } else {
            mono = Polynomial { terms: vec![Term { exp, coef }] };
            proof {
                assert(mono.terms@ =~= seq![Term { exp, coef }]);
                assert(mono.terms@.drop_first() =~= Seq::<Term>::empty());
            }
        }
        proof {
            assert forall|e: int| #[trigger] mono.coef(e) == (if entry.0 as int == e {
                entry.1
            } else {
                0
            }) by {
                if coef != 0 {
                    assert(mono.terms@[0] == Term { exp, coef });
                    assert(mono.terms@.drop_first() =~= Seq::<Term>::empty());
                    assert(coef_of(Seq::<Term>::empty(), e) == 0);
                    assert(mono.coef(e) == (if exp as int == e {
                        coef as int
                    } else {
                        0
                    }) + coef_of(mono.terms@.drop_first(), e));
                }
            }
        }
        let acc2 = match acc.add(&mono) {
            Err(_) => {
                proof {
                    let e_bad = choose|e: int| !fits_i64(acc.coef(e) + mono.coef(e));
                    lemma_entries_push(done, entry, e_bad);
                    assert(!fits_i64(entries_coef(l.take(done.len() as int + 1), e_bad)));
                    assert(!entries_fit(l));
                }
                return Err(PolyError::InputFormatInvalid);
            },
            Ok(a2) => a2,
        };
        acc = acc2;
        proof {
            let done2 = done.push(entry);
            assert forall|e: int| #[trigger] acc.coef(e) == entries_coef(done2, e) by {
                lemma_entries_push(done, entry, e);
            }
            assert forall|k: int, e: int| 0 <= k <= done2.len()
                implies fits_i64(#[trigger] entries_coef(done2.take(k), e)) by {
                if k <= done.len() {
                    assert(done2.take(k) =~= done.take(k));
                } else {
                    assert(done2.take(k) =~= done2);
                    lemma_distinct_of_wf(acc.terms@);
                    lemma_coef_range(acc.terms@, e);
                    assert(entries_coef(done2, e) == acc.coef(e));
                }
            }
            done = done2;
        }
        if end == n {
            proof {
                assert(term_len(rest) == rest.len());
                assert(terms_entries(rest, cur_sign) =~= seq![entry]);
                assert(done =~= l);
                assert(entries_fit(l));
            }
            return Ok(acc);
        }
        let sc = tv[end];
        proof {
            assert(rest[end - pos] == t[end as int]);
            assert(rest.skip(end - pos + 1) =~= t.skip(end as int + 1));
            assert(terms_entries(rest, cur_sign) == seq![entry] + terms_entries(
                t.skip(end as int + 1),
                if sc == '-' {
                    -1int
                } else {
                    1int
                },
            ));
            assert(done + terms_entries(t.skip(end as int + 1), if sc == '-' {
                -1int
            } else {
                1int
            }) =~= l);
        }
        sign_neg = sc == '-';
        pos = end + 1;
    }
    proof {
        assert(tv@.skip(pos as int).len() == 0);
        assert(digits_len(tv@.skip(pos as int)) == 0);
        assert(false);
    }
    Err(PolyError::ParseError)
}

} // verus!
