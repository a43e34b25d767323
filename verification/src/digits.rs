//! Decimal digits: the rendering of a number as digit characters, the
//! value of a digit run, and the round trip between them.

use vstd::prelude::*;

verus! {

/// Is `c` a decimal digit?
pub open spec fn is_digit(c: char) -> bool {
    c == '0' || c == '1' || c == '2' || c == '3' || c == '4' || c == '5' || c == '6' || c == '7'
        || c == '8' || c == '9'
}

/// The numeric value of a digit character, 0 for any other character.
pub open spec fn digit_val(c: char) -> int {
    if c == '0' {
        0
    } else if c == '1' {
        1
    } else if c == '2' {
        2
    } else if c == '3' {
        3
    } else if c == '4' {
        4
    } else if c == '5' {
        5
    } else if c == '6' {
        6
    } else if c == '7' {
        7
    } else if c == '8' {
        8
    } else if c == '9' {
        9
    } else {
        0
    }
}

/// The digit character for a value below 10.
pub open spec fn digit_char(d: nat) -> char {
    if d == 0 {
        '0'
    } else if d == 1 {
        '1'
    } else if d == 2 {
        '2'
    } else if d == 3 {
        '3'
    } else if d == 4 {
        '4'
    } else if d == 5 {
        '5'
    } else if d == 6 {
        '6'
    } else if d == 7 {
        '7'
    } else if d == 8 {
        '8'
    } else {
        '9'
    }
}

/// The decimal rendering of `n`, most significant digit first.
pub open spec fn digits_of(n: nat) -> Seq<char>
    decreases n,
{
    if n < 10 {
        seq![digit_char(n)]
    } else {
        digits_of(n / 10).push(digit_char(n % 10))
    }
}

/// The value of a digit run, most significant digit first.
pub open spec fn digits_val(s: Seq<char>) -> nat
    decreases s.len(),
{
    if s.len() == 0 {
        0
    } else {
        digits_val(s.drop_last()) * 10 + (if digit_val(s.last()) >= 0 {
            digit_val(s.last()) as nat
        } else {
            0
        })
    }
}

/// The length of the digit run with which `t` begins.
pub open spec fn digits_len(t: Seq<char>) -> nat
    decreases t.len(),
{
    if t.len() > 0 && is_digit(t[0]) {
        1 + digits_len(t.drop_first())
    } else {
        0
    }
}

/// The digit characters carry their values, and are digits.
pub proof fn lemma_digit_char_val(d: nat)
    requires
        d < 10,
    ensures
        is_digit(digit_char(d)),
        digit_val(digit_char(d)) == d,
{
}

/// A rendered number consists of digits and is never empty.
pub proof fn lemma_digits_of_digits(n: nat)
    ensures
        digits_of(n).len() >= 1,
        forall|i: int| 0 <= i < digits_of(n).len() ==> is_digit(#[trigger] digits_of(n)[i]),
    decreases n,
{
    if n < 10 {
        lemma_digit_char_val(n);
    } else {
        lemma_digits_of_digits(n / 10);
        lemma_digit_char_val(n % 10);
        assert forall|i: int| 0 <= i < digits_of(n).len()
            implies is_digit(#[trigger] digits_of(n)[i]) by {
            if i < digits_of(n).len() - 1 {
                assert(digits_of(n)[i] == digits_of(n / 10)[i]);
            }
        }
    }
}

/// Appending a digit multiplies the run value by ten and adds it.
pub proof fn lemma_digits_val_snoc(s: Seq<char>, c: char)
    requires
        is_digit(c),
    ensures
        digits_val(s.push(c)) == digits_val(s) * 10 + digit_val(c),
{
    assert(s.push(c).drop_last() =~= s);
    assert(s.push(c).last() == c);
}

/// Reading back the decimal rendering of `n` yields `n`.
pub proof fn lemma_digits_roundtrip(n: nat)
    ensures
        digits_val(digits_of(n)) == n,
    decreases n,
{
    if n < 10 {
        lemma_digit_char_val(n);
        assert(seq![digit_char(n)].drop_last() =~= Seq::<char>::empty());
        assert(digits_val(seq![digit_char(n)].drop_last()) == 0);
    } else {
        lemma_digits_roundtrip(n / 10);
        lemma_digit_char_val(n % 10);
        lemma_digits_val_snoc(digits_of(n / 10), digit_char(n % 10));
        assert(n / 10 * 10 + n % 10 == n) by (nonlinear_arith);
    }
}

/// A digit run is no longer than the sequence it begins.
pub proof fn lemma_digits_len_le(t: Seq<char>)
    ensures
        digits_len(t) <= t.len(),
    decreases t.len(),
{
    if t.len() > 0 && is_digit(t[0]) {
        lemma_digits_len_le(t.drop_first());
    }
}

/// A digit run followed by anything but a digit is read back whole.
pub proof fn lemma_digits_len_concat(d: Seq<char>, rest: Seq<char>)
    requires
        forall|i: int| 0 <= i < d.len() ==> is_digit(#[trigger] d[i]),
        rest.len() == 0 || !is_digit(rest[0]),
    ensures
        digits_len(d + rest) == d.len(),
    decreases d.len(),
{
    if d.len() == 0 {
        assert(d + rest =~= rest);
    } else {
        assert((d + rest)[0] == d[0]);
        assert((d + rest).drop_first() =~= d.drop_first() + rest);
        lemma_digits_len_concat(d.drop_first(), rest);
    }
}

/// One step of a digit run: a digit extends it, anything else ends it.
pub proof fn lemma_digits_len_step(s: Seq<char>, i: int)
    requires
        0 <= i < s.len(),
    ensures
        is_digit(s[i]) ==> digits_len(s.skip(i)) == 1 + digits_len(s.skip(i + 1)),
        !is_digit(s[i]) ==> digits_len(s.skip(i)) == 0,
{
    assert(s.skip(i)[0] == s[i]);
    assert(s.skip(i).drop_first() =~= s.skip(i + 1));
}

/// Relies on `String::push`: appends one character at the end.
#[verifier::external_body]
pub fn push_char(s: &mut String, c: char)
    ensures
        final(s)@ == old(s)@.push(c),
{
    s.push(c)
}

/// Is the character of `s` at `i` a decimal digit?
pub fn digit_at(s: &Vec<char>, i: usize) -> (r: bool)
    requires
        i < s@.len(),
    ensures
        r == is_digit(s@[i as int]),
{
    let c = s[i];
    c == '0' || c == '1' || c == '2' || c == '3' || c == '4' || c == '5' || c == '6' || c == '7'
        || c == '8' || c == '9'
}

/// The numeric value of a digit character, as an executable value.
pub fn digit_value(c: char) -> (r: u64)
    requires
        is_digit(c),
    ensures
        r as int == digit_val(c),
{
    if c == '0' {
        0
    } else if c == '1' {
        1
    } else if c == '2' {
        2
    } else if c == '3' {
        3
    } else if c == '4' {
        4
    } else if c == '5' {
        5
    } else if c == '6' {
        6
    } else if c == '7' {
        7
    } else if c == '8' {
        8
    } else {
        9
    }
}

/// The digit character for `d`, as an executable value.
pub fn digit_to_char(d: u64) -> (r: char)
    requires
        d < 10,
    ensures
        r == digit_char(d as nat),
{
    match d {
        0 => '0',
        1 => '1',
        2 => '2',
        3 => '3',
        4 => '4',
        5 => '5',
        6 => '6',
        7 => '7',
        8 => '8',
        _ => '9',
    }
}

/// Appends the decimal rendering of `n`.
pub fn push_digits(s: &mut String, n: u64)
    ensures
        final(s)@ == old(s)@ + digits_of(n as nat),
    decreases n,
{
    if n >= 10 {
        push_digits(s, n / 10);
        let d = digit_to_char(n % 10);
        push_char(s, d);
        proof {
            assert(final(s)@ =~= old(s)@ + digits_of(n as nat));
        }
    } else {
        let d = digit_to_char(n);
        push_char(s, d);
        proof {
            assert(final(s)@ =~= old(s)@ + digits_of(n as nat));
        }
    }
}

/// Reads the digit run of `s` that begins at `start`; the value is
/// capped at `cap + 1` so that an overlarge run is still detected.
pub fn scan_digits(s: &Vec<char>, start: usize, cap: u64) -> (r: (usize, u64))
    requires
        start <= s@.len(),
        cap < u64::MAX,
    ensures
        start <= r.0 <= s@.len(),
        r.0 - start == digits_len(s@.skip(start as int)),
        forall|j: int| start <= j < r.0 ==> is_digit(#[trigger] s@[j]),
        r.0 < s@.len() ==> !is_digit(s@[r.0 as int]),
        digits_val(s@.subrange(start as int, r.0 as int)) <= cap
            ==> r.1 == digits_val(s@.subrange(start as int, r.0 as int)),
        digits_val(s@.subrange(start as int, r.0 as int)) > cap ==> r.1 == cap + 1,
    decreases s@.len() - start,
{
    let n = s.len();
    let mut i: usize = start;
    let mut acc: u128 = 0;
    let cap1: u128 = cap as u128 + 1;
    while i < n && digit_at(s, i)
        invariant
            start <= i <= n,
            n == s@.len(),
            cap1 == cap as u128 + 1,
            cap < u64::MAX,
            digits_len(s@.skip(start as int)) == (i - start) + digits_len(s@.skip(i as int)),
            forall|j: int| start <= j < i ==> is_digit(#[trigger] s@[j]),
            acc <= cap1,
            digits_val(s@.subrange(start as int, i as int)) <= cap
                ==> acc == digits_val(s@.subrange(start as int, i as int)),
            digits_val(s@.subrange(start as int, i as int)) > cap ==> acc == cap1,
        decreases n - i,
    {
        let c = s[i];
        let d: u128 = digit_value(c) as u128;
        proof {
            lemma_digits_len_step(s@, i as int);
            assert(s@.subrange(start as int, i as int + 1)
                =~= s@.subrange(start as int, i as int).push(c));
            lemma_digits_val_snoc(s@.subrange(start as int, i as int), c);
        }
        let a2: u128 = acc * 10 + d;
        acc = if a2 > cap1 {
            cap1
        } else {
            a2
        };
        i += 1;
    }
    proof {
        if i < n {
            lemma_digits_len_step(s@, i as int);
        }
    }
    (i, (acc as u64))
}

} // verus!
