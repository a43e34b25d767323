//! The grammar semantics of infix arithmetic — an expression is terms
//! joined by `+` and `-`, a term is factors joined by `*` and `/`, a
//! factor is a number or a parenthesized expression, all
//! left-associative — and the proof that the two-stack machine agrees
//! with it: on every token sequence that this grammar accepts whole
//! and evaluates without dividing by zero, the machine returns exactly
//! the grammar's value.

use vstd::prelude::*;

verus! {

use crate::eval::{EvalOutcome, Token, apply_val, prec, run_eval, run_machine};

/// The index after a consumed piece; reading always advances, so the
/// clamp is never taken and only serves the termination measure.
#[verifier::inline]
pub open spec fn step_idx(i: int, j: int, n: int) -> int {
    if i < j <= n {
        j
    } else {
        i + 1
    }
}

/// A factor: a number, or a parenthesized expression.
pub open spec fn parse_factor(toks: Seq<Token>, i: int) -> Option<(i64, int)>
    decreases toks.len() - i, 0int,
{
    if 0 <= i < toks.len() {
        match toks[i] {
            Token::Number(v) => Some((v, i + 1)),
            Token::LParen => match parse_expr(toks, i + 1) {
                None => None,
                Some((v, j)) => if j < toks.len() && toks[j] is RParen {
                    Some((v, j + 1))
                } else {
                    None
                },
            },
            _ => None,
        }
    } else {
        None
    }
}

/// The rest of a term: `*` and `/` applied left to right; a division
/// by zero fails.
pub open spec fn parse_term_rest(toks: Seq<Token>, i: int, acc: i64) -> Option<(i64, int)>
    decreases toks.len() - i, 3int,
{
    if 0 <= i < toks.len() && (toks[i] == Token::Op('*') || toks[i] == Token::Op('/')) {
        let c = toks[i]->Op_0;
        match parse_factor(toks, i + 1) {
            None => None,
            Some((f, j)) => if c == '/' && f == 0 {
                None
            } else {
                parse_term_rest(toks, step_idx(i, j, toks.len() as int), apply_val(c, acc, f))
            },
        }
    } else {
        Some((acc, i))
    }
}

/// A term: factors joined by `*` and `/`.
pub open spec fn parse_term(toks: Seq<Token>, i: int) -> Option<(i64, int)>
    decreases toks.len() - i, 1int,
{
    if 0 <= i < toks.len() {
        match parse_factor(toks, i) {
            None => None,
            Some((f, j)) => parse_term_rest(toks, step_idx(i, j, toks.len() as int), f),
        }
    } else {
        None
    }
}

/// The rest of an expression: `+` and `-` applied left to right.
pub open spec fn parse_expr_rest(toks: Seq<Token>, i: int, acc: i64) -> Option<(i64, int)>
    decreases toks.len() - i, 3int,
{
    if 0 <= i < toks.len() && (toks[i] == Token::Op('+') || toks[i] == Token::Op('-')) {
        let c = toks[i]->Op_0;
        match parse_term(toks, i + 1) {
            None => None,
            Some((t, j)) => parse_expr_rest(toks, step_idx(i, j, toks.len() as int), apply_val(c, acc, t)),
        }
    } else {
        Some((acc, i))
    }
}

/// An expression: terms joined by `+` and `-`.
pub open spec fn parse_expr(toks: Seq<Token>, i: int) -> Option<(i64, int)>
    decreases toks.len() - i, 2int,
{
    if 0 <= i < toks.len() {
        match parse_term(toks, i) {
            None => None,
            Some((t, j)) => parse_expr_rest(toks, step_idx(i, j, toks.len() as int), t),
        }
    } else {
        None
    }
}

/// Reading a factor advances within the input.
pub proof fn lemma_factor_advances(toks: Seq<Token>, i: int)
    requires
        parse_factor(toks, i) is Some,
    ensures
        i < (parse_factor(toks, i)->0).1 <= toks.len(),
    decreases toks.len() - i, 0int,
{
    if 0 <= i < toks.len() && toks[i] is LParen {
        lemma_expr_advances(toks, i + 1);
    }
}

/// Reading the rest of a term never retreats, and stops only where no
/// `*` or `/` follows.
pub proof fn lemma_term_rest_advances(toks: Seq<Token>, i: int, acc: i64)
    requires
        parse_term_rest(toks, i, acc) is Some,
        0 <= i <= toks.len(),
    ensures
        i <= (parse_term_rest(toks, i, acc)->0).1 <= toks.len(),
        !((parse_term_rest(toks, i, acc)->0).1 < toks.len()
            && (toks[(parse_term_rest(toks, i, acc)->0).1] == Token::Op('*')
            || toks[(parse_term_rest(toks, i, acc)->0).1] == Token::Op('/'))),
    decreases toks.len() - i, 3int,
{
    if 0 <= i < toks.len() && (toks[i] == Token::Op('*') || toks[i] == Token::Op('/')) {
        let c = toks[i]->Op_0;
        match parse_factor(toks, i + 1) {
            None => {},
            Some((f, j)) => {
                lemma_factor_advances(toks, i + 1);
                if !(c == '/' && f == 0) {
                    lemma_term_rest_advances(toks, step_idx(i, j, toks.len() as int), apply_val(c, acc, f));
                }
            },
        }
    }
}

/// Reading a term advances and stops only where no `*` or `/` follows.
pub proof fn lemma_term_advances(toks: Seq<Token>, i: int)
    requires
        parse_term(toks, i) is Some,
        0 <= i <= toks.len(),
    ensures
        i < (parse_term(toks, i)->0).1 <= toks.len(),
        !((parse_term(toks, i)->0).1 < toks.len() && (toks[(parse_term(toks, i)->0).1]
            == Token::Op('*') || toks[(parse_term(toks, i)->0).1] == Token::Op('/'))),
    decreases toks.len() - i, 1int,
{
    lemma_factor_advances(toks, i);
    let (f, j) = parse_factor(toks, i)->0;
    lemma_term_rest_advances(toks, step_idx(i, j, toks.len() as int), f);
}

/// Reading the rest of an expression never retreats.
pub proof fn lemma_expr_rest_advances(toks: Seq<Token>, i: int, acc: i64)
    requires
        parse_expr_rest(toks, i, acc) is Some,
        0 <= i <= toks.len(),
    ensures
        i <= (parse_expr_rest(toks, i, acc)->0).1 <= toks.len(),
    decreases toks.len() - i, 3int,
{
    if 0 <= i < toks.len() && (toks[i] == Token::Op('+') || toks[i] == Token::Op('-')) {
        let c = toks[i]->Op_0;
        match parse_term(toks, i + 1) {
            None => {},
            Some((t, j)) => {
                lemma_term_advances(toks, i + 1);
                lemma_expr_rest_advances(toks, step_idx(i, j, toks.len() as int), apply_val(c, acc, t));
            },
        }
    }
}

/// Reading an expression advances.
pub proof fn lemma_expr_advances(toks: Seq<Token>, i: int)
    requires
        parse_expr(toks, i) is Some,
    ensures
        i < (parse_expr(toks, i)->0).1 <= toks.len(),
    decreases toks.len() - i, 2int,
{
    if 0 <= i <= toks.len() {
        lemma_term_advances(toks, i);
        let (t, j) = parse_term(toks, i)->0;
        lemma_expr_rest_advances(toks, step_idx(i, j, toks.len() as int), t);
    }
}

/// A place where a pending term operator gets reduced: an operator, a
/// closing parenthesis, or the end of input.
pub open spec fn term_boundary(toks: Seq<Token>, j: int) -> bool {
    j == toks.len() || toks[j] is Op || toks[j] is RParen
}

/// A place where a pending expression operator gets reduced without a
/// tighter operator intervening.
pub open spec fn expr_boundary(toks: Seq<Token>, j: int) -> bool {
    j == toks.len() || toks[j] is RParen
}

/// No pending operator on the stack binds as tightly as `*`.
pub open spec fn ops_below_mul(ops: Seq<char>) -> bool {
    ops.len() == 0 || ops.last() == '(' || prec(ops.last()) <= 1
}

/// No pending operator at all above the last barrier.
pub open spec fn ops_below_add(ops: Seq<char>) -> bool {
    ops.len() == 0 || ops.last() == '('
}

/// Processing a factor pushes exactly its value, whatever the stacks.
proof fn lemma_factor_sim(toks: Seq<Token>, i: int, nums: Seq<i64>, ops: Seq<char>)
    requires
        parse_factor(toks, i) is Some,
    ensures
        run_machine(toks, i, nums, ops) == run_machine(
            toks,
            (parse_factor(toks, i)->0).1,
            nums.push((parse_factor(toks, i)->0).0),
            ops,
        ),
    decreases toks.len() - i, 0int,
{
    let (v, j) = parse_factor(toks, i)->0;
    if toks[i] is LParen {
        let (ve, je) = parse_expr(toks, i + 1)->0;
        lemma_expr_advances(toks, i + 1);
        lemma_expr_sim(toks, i + 1, nums, ops.push('('));
        assert(ops.push('(').last() == '(');
        assert(ops.push('(').drop_last() =~= ops);
        assert(run_machine(toks, je, nums.push(ve), ops.push('(')) == run_machine(
            toks,
            je + 1,
            nums.push(ve),
            ops,
        ));
    }
}

/// Processing the rest of a term folds its factors into the
/// accumulator, whatever lies below the pending operator.
proof fn lemma_term_rest_sim(toks: Seq<Token>, i: int, acc: i64, nums: Seq<i64>, ops: Seq<char>)
    requires
        parse_term_rest(toks, i, acc) is Some,
        0 <= i <= toks.len(),
        ops_below_mul(ops),
        term_boundary(toks, (parse_term_rest(toks, i, acc)->0).1),
    ensures
        run_machine(toks, i, nums.push(acc), ops) == run_machine(
            toks,
            (parse_term_rest(toks, i, acc)->0).1,
            nums.push((parse_term_rest(toks, i, acc)->0).0),
            ops,
        ),
    decreases toks.len() - i, 3int,
{
    if 0 <= i < toks.len() && (toks[i] == Token::Op('*') || toks[i] == Token::Op('/')) {
        let c = toks[i]->Op_0;
        let (f, j1) = parse_factor(toks, i + 1)->0;
        lemma_factor_advances(toks, i + 1);
        let acc2 = apply_val(c, acc, f);
        assert(run_machine(toks, i, nums.push(acc), ops) == run_machine(
            toks,
            i + 1,
            nums.push(acc),
            ops.push(c),
        ));
        lemma_factor_sim(toks, i + 1, nums.push(acc), ops.push(c));
        let big = nums.push(acc).push(f);
        let ops1 = ops.push(c);
        assert(big.take(big.len() - 2) =~= nums);
        assert(ops1.drop_last() =~= ops);
        assert(big[big.len() - 2] == acc);
        assert(big.last() == f);
        lemma_term_rest_advances(toks, j1, acc2);
        assert(term_boundary(toks, j1));
        assert(run_machine(toks, j1, big, ops1) == run_machine(toks, j1, nums.push(acc2), ops));
        lemma_term_rest_sim(toks, j1, acc2, nums, ops);
    }
}

/// Processing a term pushes exactly its value.
proof fn lemma_term_sim(toks: Seq<Token>, i: int, nums: Seq<i64>, ops: Seq<char>)
    requires
        parse_term(toks, i) is Some,
        ops_below_mul(ops),
        term_boundary(toks, (parse_term(toks, i)->0).1),
    ensures
        run_machine(toks, i, nums, ops) == run_machine(
            toks,
            (parse_term(toks, i)->0).1,
            nums.push((parse_term(toks, i)->0).0),
            ops,
        ),
    decreases toks.len() - i, 1int,
{
    let (f, j0) = parse_factor(toks, i)->0;
    lemma_factor_advances(toks, i);
    lemma_factor_sim(toks, i, nums, ops);
    lemma_term_rest_sim(toks, j0, f, nums, ops);
}

/// Processing the rest of an expression folds its terms into the
/// accumulator.
proof fn lemma_expr_rest_sim(toks: Seq<Token>, i: int, acc: i64, nums: Seq<i64>, ops: Seq<char>)
    requires
        parse_expr_rest(toks, i, acc) is Some,
        0 <= i <= toks.len(),
        ops_below_add(ops),
        expr_boundary(toks, (parse_expr_rest(toks, i, acc)->0).1),
    ensures
        run_machine(toks, i, nums.push(acc), ops) == run_machine(
            toks,
            (parse_expr_rest(toks, i, acc)->0).1,
            nums.push((parse_expr_rest(toks, i, acc)->0).0),
            ops,
        ),
    decreases toks.len() - i, 3int,
{
    if 0 <= i < toks.len() && (toks[i] == Token::Op('+') || toks[i] == Token::Op('-')) {
        let c = toks[i]->Op_0;
        let (t, jt) = parse_term(toks, i + 1)->0;
        lemma_term_advances(toks, i + 1);
        let acc2 = apply_val(c, acc, t);
        assert(run_machine(toks, i, nums.push(acc), ops) == run_machine(
            toks,
            i + 1,
            nums.push(acc),
            ops.push(c),
        ));
        lemma_expr_rest_advances(toks, jt, acc2);
        assert(term_boundary(toks, jt));
        lemma_term_sim(toks, i + 1, nums.push(acc), ops.push(c));
        let big = nums.push(acc).push(t);
        let ops1 = ops.push(c);
        assert(big.take(big.len() - 2) =~= nums);
        assert(ops1.drop_last() =~= ops);
        assert(big[big.len() - 2] == acc);
        assert(big.last() == t);
        assert(run_machine(toks, jt, big, ops1) == run_machine(toks, jt, nums.push(acc2), ops));
        lemma_expr_rest_sim(toks, jt, acc2, nums, ops);
    }
}

/// Processing an expression pushes exactly its value.
proof fn lemma_expr_sim(toks: Seq<Token>, i: int, nums: Seq<i64>, ops: Seq<char>)
    requires
        parse_expr(toks, i) is Some,
        ops_below_add(ops),
        expr_boundary(toks, (parse_expr(toks, i)->0).1),
    ensures
        run_machine(toks, i, nums, ops) == run_machine(
            toks,
            (parse_expr(toks, i)->0).1,
            nums.push((parse_expr(toks, i)->0).0),
            ops,
        ),
    decreases toks.len() - i, 2int,
{
    let (t, j0) = parse_term(toks, i)->0;
    lemma_term_advances(toks, i);
    lemma_expr_rest_advances(toks, j0, t);
    assert(term_boundary(toks, j0));
    lemma_term_sim(toks, i, nums, ops);
    lemma_expr_rest_sim(toks, j0, t, nums, ops);
}

/// The two-stack machine computes standard precedence-respecting,
/// left-associative integer arithmetic: on every token sequence that
/// the expression grammar accepts whole and evaluates without dividing
/// by zero, the machine's verdict is exactly the grammar's value.
pub proof fn lemma_machine_matches_grammar(toks: Seq<Token>)
    requires
        parse_expr(toks, 0) is Some,
        (parse_expr(toks, 0)->0).1 == toks.len(),
    ensures
        run_eval(toks) == EvalOutcome::Value((parse_expr(toks, 0)->0).0),
{
    let (v, j) = parse_expr(toks, 0)->0;
    lemma_expr_sim(toks, 0, Seq::<i64>::empty(), Seq::<char>::empty());
    let one = Seq::<i64>::empty().push(v);
    assert(one.len() == 1);
    assert(one[0] == v);
    assert(run_machine(toks, toks.len() as int, one, Seq::<char>::empty())
        == EvalOutcome::Value(v));
}

} // verus!
