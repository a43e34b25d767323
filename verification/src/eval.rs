//! The integer expression evaluator: a classic two-stack
//! precedence-respecting machine over the tokens of an infix
//! expression. `*` and `/` bind tighter than `+` and `-`; all four are
//! left-associative; parentheses group. Arithmetic saturates at the
//! machine-word bounds; division truncates toward zero; division by
//! zero is an error. Every push and pop on the operand and operator
//! stacks is recorded in the operation log.

use vstd::prelude::*;

verus! {

use crate::digits::{digit_at, digits_len, digits_val, is_digit, lemma_digits_len_le,
    scan_digits};
use crate::errors::EvalError;
use crate::log::{LogAction, LogEntry, OperationLog, StackKind, count_ops, lemma_count_push_all};

/// One token of an arithmetic expression.
#[derive(Clone, Copy, PartialEq, Eq, Structural, Debug)]
pub enum Token {
    Number(i64),
    Op(char),
    LParen,
    RParen,
}

/// Is `c` a binary operator?
pub open spec fn op_char(c: char) -> bool {
    c == '+' || c == '-' || c == '*' || c == '/'
}

/// Is `c` part of the expression alphabet (spaces already removed)?
pub open spec fn calc_char(c: char) -> bool {
    is_digit(c) || op_char(c) || c == '(' || c == ')'
}

/// Does `t` consist of expression characters only?
pub open spec fn calc_chars_ok(t: Seq<char>) -> bool {
    forall|i: int| 0 <= i < t.len() ==> calc_char(#[trigger] t[i])
}

/// Operator precedence: `*` and `/` bind tighter than `+` and `-`.
pub open spec fn prec(c: char) -> int {
    if c == '*' || c == '/' {
        2
    } else {
        1
    }
}

/// Saturation at the machine-word bounds.
pub open spec fn sat64(v: int) -> int {
    if v > i64::MAX {
        i64::MAX as int
    } else if v < i64::MIN {
        i64::MIN as int
    } else {
        v
    }
}

/// Division truncating toward zero, for a nonzero divisor.
pub open spec fn tdiv(a: int, b: int) -> int {
    if a == 0 {
        0
    } else if a > 0 && b > 0 {
        a / b
    } else if a < 0 && b < 0 {
        (a * -1) / (b * -1)
    } else if a < 0 {
        ((a * -1) / b) * -1
    } else {
        (a / (b * -1)) * -1
    }
}

/// The saturated result of one binary operation; division by zero is
/// excluded by the machine before applying.
pub open spec fn apply_val(c: char, a: i64, b: i64) -> i64 {
    if c == '+' {
        sat64(a + b) as i64
    } else if c == '-' {
        sat64(a - b) as i64
    } else if c == '*' {
        sat64(a * b) as i64
    } else {
        sat64(tdiv(a as int, b as int)) as i64
    }
}

/// How an evaluation ends.
#[derive(Clone, Copy, PartialEq, Eq, Structural, Debug)]
pub enum EvalOutcome {
    Value(i64),
    DivByZero,
    Mismatch,
    Invalid,
    NoValue,
}

/// The two-stack machine: numbers push to the operand stack; an
/// operator first reduces while the stack's top operator binds at
/// least as tightly, then pushes; `(` pushes a barrier; `)` reduces
/// down to the matching barrier; at the end of input the remaining
/// operators are reduced and exactly one operand must remain.
pub open spec fn run_machine(toks: Seq<Token>, i: int, nums: Seq<i64>, ops: Seq<char>) -> EvalOutcome
    decreases toks.len() - i, ops.len(),
{
    if i < 0 || i > toks.len() {
        EvalOutcome::Invalid
    } else if i == toks.len() {
        if ops.len() == 0 {
            if nums.len() == 1 {
                EvalOutcome::Value(nums[0])
            } else if nums.len() == 0 {
                EvalOutcome::NoValue
            } else {
                EvalOutcome::Invalid
            }
        } else if ops.last() == '(' {
            EvalOutcome::Mismatch
        } else if nums.len() < 2 {
            EvalOutcome::Invalid
        } else if ops.last() == '/' && nums.last() == 0 {
            EvalOutcome::DivByZero
        } else {
            run_machine(
                toks,
                i,
                nums.take(nums.len() - 2).push(
                    apply_val(ops.last(), nums[nums.len() - 2], nums.last()),
                ),
                ops.drop_last(),
            )
        }
    } else {
        match toks[i] {
            Token::Number(v) => run_machine(toks, i + 1, nums.push(v), ops),
            Token::LParen => run_machine(toks, i + 1, nums, ops.push('(')),
            Token::RParen => {
                if ops.len() == 0 {
                    EvalOutcome::Mismatch
                } else if ops.last() == '(' {
                    run_machine(toks, i + 1, nums, ops.drop_last())
                } else if nums.len() < 2 {
                    EvalOutcome::Invalid
                } else if ops.last() == '/' && nums.last() == 0 {
                    EvalOutcome::DivByZero
                } else {
                    run_machine(
                        toks,
                        i,
                        nums.take(nums.len() - 2).push(
                            apply_val(ops.last(), nums[nums.len() - 2], nums.last()),
                        ),
                        ops.drop_last(),
                    )
                }
            },
            Token::Op(c) => {
                if ops.len() > 0 && ops.last() != '(' && prec(ops.last()) >= prec(c) {
                    if nums.len() < 2 {
                        EvalOutcome::Invalid
                    } else if ops.last() == '/' && nums.last() == 0 {
                        EvalOutcome::DivByZero
                    } else {
                        run_machine(
                            toks,
                            i,
                            nums.take(nums.len() - 2).push(
                                apply_val(ops.last(), nums[nums.len() - 2], nums.last()),
                            ),
                            ops.drop_last(),
                        )
                    }
                } else {
                    run_machine(toks, i + 1, nums, ops.push(c))
                }
            },
        }
    }
}

/// The machine's verdict on a whole token sequence.
pub open spec fn run_eval(toks: Seq<Token>) -> EvalOutcome {
    run_machine(toks, 0, Seq::<i64>::empty(), Seq::<char>::empty())
}

/// The tokens of a stripped expression text, scanning left to right:
/// greedy digit runs, the four operators, parentheses; `-` at the start
/// of the input, after `(` or after an operator is unary, folded into a
/// following number or written as `0 -` before anything else. `None`
/// marks a number literal outside the machine range (or, on a full
/// scan, a character outside the alphabet).
pub open spec fn spec_tokens(t: Seq<char>, unary: bool) -> Option<Seq<Token>>
    decreases t.len(),
    via spec_tokens_dec
{
    if t.len() == 0 {
        Some(Seq::<Token>::empty())
    } else {
        let c = t[0];
        if is_digit(c) {
            let d = digits_len(t) as int;
            let v = digits_val(t.take(d));
            if v > i64::MAX {
                None
            } else {
                match spec_tokens(t.skip(d), false) {
                    None => None,
                    Some(rest) => Some(seq![Token::Number(v as i64)] + rest),
                }
            }
        } else if c == '-' && unary && t.len() > 1 && is_digit(t[1]) {
            let d = digits_len(t.skip(1)) as int;
            let v = digits_val(t.skip(1).take(d));
            if v > 9223372036854775808 {
                None
            } else {
                match spec_tokens(t.skip(1 + d), false) {
                    None => None,
                    Some(rest) => Some(seq![Token::Number((-(v as int)) as i64)] + rest),
                }
            }
        } else if c == '-' && unary {
            match spec_tokens(t.skip(1), true) {
                None => None,
                Some(rest) => Some(seq![Token::Number(0i64), Token::Op('-')] + rest),
            }
        } else if op_char(c) {
            match spec_tokens(t.skip(1), true) {
                None => None,
                Some(rest) => Some(seq![Token::Op(c)] + rest),
            }
        } else if c == '(' {
            match spec_tokens(t.skip(1), true) {
                None => None,
                Some(rest) => Some(seq![Token::LParen] + rest),
            }
        } else if c == ')' {
            match spec_tokens(t.skip(1), false) {
                None => None,
                Some(rest) => Some(seq![Token::RParen] + rest),
            }
        } else {
            None
        }
    }
}

/// One saturated binary operation on machine words.
fn apply_exec(c: char, a: i64, b: i64) -> (r: i64)
    requires
        op_char(c),
        c == '/' ==> b != 0,
    ensures
        r == apply_val(c, a, b),
{
    if c == '+' {
        match a.checked_add(b) {
            Some(v) => v,
            None => if a > 0 {
                i64::MAX
            } else {
                i64::MIN
            },
        }
    } else if c == '-' {
        match a.checked_sub(b) {
            Some(v) => v,
            None => if b < 0 {
                i64::MAX
            } else {
                i64::MIN
            },
        }
    } else if c == '*' {
        match a.checked_mul(b) {
            Some(v) => v,
            None => {
                proof {
                    if (a as int) * (b as int) > i64::MAX {
                        assert((a > 0) == (b > 0)) by (nonlinear_arith)
                            requires
                                (a as int) * (b as int) > i64::MAX,
                        ;
                    } else {
                        assert((a > 0) != (b > 0)) by (nonlinear_arith)
                            requires
                                (a as int) * (b as int) < i64::MIN,
                        ;
                    }
                }
                if (a > 0) == (b > 0) {
                    i64::MAX
                } else {
                    i64::MIN
                }
            },
        }
    } else {
        match a.checked_div(b) {
            Some(v) => v,
            None => i64::MAX,
        }
    }
}

/// The code point recorded for an operator or barrier on the symbolic
/// stack.
fn op_code(c: char) -> i64 {
    if c == '+' {
        43
    } else if c == '-' {
        45
    } else if c == '*' {
        42
    } else if c == '/' {
        47
    } else {
        40
    }
}

/// Pops the top operator and applies it to the top two operands,
/// recording the three pops and the push. On failure nothing changes.
fn reduce_once(nums: &mut Vec<i64>, ops: &mut Vec<char>, log: &mut OperationLog) -> (r: Result<
    (),
    EvalError,
>)
    requires
        old(ops)@.len() > 0,
        old(ops)@.last() != '(',
        op_char(old(ops)@.last()),
        old(log).wf(),
        old(log).entries@.len() + 4 < u32::MAX,
    ensures
        final(log).wf(),
        old(nums)@.len() < 2 ==> r == Err::<(), EvalError>(EvalError::InvalidExpression),
        old(nums)@.len() >= 2 && old(ops)@.last() == '/' && old(nums)@.last() == 0 ==> r == Err::<
            (),
            EvalError,
        >(EvalError::DivisionByZero),
        r is Ok <==> (old(nums)@.len() >= 2 && !(old(ops)@.last() == '/' && old(nums)@.last()
            == 0)),
        r is Err ==> final(nums)@ == old(nums)@ && final(ops)@ == old(ops)@ && *final(log)
            == *old(log),
        r is Ok ==> final(nums)@ == old(nums)@.take(old(nums)@.len() - 2).push(
            apply_val(old(ops)@.last(), old(nums)@[old(nums)@.len() - 2], old(nums)@.last()),
        ),
        r is Ok ==> final(ops)@ == old(ops)@.drop_last(),
        r is Ok ==> final(log).entries@.len() == old(log).entries@.len() + 4,
        r is Ok ==> count_ops(final(log).entries@, StackKind::Numeric, LogAction::Push)
            == count_ops(old(log).entries@, StackKind::Numeric, LogAction::Push) + 1,
        r is Ok ==> count_ops(final(log).entries@, StackKind::Numeric, LogAction::Pop)
            == count_ops(old(log).entries@, StackKind::Numeric, LogAction::Pop) + 2,
        r is Ok ==> count_ops(final(log).entries@, StackKind::Symbolic, LogAction::Push)
            == count_ops(old(log).entries@, StackKind::Symbolic, LogAction::Push),
        r is Ok ==> count_ops(final(log).entries@, StackKind::Symbolic, LogAction::Pop)
            == count_ops(old(log).entries@, StackKind::Symbolic, LogAction::Pop) + 1,
{
    let l = nums.len();
    if l < 2 {
        return Err(EvalError::InvalidExpression);
    }
    let op = ops[ops.len() - 1];
    let b = nums[l - 1];
    let a = nums[l - 2];
    if op == '/' && b == 0 {
        return Err(EvalError::DivisionByZero);
    }
    ops.pop();
    let code = op_code(op);
    let ghost g0 = log.entries@;
    log.record(StackKind::Symbolic, LogAction::Pop, code);
    proof {
        lemma_count_push_all(
            g0,
            LogEntry {
                timestamp: g0.len() as u32,
                stack: StackKind::Symbolic,
                action: LogAction::Pop,
                payload: code,
            },
        );
    }
    nums.pop();
    let ghost g1 = log.entries@;
    log.record(StackKind::Numeric, LogAction::Pop, b);
    proof {
        lemma_count_push_all(
            g1,
            LogEntry {
                timestamp: g1.len() as u32,
                stack: StackKind::Numeric,
                action: LogAction::Pop,
                payload: b,
            },
        );
    }
    nums.pop();
    let ghost g2 = log.entries@;
    log.record(StackKind::Numeric, LogAction::Pop, a);
    proof {
        lemma_count_push_all(
            g2,
            LogEntry {
                timestamp: g2.len() as u32,
                stack: StackKind::Numeric,
                action: LogAction::Pop,
                payload: a,
            },
        );
    }
    let v = apply_exec(op, a, b);
    nums.push(v);
    let ghost g3 = log.entries@;
    log.record(StackKind::Numeric, LogAction::Push, v);
    proof {
        lemma_count_push_all(
            g3,
            LogEntry {
                timestamp: g3.len() as u32,
                stack: StackKind::Numeric,
                action: LogAction::Push,
                payload: v,
            },
        );
        assert(final(ops)@ =~= old(ops)@.drop_last());
        assert(final(nums)@ =~= old(nums)@.take(old(nums)@.len() - 2).push(
            apply_val(old(ops)@.last(), old(nums)@[old(nums)@.len() - 2], old(nums)@.last()),
        ));
    }
    Ok(())
}

/// Scans a stripped expression text into tokens. A character outside
/// the alphabet is `UnknownOperator`; a number literal outside the
/// machine range is `InvalidExpression`.
pub fn scan_tokens(tv: &Vec<char>) -> (r: Result<Vec<Token>, EvalError>)
    ensures
        !calc_chars_ok(tv@) ==> r == Err::<Vec<Token>, EvalError>(EvalError::UnknownOperator),
        calc_chars_ok(tv@) && spec_tokens(tv@, true) is None ==> r == Err::<Vec<Token>, EvalError>(
            EvalError::InvalidExpression,
        ),
        r is Ok <==> (calc_chars_ok(tv@) && spec_tokens(tv@, true) is Some),
        r is Ok ==> r->Ok_0@ == spec_tokens(tv@, true)->0,
        r is Ok ==> r->Ok_0@.len() <= 2 * tv@.len(),
        r is Ok ==> forall|j: int| 0 <= j < r->Ok_0@.len() ==> ((#[trigger] r->Ok_0@[j]) is Op
            ==> op_char(r->Ok_0@[j]->Op_0)),
{
    let n = tv.len();
    let mut i: usize = 0;
    while i < n
        invariant
            i <= n,
            n == tv@.len(),
            forall|j: int| 0 <= j < i ==> calc_char(#[trigger] tv@[j]),
        decreases n - i,
    {
        let c = tv[i];
        if !(digit_at(tv, i) || c == '+' || c == '-' || c == '*' || c == '/' || c == '(' || c
            == ')') {
            return Err(EvalError::UnknownOperator);
        }
        i += 1;
    }
    let mut out: Vec<Token> = Vec::new();
    let mut pos: usize = 0;
    let mut unary: bool = true;
    proof {
        assert(tv@.skip(0) =~= tv@);
        if spec_tokens(tv@, true) is Some {
            assert(Seq::<Token>::empty() + spec_tokens(tv@, true)->0 =~= spec_tokens(
                tv@,
                true,
            )->0);
        }
    }
    while pos < n
        invariant
            pos <= n,
            n == tv@.len(),
            calc_chars_ok(tv@),
            out@.len() <= 2 * pos,
            forall|j: int| 0 <= j < out@.len() ==> ((#[trigger] out@[j]) is Op ==> op_char(
                out@[j]->Op_0,
            )),
            spec_tokens(tv@.skip(pos as int), unary) is Some ==> (spec_tokens(tv@, true) is Some
                && spec_tokens(tv@, true)->0 == out@ + spec_tokens(tv@.skip(pos as int), unary)->0),
            spec_tokens(tv@.skip(pos as int), unary) is None ==> spec_tokens(tv@, true) is None,
        decreases n - pos,
    {
        let ghost t = tv@.skip(pos as int);
        let ghost before = out@;
        let c = tv[pos];
        proof {
            assert(t[0] == tv@[pos as int]);
        }
        if digit_at(tv, pos) {
            let (dend, v) = scan_digits(tv, pos, 9223372036854775807);
            let ghost d = (dend - pos) as int;
            proof {
                assert(t.take(d) =~= tv@.subrange(pos as int, dend as int));
                assert(t.skip(d) =~= tv@.skip(dend as int));
            }
            if v > i64::MAX as u64 {
                return Err(EvalError::InvalidExpression);
            }
            out.push(Token::Number(v as i64));
            proof {
                let rest_opt = spec_tokens(tv@.skip(dend as int), false);
                if rest_opt is Some {
                    assert(out@ + rest_opt->0 =~= before + (seq![
                        Token::Number(v as i64)] + rest_opt->0));
                }
            }
            pos = dend;
            unary = false;
        } else if c == '-' && unary && pos + 1 < n && digit_at(tv, pos + 1) {
            let (dend, v) = scan_digits(tv, pos + 1, 9223372036854775808);
            let ghost d = (dend - (pos + 1)) as int;
            proof {
                assert(t[1] == tv@[pos as int + 1]);
                assert(t.skip(1) =~= tv@.skip(pos as int + 1));
                assert(t.skip(1).take(d) =~= tv@.subrange(pos as int + 1, dend as int));
                assert(t.skip(1 + d) =~= tv@.skip(dend as int));
            }
            if v > 9223372036854775808 {
                return Err(EvalError::InvalidExpression);
            }
            let tok_v: i64 = if v == 9223372036854775808 {
                i64::MIN
            } else {
                -(v as i64)
            };
            out.push(Token::Number(tok_v));
            proof {
                let rest_opt = spec_tokens(tv@.skip(dend as int), false);
                if rest_opt is Some {
                    assert(out@ + rest_opt->0 =~= before + (seq![Token::Number(tok_v)]
                        + rest_opt->0));
                }
            }
            pos = dend;
            unary = false;
        } else if c == '-' && unary {
            out.push(Token::Number(0));
            out.push(Token::Op('-'));
            proof {
                assert(t.skip(1) =~= tv@.skip(pos as int + 1));
                let rest_opt = spec_tokens(tv@.skip(pos as int + 1), true);
                if rest_opt is Some {
                    assert(out@ + rest_opt->0 =~= before + (seq![
                        Token::Number(0i64),
                        Token::Op('-'),
                    ] + rest_opt->0));
                }
            }
            pos = pos + 1;
            unary = true;
        } else if c == '+' || c == '-' || c == '*' || c == '/' {
            out.push(Token::Op(c));
            proof {
                assert(t.skip(1) =~= tv@.skip(pos as int + 1));
                let rest_opt = spec_tokens(tv@.skip(pos as int + 1), true);
                if rest_opt is Some {
                    assert(out@ + rest_opt->0 =~= before + (seq![Token::Op(c)] + rest_opt->0));
                }
            }
            pos = pos + 1;
            unary = true;
        } else if c == '(' {
            out.push(Token::LParen);
            proof {
                assert(t.skip(1) =~= tv@.skip(pos as int + 1));
                let rest_opt = spec_tokens(tv@.skip(pos as int + 1), true);
                if rest_opt is Some {
                    assert(out@ + rest_opt->0 =~= before + (seq![Token::LParen] + rest_opt->0));
                }
            }
            pos = pos + 1;
            unary = true;
        } else {
            proof {
                assert(calc_char(t[0]));
                assert(c == ')');
            }
            out.push(Token::RParen);
            proof {
                assert(t.skip(1) =~= tv@.skip(pos as int + 1));
                let rest_opt = spec_tokens(tv@.skip(pos as int + 1), false);
                if rest_opt is Some {
                    assert(out@ + rest_opt->0 =~= before + (seq![Token::RParen] + rest_opt->0));
                }
            }
            pos = pos + 1;
            unary = false;
        }
    }
    proof {
        assert(tv@.skip(pos as int) =~= Seq::<char>::empty());
        assert(spec_tokens(tv@.skip(pos as int), unary) == Some(Seq::<Token>::empty()));
        assert(out@ + Seq::<Token>::empty() =~= out@);
    }
    Ok(out)
}

/// Operator precedence, as an executable value.
fn prec_exec(c: char) -> (r: u32)
    ensures
        r as int == prec(c),
{
    if c == '*' || c == '/' {
        2
    } else {
        1
    }
}

/// Does the machine reduce before pushing `c`: is there a top operator,
/// not a barrier, binding at least as tightly?
fn should_reduce(ops: &Vec<char>, c: char) -> (r: bool)
    ensures
        r == (ops@.len() > 0 && ops@.last() != '(' && prec(ops@.last()) >= prec(c)),
{
    if ops.len() == 0 {
        return false;
    }
    let top = ops[ops.len() - 1];
    top != '(' && prec_exec(top) >= prec_exec(c)
}

/// Runs the two-stack machine over `toks`, recording every stack
/// operation in `log` from a fresh clock. The result and error are the
/// machine's verdict; on success the numeric and symbolic stacks have
/// both been drained, so their push and pop counts in the log agree.
pub fn evaluate_tokens(toks: &Vec<Token>, log: &mut OperationLog) -> (r: Result<i64, EvalError>)
    requires
        old(log).wf(),
        old(log).entries@.len() == 0,
        toks@.len() <= 0x1000_0000,
        forall|j: int| 0 <= j < toks@.len() ==> ((#[trigger] toks@[j]) is Op ==> op_char(
            toks@[j]->Op_0,
        )),
    ensures
        final(log).wf(),
        r is Ok <==> run_eval(toks@) is Value,
        r is Ok ==> r->Ok_0 == run_eval(toks@)->Value_0,
        run_eval(toks@) is DivByZero ==> r == Err::<i64, EvalError>(EvalError::DivisionByZero),
        run_eval(toks@) is Mismatch ==> r == Err::<i64, EvalError>(
            EvalError::MismatchedParentheses,
        ),
        run_eval(toks@) is Invalid ==> r == Err::<i64, EvalError>(EvalError::InvalidExpression),
        run_eval(toks@) is NoValue ==> r == Err::<i64, EvalError>(EvalError::NoResult),
        r is Ok ==> count_ops(final(log).entries@, StackKind::Numeric, LogAction::Push)
            == count_ops(final(log).entries@, StackKind::Numeric, LogAction::Pop),
        r is Ok ==> count_ops(final(log).entries@, StackKind::Symbolic, LogAction::Push)
            == count_ops(final(log).entries@, StackKind::Symbolic, LogAction::Pop),
{
    let n = toks.len();
    let mut nums: Vec<i64> = Vec::new();
    let mut ops: Vec<char> = Vec::new();
    let mut i: usize = 0;
    proof {
        assert(count_ops(Seq::<LogEntry>::empty(), StackKind::Numeric, LogAction::Push) == 0);
        assert(count_ops(Seq::<LogEntry>::empty(), StackKind::Numeric, LogAction::Pop) == 0);
        assert(count_ops(Seq::<LogEntry>::empty(), StackKind::Symbolic, LogAction::Push) == 0);
        assert(count_ops(Seq::<LogEntry>::empty(), StackKind::Symbolic, LogAction::Pop) == 0);
    }
    while i < n
        invariant
            i <= n,
            n == toks@.len(),
            n <= 0x1000_0000,
            forall|j: int| 0 <= j < toks@.len() ==> ((#[trigger] toks@[j]) is Op ==> op_char(
                toks@[j]->Op_0,
            )),
            forall|j: int| 0 <= j < ops@.len() ==> ((#[trigger] ops@[j]) == '(' || op_char(
                ops@[j],
            )),
            run_eval(toks@) == run_machine(toks@, i as int, nums@, ops@),
            log.wf(),
            count_ops(log.entries@, StackKind::Numeric, LogAction::Push) - count_ops(
                log.entries@,
                StackKind::Numeric,
                LogAction::Pop,
            ) == nums@.len(),
            count_ops(log.entries@, StackKind::Symbolic, LogAction::Push) - count_ops(
                log.entries@,
                StackKind::Symbolic,
                LogAction::Pop,
            ) == ops@.len(),
            log.entries@.len() + 4 * ops@.len() <= 5 * i,
        decreases n - i,
    {
        let tok = toks[i];
        match tok {
            Token::Number(v) => {
                nums.push(v);
                let ghost g = log.entries@;
                log.record(StackKind::Numeric, LogAction::Push, v);
                proof {
                    lemma_count_push_all(
                        g,
                        LogEntry {
                            timestamp: g.len() as u32,
                            stack: StackKind::Numeric,
                            action: LogAction::Push,
                            payload: v,
                        },
                    );
                }
                i += 1;
            },
            Token::LParen => {
                ops.push('(');
                let ghost g = log.entries@;
                log.record(StackKind::Symbolic, LogAction::Push, 40);
                proof {
                    lemma_count_push_all(
                        g,
                        LogEntry {
                            timestamp: g.len() as u32,
                            stack: StackKind::Symbolic,
                            action: LogAction::Push,
                            payload: 40,
                        },
                    );
                }
                i += 1;
            },
            Token::RParen => {
                let mut done = false;
                while !done
                    invariant
                        i < n,
                        n == toks@.len(),
                        n <= 0x1000_0000,
                        toks@[i as int] is RParen,
                        forall|j: int| 0 <= j < ops@.len() ==> ((#[trigger] ops@[j]) == '('
                            || op_char(ops@[j])),
                        !done ==> run_eval(toks@) == run_machine(toks@, i as int, nums@, ops@),
                        done ==> run_eval(toks@) == run_machine(toks@, i as int + 1, nums@, ops@),
                        log.wf(),
                        count_ops(log.entries@, StackKind::Numeric, LogAction::Push) - count_ops(
                            log.entries@,
                            StackKind::Numeric,
                            LogAction::Pop,
                        ) == nums@.len(),
                        count_ops(log.entries@, StackKind::Symbolic, LogAction::Push) - count_ops(
                            log.entries@,
                            StackKind::Symbolic,
                            LogAction::Pop,
                        ) == ops@.len(),
                        log.entries@.len() + 4 * ops@.len() <= 5 * i + 1,
                    decreases ops@.len(),
                {
                    if ops.len() == 0 {
                        return Err(EvalError::MismatchedParentheses);
                    }
                    let top = ops[ops.len() - 1];
                    if top == '(' {
                        ops.pop();
                        let ghost g = log.entries@;
                        log.record(StackKind::Symbolic, LogAction::Pop, 40);
                        proof {
                            lemma_count_push_all(
                                g,
                                LogEntry {
                                    timestamp: g.len() as u32,
                                    stack: StackKind::Symbolic,
                                    action: LogAction::Pop,
                                    payload: 40,
                                },
                            );
                        }
                        done = true;
                    } else {
                        match reduce_once(&mut nums, &mut ops, log) {
                            Err(e) => {
                                return Err(e);
                            },
                            Ok(()) => {},
                        }
                    }
                }
                i += 1;
            },
            Token::Op(c) => {
                while should_reduce(&ops, c)
                    invariant
                        i < n,
                        n == toks@.len(),
                        n <= 0x1000_0000,
                        toks@[i as int] is Op,
                        toks@[i as int]->Op_0 == c,
                        op_char(c),
                        forall|j: int| 0 <= j < ops@.len() ==> ((#[trigger] ops@[j]) == '('
                            || op_char(ops@[j])),
                        run_eval(toks@) == run_machine(toks@, i as int, nums@, ops@),
                        log.wf(),
                        count_ops(log.entries@, StackKind::Numeric, LogAction::Push) - count_ops(
                            log.entries@,
                            StackKind::Numeric,
                            LogAction::Pop,
                        ) == nums@.len(),
                        count_ops(log.entries@, StackKind::Symbolic, LogAction::Push) - count_ops(
                            log.entries@,
                            StackKind::Symbolic,
                            LogAction::Pop,
                        ) == ops@.len(),
                        log.entries@.len() + 4 * ops@.len() <= 5 * i,
                    decreases ops@.len(),
                {
                    match reduce_once(&mut nums, &mut ops, log) {
                        Err(e) => {
                            return Err(e);
                        },
                        Ok(()) => {},
                    }
                }
                ops.push(c);
                let code = op_code(c);
                let ghost g = log.entries@;
                log.record(StackKind::Symbolic, LogAction::Push, code);
                proof {
                    lemma_count_push_all(
                        g,
                        LogEntry {
                            timestamp: g.len() as u32,
                            stack: StackKind::Symbolic,
                            action: LogAction::Push,
                            payload: code,
                        },
                    );
                }
                i += 1;
            },
        }
    }
    while ops.len() > 0
        invariant
            n == toks@.len(),
            n <= 0x1000_0000,
            forall|j: int| 0 <= j < ops@.len() ==> ((#[trigger] ops@[j]) == '(' || op_char(
                ops@[j],
            )),
            run_eval(toks@) == run_machine(toks@, n as int, nums@, ops@),
            log.wf(),
            count_ops(log.entries@, StackKind::Numeric, LogAction::Push) - count_ops(
                log.entries@,
                StackKind::Numeric,
                LogAction::Pop,
            ) == nums@.len(),
            count_ops(log.entries@, StackKind::Symbolic, LogAction::Push) - count_ops(
                log.entries@,
                StackKind::Symbolic,
                LogAction::Pop,
            ) == ops@.len(),
            log.entries@.len() + 4 * ops@.len() <= 5 * n + 1,
        decreases ops@.len(),
    {
        let top = ops[ops.len() - 1];
        if top == '(' {
            return Err(EvalError::MismatchedParentheses);
        }
        match reduce_once(&mut nums, &mut ops, log) {
            Err(e) => {
                return Err(e);
            },
            Ok(()) => {},
        }
    }
    if nums.len() == 1 {
        let v = nums[0];
        nums.pop();
        let ghost g = log.entries@;
        log.record(StackKind::Numeric, LogAction::Pop, v);
        proof {
            lemma_count_push_all(
                g,
                LogEntry {
                    timestamp: g.len() as u32,
                    stack: StackKind::Numeric,
                    action: LogAction::Pop,
                    payload: v,
                },
            );
        }
        Ok(v)
    } else if nums.len() == 0 {
        Err(EvalError::NoResult)
    } else {
        Err(EvalError::InvalidExpression)
    }
}

#[via_fn]
proof fn spec_tokens_dec(t: Seq<char>, unary: bool) {
    if t.len() > 0 {
        lemma_digits_len_le(t);
        lemma_digits_len_le(t.skip(1));
    }
}

} // verus!
