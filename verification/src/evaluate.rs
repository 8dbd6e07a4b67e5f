//! Exact evaluation for the restricted expression grammar.
//!
//! Exact evaluation only succeeds when every operation has an exact rational
//! value; a function without an exact value at the requested point reports
//! `UnsupportedOperation`, which callers treat as a signal to stay symbolic or
//! to fall back to binary64.
use vstd::prelude::*;
use crate::ast::{lemma_sizes_prefix, lemma_sizes_step, size, sizes};
use crate::differentiate::has_named;
use crate::error::{budget_ok, exhausted, Budget, EngineError, ErrorCode};
use crate::expr::{
    arg_names_view, arg_values_view, lemma_arg_values_view, name_view, BinaryOp, CallArg, Expr,
    ExprV, UnaryOp,
};
use crate::number::{
    abs, big_add, big_div, big_lt, big_mul, big_pow, big_rem, big_sub, is_square, normalize,
    rat_abs, rat_add, rat_div, rat_int, rat_mul, rat_neg, rat_pow, rat_rem, rat_sub, square_root,
    Number, Rat,
};
use crate::text::str_eq;

verus! {

/// Largest exponent magnitude for which a power is computed exactly; larger
/// powers stay symbolic.
pub const MAX_EXACT_EXPONENT: u64 = 4096;

/// Largest exponent searched when recognising an exact integer logarithm.
pub const MAX_LOG_SEARCH: u64 = 64;

pub open spec fn nums_view(s: Seq<Number>) -> Seq<Rat> {
    s.map_values(|n: Number| n@)
}

/// Exact power with an integer exponent.
pub open spec fn pow_result(base: Rat, exponent: Rat) -> Result<Rat, ErrorCode> {
    if exponent.den != 1 || abs(exponent.num) > MAX_EXACT_EXPONENT {
        Err(ErrorCode::UnsupportedOperation)
    } else if base.num == 0 && exponent.num < 0 {
        Err(ErrorCode::DomainViolation)
    } else {
        Ok(rat_pow(base, exponent.num))
    }
}

/// Search `base^k` and `base^-k` for `k` from `k0` up to the search limit.
pub open spec fn log_search(value: Rat, base: Rat, k: nat, power: Rat) -> Result<Rat, ErrorCode>
    decreases MAX_LOG_SEARCH + 1 - k,
{
    if k > MAX_LOG_SEARCH {
        Err(ErrorCode::UnsupportedOperation)
    } else if power == value {
        Ok(rat_int(k as int))
    } else if power.num != 0 && rat_div(rat_int(1), power) == value {
        Ok(rat_int(-k))
    } else {
        log_search(value, base, k + 1, rat_mul(power, base))
    }
}

/// Exact logarithm of `value` in `base`: an integer when one exists within
/// the search limit.
pub open spec fn log_result(value: Rat, base: Rat) -> Result<Rat, ErrorCode> {
    if value.num <= 0 || base.num <= 0 || base == rat_int(1) {
        Err(ErrorCode::DomainViolation)
    } else if value == rat_int(1) {
        Ok(rat_int(0))
    } else {
        log_search(value, base, 0, rat_int(1))
    }
}

/// Exact square root.
pub open spec fn sqrt_result(a: Rat) -> Result<Rat, ErrorCode> {
    if a.num < 0 {
        Err(ErrorCode::DomainViolation)
    } else if is_square(a.num) && is_square(a.den) {
        Ok(normalize(square_root(a.num) as int, square_root(a.den) as int))
    } else {
        Err(ErrorCode::UnsupportedOperation)
    }
}

/// `Ok(r)` when `condition`, otherwise no exact value.
pub open spec fn exact_if(condition: bool, r: int) -> Result<Rat, ErrorCode> {
    if condition {
        Ok(rat_int(r))
    } else {
        Err(ErrorCode::UnsupportedOperation)
    }
}

/// Exact value of a single call on exact arguments.
pub open spec fn exact_call_result(name: Seq<char>, args: Seq<Rat>) -> Result<Rat, ErrorCode> {
    let one_arg = name == "abs"@ || name == "sqrt"@ || name == "sin"@ || name == "cos"@ || name
        == "tan"@ || name == "asin"@ || name == "acos"@ || name == "atan"@ || name == "sinh"@
        || name == "cosh"@ || name == "tanh"@ || name == "exp"@ || name == "ln"@ || name
        == "log10"@ || name == "log2"@;
    let two_args = name == "pow"@ || name == "log"@;
    if !one_arg && !two_args {
        Err(ErrorCode::UnknownFunction)
    } else if one_arg && args.len() != 1 {
        Err(ErrorCode::MalformedInput)
    } else if two_args && args.len() != 2 {
        Err(ErrorCode::MalformedInput)
    } else if name == "abs"@ {
        Ok(rat_abs(args[0]))
    } else if name == "sqrt"@ {
        sqrt_result(args[0])
    } else if name == "pow"@ {
        pow_result(args[0], args[1])
    } else if name == "log"@ {
        log_result(args[0], args[1])
    } else if name == "sin"@ || name == "tan"@ || name == "asin"@ || name == "atan"@ || name
        == "sinh"@ || name == "tanh"@ {
        exact_if(args[0].num == 0, 0)
    } else if name == "cos"@ || name == "cosh"@ || name == "exp"@ {
        exact_if(args[0].num == 0, 1)
    } else {
        // acos, ln, log10, log2
        exact_if(args[0] == rat_int(1), 0)
    }
}

fn no_exact() -> (r: EngineError)
    ensures
        r.code == ErrorCode::UnsupportedOperation,
{
    EngineError::new(ErrorCode::UnsupportedOperation, "no exact rational value at this point")
}

/// Exact power with an integer exponent.
pub fn exact_pow(base: &Number, exponent: &Number) -> (r: Result<Number, EngineError>)
    ensures
        match r {
            Ok(v) => pow_result(base@, exponent@) == Ok::<Rat, ErrorCode>(v@),
            Err(e) => pow_result(base@, exponent@) == Err::<Rat, ErrorCode>(e.code),
        },
{
    if !exponent.is_integer() {
        return Err(no_exact());
    }
    let magnitude = exponent.abs();
    let small = magnitude.to_u64();
    match small {
        Some(k) => {
            if k > MAX_EXACT_EXPONENT {
                return Err(no_exact());
            }
            if base.is_zero() && exponent.is_negative() {
                return Err(EngineError::domain("zero cannot be raised to a negative power"));
            }
            let e: i32 = if exponent.is_negative() {
                -(k as i32)
            } else {
                k as i32
            };
            Ok(big_pow(base, e))
        },
        None => Err(no_exact()),
    }
}

/// Exact integer logarithm of `value` in `base`.
pub fn exact_log(value: &Number, base: &Number) -> (r: Result<Number, EngineError>)
    ensures
        match r {
            Ok(v) => log_result(value@, base@) == Ok::<Rat, ErrorCode>(v@),
            Err(e) => log_result(value@, base@) == Err::<Rat, ErrorCode>(e.code),
        },
{
    if value.is_zero() || value.is_negative() {
        return Err(EngineError::domain("log requires x > 0"));
    }
    if base.is_zero() || base.is_negative() {
        return Err(EngineError::domain("log requires base > 0"));
    }
    if base.is_one() {
        return Err(EngineError::domain("log requires base != 1"));
    }
    if value.is_one() {
        return Ok(Number::zero());
    }
    let one = Number::one();
    let mut power = Number::one();
    let mut k: u64 = 0;
    while k <= MAX_LOG_SEARCH
        invariant
            k <= MAX_LOG_SEARCH + 1,
            one@ == rat_int(1),
            log_result(value@, base@) == log_search(value@, base@, k as nat, power@),
        decreases MAX_LOG_SEARCH + 1 - k,
    {
        if power.equals(value) {
            return Ok(Number::from_u64(k));
        }
        if !power.is_zero() {
            let reciprocal = big_div(&one, &power);
            if reciprocal.equals(value) {
                return Ok(Number::from_i64(-(k as i64)));
            }
        }
        power = big_mul(&power, base);
        k = k + 1;
    }
    Err(no_exact())
}

/// Exact value of a single call on exact arguments.
pub fn exact_call(name: &str, args: &Vec<Number>) -> (r: Result<Number, EngineError>)
    ensures
        match r {
            Ok(v) => exact_call_result(name@, nums_view(args@)) == Ok::<Rat, ErrorCode>(v@),
            Err(e) => exact_call_result(name@, nums_view(args@)) == Err::<Rat, ErrorCode>(e.code),
        },
{
    let ghost a = nums_view(args@);
    let one_arg = str_eq(name, "abs") || str_eq(name, "sqrt") || str_eq(name, "sin") || str_eq(
        name,
        "cos",
    ) || str_eq(name, "tan") || str_eq(name, "asin") || str_eq(name, "acos") || str_eq(
        name,
        "atan",
    ) || str_eq(name, "sinh") || str_eq(name, "cosh") || str_eq(name, "tanh") || str_eq(
        name,
        "exp",
    ) || str_eq(name, "ln") || str_eq(name, "log10") || str_eq(name, "log2");
    let two_args = str_eq(name, "pow") || str_eq(name, "log");
    if !one_arg && !two_args {
        return Err(EngineError::new(ErrorCode::UnknownFunction, "unknown function"));
    }
    if one_arg && args.len() != 1 {
        return Err(EngineError::malformed("function expects one argument"));
    }
    if two_args && args.len() != 2 {
        return Err(EngineError::malformed("function expects two arguments"));
    }
    assert(a[0] == args@[0]@);
    if str_eq(name, "abs") {
        return Ok(args[0].abs());
    }
    if str_eq(name, "sqrt") {
        if args[0].is_negative() {
            return Err(EngineError::domain("square root of a negative number"));
        }
        return match args[0].sqrt_exact() {
            Some(root) => Ok(root),
            None => Err(no_exact()),
        };
    }
    assert(a[1] == args@[1]@ || args.len() == 1);
    if str_eq(name, "pow") {
        return exact_pow(&args[0], &args[1]);
    }
    if str_eq(name, "log") {
        return exact_log(&args[0], &args[1]);
    }
    if str_eq(name, "sin") || str_eq(name, "tan") || str_eq(name, "asin") || str_eq(name, "atan")
        || str_eq(name, "sinh") || str_eq(name, "tanh") {
        if args[0].is_zero() {
            return Ok(Number::zero());
        }
        return Err(no_exact());
    }
    if str_eq(name, "cos") || str_eq(name, "cosh") || str_eq(name, "exp") {
        if args[0].is_zero() {
            return Ok(Number::one());
        }
        return Err(no_exact());
    }
    if args[0].is_one() {
        return Ok(Number::zero());
    }
    Err(no_exact())
}

// ---------------------------------------------------------------------------
// Exact evaluation of an expression
// ---------------------------------------------------------------------------

/// Exact value of a binary arithmetic operation.
pub open spec fn binary_value(op: BinaryOp, a: Rat, b: Rat) -> Result<Rat, ErrorCode> {
    match op {
        BinaryOp::Add => Ok(rat_add(a, b)),
        BinaryOp::Sub => Ok(rat_sub(a, b)),
        BinaryOp::Mul => Ok(rat_mul(a, b)),
        BinaryOp::Div => if b.num == 0 {
            Err(ErrorCode::DomainViolation)
        } else {
            Ok(rat_div(a, b))
        },
        BinaryOp::Rem => if b.num == 0 {
            Err(ErrorCode::DomainViolation)
        } else {
            Ok(rat_rem(a, b))
        },
        BinaryOp::Pow => pow_result(a, b),
        _ => Err(ErrorCode::MalformedInput),
    }
}

/// The exact value of `e` with `v` bound to `at`, or the code of the first
/// obstacle met evaluating left to right. Any other name, `pi` and `e`
/// included, has no exact value here.
pub open spec fn eval_exact(e: ExprV, v: Seq<char>, at: Rat) -> Result<Rat, ErrorCode>
    decreases e,
{
    match e {
        ExprV::Number(q) => Ok(q),
        ExprV::Ident(name) => if name == v {
            Ok(at)
        } else {
            Err(ErrorCode::NotFound)
        },
        ExprV::Unary { op, arg } => if op == UnaryOp::Not {
            Err(ErrorCode::MalformedInput)
        } else {
            match eval_exact(*arg, v, at) {
                Ok(a) => Ok(
                    if op == UnaryOp::Neg {
                        rat_neg(a)
                    } else {
                        a
                    },
                ),
                Err(c) => Err(c),
            }
        },
        ExprV::Binary { op, left, right } => if op == BinaryOp::And || op == BinaryOp::Or {
            Err(ErrorCode::MalformedInput)
        } else {
            match eval_exact(*left, v, at) {
                Err(c) => Err(c),
                Ok(a) => match eval_exact(*right, v, at) {
                    Err(c) => Err(c),
                    Ok(b) => binary_value(op, a, b),
                },
            }
        },
        ExprV::Call { name, arg_names, args } => if has_named(arg_names) {
            Err(ErrorCode::MalformedInput)
        } else {
            match eval_exact_seq(args, v, at) {
                Err(c) => Err(c),
                Ok(values) => exact_call_result(name, values),
            }
        },
        _ => Err(ErrorCode::MalformedInput),
    }
}

/// The values of a list, left to right, or the first obstacle.
pub open spec fn eval_exact_seq(s: Seq<ExprV>, v: Seq<char>, at: Rat) -> Result<
    Seq<Rat>,
    ErrorCode,
>
    decreases s,
{
    if s.len() == 0 {
        Ok(Seq::empty())
    } else {
        match eval_exact_seq(s.drop_last(), v, at) {
            Err(c) => Err(c),
            Ok(values) => match eval_exact(s.last(), v, at) {
                Err(c) => Err(c),
                Ok(x) => Ok(values.push(x)),
            },
        }
    }
}

fn evaluate_binary(op: BinaryOp, a: &Number, b: &Number) -> (r: Result<Number, EngineError>)
    ensures
        match r {
            Ok(x) => binary_value(op, a@, b@) == Ok::<Rat, ErrorCode>(x@),
            Err(e) => binary_value(op, a@, b@) == Err::<Rat, ErrorCode>(e.code),
        },
{
    match op {
        BinaryOp::Add => Ok(big_add(a, b)),
        BinaryOp::Sub => Ok(big_sub(a, b)),
        BinaryOp::Mul => Ok(big_mul(a, b)),
        BinaryOp::Div => {
            if b.is_zero() {
                return Err(EngineError::domain("division by zero"));
            }
            Ok(big_div(a, b))
        },
        BinaryOp::Rem => {
            if b.is_zero() {
                return Err(EngineError::domain("remainder by zero"));
            }
            Ok(big_rem(a, b))
        },
        BinaryOp::Pow => exact_pow(a, b),
        _ => Err(EngineError::malformed("logical operator in a numeric expression")),
    }
}

proof fn lemma_log_search_code(value: Rat, base: Rat, k: nat, power: Rat)
    ensures
        log_search(value, base, k, power) matches Err(c) ==> c == ErrorCode::UnsupportedOperation,
    decreases MAX_LOG_SEARCH + 1 - k,
{
    if k <= MAX_LOG_SEARCH {
        lemma_log_search_code(value, base, k + 1, rat_mul(power, base));
    }
}

/// A call's exact value never fails for want of budget.
proof fn lemma_exact_call_code(name: Seq<char>, args: Seq<Rat>)
    ensures
        exact_call_result(name, args) matches Err(c) ==> c != ErrorCode::ResourceLimit,
{
    if args.len() == 2 {
        lemma_log_search_code(args[0], args[1], 0, rat_int(1));
    }
}

fn has_named_argument(args: &Vec<CallArg>) -> (r: bool)
    ensures
        r == has_named(arg_names_view(args@)),
{
    let mut i: usize = 0;
    while i < args.len()
        invariant
            i <= args.len(),
            forall|j: int| 0 <= j < i ==> (#[trigger] args@[j].name) is None,
        decreases args.len() - i,
    {
        if args[i].name.is_some() {
            assert(arg_names_view(args@)[i as int] is Some);
            return true;
        }
        i = i + 1;
    }
    assert forall|j: int| 0 <= j < arg_names_view(args@).len() implies !(#[trigger] arg_names_view(
        args@,
    )[j] is Some) by {
        assert(arg_names_view(args@)[j] == name_view(args@[j].name));
    }
    false
}

/// Evaluate `expr` exactly with `variable` bound to `at`.
pub fn evaluate_exact(expr: &Expr, variable: &str, at: &Number, budget: &mut Budget) -> (r: Result<
    Number,
    EngineError,
>)
    ensures
        budget_ok(*old(budget), *final(budget), size(expr@) as int, exhausted(r)),
        r matches Ok(x) ==> eval_exact(expr@, variable@, at@) == Ok::<Rat, ErrorCode>(x@),
        r matches Err(e) ==> e.code == ErrorCode::ResourceLimit || eval_exact(
            expr@,
            variable@,
            at@,
        ) == Err::<Rat, ErrorCode>(e.code),
    decreases expr,
{
    budget.tick()?;
    match expr {
        Expr::Number(value) => Ok(value.copy()),
        Expr::Ident(name) => {
            if str_eq(name.as_str(), variable) {
                Ok(at.copy())
            } else {
                Err(EngineError::new(ErrorCode::NotFound, "unknown variable"))
            }
        },
        Expr::Unary { op, expr: inner } => {
            if *op == UnaryOp::Not {
                return Err(EngineError::malformed("logical operator in a numeric expression"));
            }
            let a = evaluate_exact(inner, variable, at, budget)?;
            if *op == UnaryOp::Neg {
                Ok(a.neg())
            } else {
                Ok(a)
            }
        },
        Expr::Binary { op, left, right } => {
            if *op == BinaryOp::And || *op == BinaryOp::Or {
                return Err(EngineError::malformed("logical operator in a numeric expression"));
            }
            let a = evaluate_exact(left, variable, at, budget)?;
            let b = evaluate_exact(right, variable, at, budget)?;
            evaluate_binary(*op, &a, &b)
        },
        Expr::Call { name, args } => {
            if has_named_argument(args) {
                return Err(EngineError::malformed("named arguments are not supported here"));
            }
            let values = evaluate_exact_args(args, variable, at, budget)?;
            proof {
                lemma_exact_call_code(name@, nums_view(values@));
            }
            exact_call(name.as_str(), &values)
        },
        _ => Err(EngineError::malformed("not a numeric expression")),
    }
}

/// Once a prefix of a list fails, the whole list fails the same way.
proof fn lemma_eval_seq_error_extends(s: Seq<ExprV>, k: int, v: Seq<char>, at: Rat)
    requires
        0 <= k <= s.len(),
        eval_exact_seq(s.subrange(0, k), v, at) is Err,
    ensures
        eval_exact_seq(s, v, at) == eval_exact_seq(s.subrange(0, k), v, at),
    decreases s.len() - k,
{
    if k < s.len() {
        assert(s.subrange(0, k + 1).drop_last() =~= s.subrange(0, k));
        lemma_eval_seq_error_extends(s, k + 1, v, at);
    } else {
        assert(s.subrange(0, k) =~= s);
    }
}

fn evaluate_exact_args(xs: &Vec<CallArg>, variable: &str, at: &Number, budget: &mut Budget) -> (r:
    Result<Vec<Number>, EngineError>)
    ensures
        budget_ok(*old(budget), *final(budget), sizes(arg_values_view(xs@)) as int, exhausted(r)),
        r matches Ok(out) ==> eval_exact_seq(arg_values_view(xs@), variable@, at@) == Ok::<
            Seq<Rat>,
            ErrorCode,
        >(nums_view(out@)),
        r matches Err(e) ==> e.code == ErrorCode::ResourceLimit || eval_exact_seq(
            arg_values_view(xs@),
            variable@,
            at@,
        ) == Err::<Seq<Rat>, ErrorCode>(e.code),
    decreases xs,
{
    let ghost views = arg_values_view(xs@);
    proof {
        lemma_arg_values_view(xs@);
    }
    let mut out: Vec<Number> = Vec::new();
    let mut i: usize = 0;
    assert(views.subrange(0, 0) =~= Seq::<ExprV>::empty());
    assert(nums_view(out@) =~= Seq::<Rat>::empty());
    while i < xs.len()
        invariant
            i <= xs.len(),
            views == arg_values_view(xs@),
            views.len() == xs.len(),
            forall|j: int| 0 <= j < xs.len() ==> #[trigger] views[j] == xs@[j].value@,
            eval_exact_seq(views.subrange(0, i as int), variable@, at@) == Ok::<
                Seq<Rat>,
                ErrorCode,
            >(nums_view(out@)),
            budget.limit() == old(budget).limit(),
            old(budget).spent() <= budget.spent(),
            budget.spent() <= old(budget).spent() + sizes(views.subrange(0, i as int)),
        decreases xs.len() - i,
    {
        proof {
            lemma_sizes_step(views, i as int);
            lemma_sizes_prefix(views, i as int + 1);
        }
        let ghost prefix = views.subrange(0, i as int + 1);
        assert(prefix.drop_last() =~= views.subrange(0, i as int));
        assert(prefix.last() == xs@[i as int].value@);
        let value = match evaluate_exact(&xs[i].value, variable, at, budget) {
            Ok(value) => value,
            Err(e) => {
                proof {
                    if e.code != ErrorCode::ResourceLimit {
                        lemma_eval_seq_error_extends(views, i as int + 1, variable@, at@);
                    }
                }
                return Err(e);
            },
        };
        let ghost before = nums_view(out@);
        out.push(value);
        assert(nums_view(out@) =~= before.push(value@));
        i = i + 1;
    }
    assert(views.subrange(0, xs.len() as int) =~= views);
    Ok(out)
}

} // verus!
