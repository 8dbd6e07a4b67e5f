//! Symbolic differentiation over the restricted expression grammar.
//!
//! Supported: `+ - * / ^`, unary sign, and the supported calls. `pi` and `e`
//! are constants unless they are the differentiation variable. The result is
//! an expression; callers simplify and print it.
use vstd::prelude::*;
use vstd::arithmetic::power::pow;
use crate::ast::{
    add_expr, all_well_formed, binary_node, lemma_all_well_formed, lemma_built_well_formed, well_formed, call1, call1_node, contains_var, contains_variable, div_expr,
    int_expr, int_node, is_supported_function, is_supported_name, lemma_size_elem,
    lemma_sizes_pair, mul_expr, negate, negated, one_expr, pow_expr, size, sizes, sub_expr, zero_expr,
    call_node, unnamed,
};
use crate::error::{budget_ok, exhausted, Budget, EngineError, ErrorCode, Limits};
use crate::expr::{arg_names_view, arg_values_view, clone_expr, lemma_arg_values_view, name_view, BinaryOp, CallArg, Expr, ExprV, UnaryOp};
use crate::evaluate::{eval_exact, eval_exact_seq, exact_call_result, pow_result, sqrt_result};
use crate::number::{is_square, rat_add, rat_div, rat_int, rat_mul, rat_neg, rat_pow, rat_sub, reduced, square, square_root, Rat};
use crate::simplify_value::{
    all_literals_reduced, lemma_all_literals_reduced, lemma_built_literals, lemma_built_values, lemma_value_reduced,
    literals_reduced,
};
use crate::text::str_eq;

verus! {

pub open spec fn two_node() -> ExprV {
    int_node(2)
}

/// `sqrt(1 - u^2)`.
pub open spec fn sqrt_one_minus_square(u: ExprV) -> ExprV {
    call1_node(
        "sqrt"@,
        binary_node(BinaryOp::Sub, int_node(1), binary_node(BinaryOp::Pow, u, two_node())),
    )
}

/// `1 + u^2`.
pub open spec fn one_plus_square(u: ExprV) -> ExprV {
    binary_node(BinaryOp::Add, int_node(1), binary_node(BinaryOp::Pow, u, two_node()))
}

/// The chain rule for a one-argument function `name(u)` with `du = u'`.
pub open spec fn unary_rule(name: Seq<char>, u: ExprV, du: ExprV) -> ExprV {
    if name == "sin"@ {
        binary_node(BinaryOp::Mul, du, call1_node("cos"@, u))
    } else if name == "cos"@ {
        negated(binary_node(BinaryOp::Mul, du, call1_node("sin"@, u)))
    } else if name == "tan"@ {
        binary_node(BinaryOp::Div, du, binary_node(BinaryOp::Pow, call1_node("cos"@, u), two_node()))
    } else if name == "asin"@ {
        binary_node(BinaryOp::Div, du, sqrt_one_minus_square(u))
    } else if name == "acos"@ {
        negated(binary_node(BinaryOp::Div, du, sqrt_one_minus_square(u)))
    } else if name == "atan"@ {
        binary_node(BinaryOp::Div, du, one_plus_square(u))
    } else if name == "sinh"@ {
        binary_node(BinaryOp::Mul, du, call1_node("cosh"@, u))
    } else if name == "cosh"@ {
        binary_node(BinaryOp::Mul, du, call1_node("sinh"@, u))
    } else if name == "tanh"@ {
        binary_node(BinaryOp::Div, du, binary_node(BinaryOp::Pow, call1_node("cosh"@, u), two_node()))
    } else if name == "exp"@ {
        binary_node(BinaryOp::Mul, du, call1_node("exp"@, u))
    } else if name == "ln"@ {
        binary_node(BinaryOp::Div, du, u)
    } else if name == "log10"@ {
        binary_node(BinaryOp::Div, du, binary_node(BinaryOp::Mul, u, call1_node("ln"@, int_node(10))))
    } else if name == "log2"@ {
        binary_node(BinaryOp::Div, du, binary_node(BinaryOp::Mul, u, call1_node("ln"@, int_node(2))))
    } else if name == "sqrt"@ {
        binary_node(BinaryOp::Div, du, binary_node(BinaryOp::Mul, int_node(2), call1_node("sqrt"@, u)))
    } else {
        // abs
        binary_node(
            BinaryOp::Mul,
            du,
            binary_node(BinaryOp::Div, u, call1_node("abs"@, u)),
        )
    }
}

/// `d log(value, base) = (value'/value * ln(base) - ln(value) * base'/base) / ln(base)^2`.
pub open spec fn log_rule(value: ExprV, base: ExprV, dv: ExprV, db: ExprV) -> ExprV {
    let ln_value = call1_node("ln"@, value);
    let ln_base = call1_node("ln"@, base);
    binary_node(
        BinaryOp::Div,
        binary_node(
            BinaryOp::Sub,
            binary_node(BinaryOp::Mul, binary_node(BinaryOp::Div, dv, value), ln_base),
            binary_node(BinaryOp::Mul, ln_value, binary_node(BinaryOp::Div, db, base)),
        ),
        binary_node(BinaryOp::Pow, ln_base, two_node()),
    )
}

/// Number of arguments a supported function takes.
pub open spec fn arity(name: Seq<char>) -> nat {
    if name == "log"@ || name == "pow"@ {
        2
    } else {
        1
    }
}

/// Some argument is passed by name.
pub open spec fn has_named(names: Seq<Option<Seq<char>>>) -> bool {
    exists|i: int| 0 <= i < names.len() && (#[trigger] names[i]) is Some
}

pub open spec fn call_tag(e: ExprV) -> nat {
    if e is Call {
        1
    } else {
        0
    }
}

/// The derivative of `e` with respect to `v`, or the code of the first
/// obstacle met in evaluation order.
pub open spec fn deriv(e: ExprV, v: Seq<char>) -> Result<ExprV, ErrorCode>
    decreases size(e), call_tag(e),
{
    match e {
        ExprV::Number(_) => Ok(int_node(0)),
        ExprV::Ident(name) => Ok(
            if name == v {
                int_node(1)
            } else {
                int_node(0)
            },
        ),
        ExprV::Unary { op, arg } => {
            if op == UnaryOp::Not {
                Err(ErrorCode::MalformedInput)
            } else if op == UnaryOp::Neg {
                match deriv(*arg, v) {
                    Ok(d) => Ok(negated(d)),
                    Err(c) => Err(c),
                }
            } else {
                deriv(*arg, v)
            }
        },
        ExprV::Binary { op, left, right } => {
            let l = *left;
            let r = *right;
            if op == BinaryOp::Rem {
                Err(ErrorCode::UnsupportedOperation)
            } else if op == BinaryOp::And || op == BinaryOp::Or {
                Err(ErrorCode::MalformedInput)
            } else if op == BinaryOp::Pow && !contains_var(r, v) {
                match deriv(l, v) {
                    Err(c) => Err(c),
                    Ok(dl) => Ok(
                        binary_node(
                            BinaryOp::Mul,
                            r,
                            binary_node(
                                BinaryOp::Mul,
                                binary_node(
                                    BinaryOp::Pow,
                                    l,
                                    binary_node(BinaryOp::Sub, r, int_node(1)),
                                ),
                                dl,
                            ),
                        ),
                    ),
                }
            } else if op == BinaryOp::Pow && !contains_var(l, v) {
                match deriv(r, v) {
                    Err(c) => Err(c),
                    Ok(dr) => Ok(
                        binary_node(
                            BinaryOp::Mul,
                            binary_node(BinaryOp::Pow, l, r),
                            binary_node(BinaryOp::Mul, call1_node("ln"@, l), dr),
                        ),
                    ),
                }
            } else {
                match deriv(l, v) {
                    Err(c) => Err(c),
                    Ok(dl) => match deriv(r, v) {
                        Err(c) => Err(c),
                        Ok(dr) => Ok(
                            if op == BinaryOp::Add {
                                binary_node(BinaryOp::Add, dl, dr)
                            } else if op == BinaryOp::Sub {
                                binary_node(BinaryOp::Sub, dl, dr)
                            } else if op == BinaryOp::Mul {
                                binary_node(
                                    BinaryOp::Add,
                                    binary_node(BinaryOp::Mul, dl, r),
                                    binary_node(BinaryOp::Mul, l, dr),
                                )
                            } else if op == BinaryOp::Div {
                                binary_node(
                                    BinaryOp::Div,
                                    binary_node(
                                        BinaryOp::Sub,
                                        binary_node(BinaryOp::Mul, dl, r),
                                        binary_node(BinaryOp::Mul, l, dr),
                                    ),
                                    binary_node(BinaryOp::Pow, r, two_node()),
                                )
                            } else {
                                // general power rule
                                binary_node(
                                    BinaryOp::Mul,
                                    binary_node(BinaryOp::Pow, l, r),
                                    binary_node(
                                        BinaryOp::Add,
                                        binary_node(BinaryOp::Mul, dr, call1_node("ln"@, l)),
                                        binary_node(
                                            BinaryOp::Div,
                                            binary_node(BinaryOp::Mul, r, dl),
                                            l,
                                        ),
                                    ),
                                )
                            },
                        ),
                    },
                }
            }
        },
        ExprV::Call { name, arg_names, args } => {
            if has_named(arg_names) {
                Err(ErrorCode::MalformedInput)
            } else if !is_supported_name(name) {
                Err(ErrorCode::UnknownFunction)
            } else if args.len() != arity(name) {
                Err(ErrorCode::MalformedInput)
            } else if name == "pow"@ {
                proof {
                    lemma_sizes_pair(args);
                }
                deriv(binary_node(BinaryOp::Pow, args[0], args[1]), v)
            } else if name == "log"@ {
                proof {
                    lemma_sizes_pair(args);
                }
                match deriv(args[0], v) {
                    Err(c) => Err(c),
                    Ok(dv) => match deriv(args[1], v) {
                        Err(c) => Err(c),
                        Ok(db) => Ok(log_rule(args[0], args[1], dv, db)),
                    },
                }
            } else {
                proof {
                    lemma_size_elem(args, 0);
                }
                match deriv(args[0], v) {
                    Err(c) => Err(c),
                    Ok(du) => Ok(unary_rule(name, args[0], du)),
                }
            }
        },
        _ => Err(ErrorCode::MalformedInput),
    }
}

/// An upper bound on the operations one differentiation walk counts.
pub open spec fn dcost(e: ExprV) -> nat
    decreases e,
{
    match e {
        ExprV::Unary { arg, .. } => 3 + size(*arg) + dcost(*arg),
        ExprV::Binary { left, right, .. } => 3 + size(*left) + dcost(*left) + size(*right) + dcost(
            *right,
        ),
        ExprV::Call { args, .. } => 4 + dcosts(args),
        ExprV::Array(items) => 3 + dcosts(items),
        ExprV::Compare { operands, .. } => 3 + dcosts(operands),
        ExprV::Record { values, .. } => 3 + dcosts(values),
        _ => 3,
    }
}

pub open spec fn dcosts(s: Seq<ExprV>) -> nat
    decreases s,
{
    if s.len() == 0 {
        0
    } else {
        dcosts(s.drop_last()) + size(s.last()) + dcost(s.last())
    }
}

proof fn lemma_dcosts_elem(s: Seq<ExprV>, i: int)
    requires
        0 <= i < s.len(),
    ensures
        size(s[i]) + dcost(s[i]) <= dcosts(s),
    decreases s.len(),
{
    if i < s.len() - 1 {
        lemma_dcosts_elem(s.drop_last(), i);
        assert(s.drop_last()[i] == s[i]);
    }
}

proof fn lemma_dcosts_pair(s: Seq<ExprV>)
    requires
        s.len() == 2,
    ensures
        dcosts(s) == size(s[0]) + dcost(s[0]) + size(s[1]) + dcost(s[1]),
{
    let d = s.drop_last();
    assert(d.drop_last().len() == 0);
    assert(dcosts(d.drop_last()) == 0);
    assert(d.last() == s[0]);
    assert(s.last() == s[1]);
    assert(dcosts(d) == size(s[0]) + dcost(s[0]));
}

/// Differentiate `expr` with respect to `variable`.
pub fn differentiate(expr: &Expr, variable: &str, limits: &Limits) -> (r: Result<Expr, EngineError>)
    ensures
        r matches Ok(d) ==> deriv(expr@, variable@) == Ok::<ExprV, ErrorCode>(d@),
        r matches Err(e) ==> e.code == ErrorCode::ResourceLimit || deriv(expr@, variable@)
            == Err::<ExprV, ErrorCode>(e.code),
        dcost(expr@) <= limits.max_operations ==> !exhausted(r),
{
    let mut budget = Budget::new(limits.max_operations);
    differentiate_inner(expr, variable, &mut budget)
}

pub fn differentiate_inner(expr: &Expr, variable: &str, budget: &mut Budget) -> (r: Result<
    Expr,
    EngineError,
>)
    ensures
        budget_ok(*old(budget), *final(budget), dcost(expr@) as int, exhausted(r)),
        r matches Ok(d) ==> deriv(expr@, variable@) == Ok::<ExprV, ErrorCode>(d@),
        r matches Err(e) ==> e.code == ErrorCode::ResourceLimit || deriv(expr@, variable@)
            == Err::<ExprV, ErrorCode>(e.code),
    decreases size(expr@), 2 + 2 * call_tag(expr@),
{
    budget.tick()?;
    match expr {
        Expr::Number(_) => Ok(zero_expr()),
        Expr::Ident(name) => {
            if str_eq(name.as_str(), variable) {
                Ok(one_expr())
            } else {
                Ok(zero_expr())
            }
        },
        Expr::Unary { op, expr: inner } => {
            match op {
                UnaryOp::Neg => {
                    let d = differentiate_inner(inner, variable, budget)?;
                    Ok(negate(d))
                },
                UnaryOp::Pos => differentiate_inner(inner, variable, budget),
                UnaryOp::Not => Err(EngineError::malformed("logical negation is not differentiable")),
            }
        },
        Expr::Binary { op, left, right } => differentiate_binary(*op, left, right, variable, budget),
        Expr::Call { name, args } => {
            let ghost views = arg_values_view(args@);
            proof {
                lemma_arg_values_view(args@);
            }
            if has_named_argument(args) {
                proof {
                    let names = arg_names_view(args@);
                    let i = choose|i: int| 0 <= i < args@.len() && (#[trigger] names[i]) is Some;
                    assert(names.len() == args@.len());
                    assert(0 <= i < names.len() && names[i] is Some);
                    assert(expr@ == ExprV::Call { name: name@, arg_names: names, args: views });
                }
                return Err(
                    EngineError::malformed(
                        "named arguments are not supported in symbolic differentiation",
                    ),
                );
            }
            if !is_supported_function(name.as_str()) {
                return Err(EngineError::new(ErrorCode::UnknownFunction, "unknown function"));
            }
            let two_args = str_eq(name.as_str(), "log") || str_eq(name.as_str(), "pow");
            let expected: usize = if two_args {
                2
            } else {
                1
            };
            if args.len() != expected {
                return Err(EngineError::malformed("wrong number of arguments"));
            }
            if str_eq(name.as_str(), "pow") {
                proof {
                    lemma_sizes_pair(views);
                    lemma_dcosts_pair(views);
                }
                let expression = pow_expr(clone_expr(&args[0].value), clone_expr(&args[1].value));
                return differentiate_inner(&expression, variable, budget);
            }
            if str_eq(name.as_str(), "log") {
                proof {
                    lemma_sizes_pair(views);
                    lemma_dcosts_pair(views);
                }
                let d_value = differentiate_inner(&args[0].value, variable, budget)?;
                let d_base = differentiate_inner(&args[1].value, variable, budget)?;
                let value = &args[0].value;
                let base = &args[1].value;
                let ln_value = call1("ln", clone_expr(value));
                let numerator = sub_expr(
                    mul_expr(div_expr(d_value, clone_expr(value)), call1("ln", clone_expr(base))),
                    mul_expr(ln_value, div_expr(d_base, clone_expr(base))),
                );
                return Ok(div_expr(numerator, pow_expr(call1("ln", clone_expr(base)), int_expr(2))));
            }
            proof {
                lemma_size_elem(views, 0);
                lemma_dcosts_elem(views, 0);
            }
            let d_u = differentiate_inner(&args[0].value, variable, budget)?;
            let u = clone_expr(&args[0].value);
            let n = name.as_str();
            if str_eq(n, "sin") {
                Ok(mul_expr(d_u, call1("cos", u)))
            } else if str_eq(n, "cos") {
                Ok(negate(mul_expr(d_u, call1("sin", u))))
            } else if str_eq(n, "tan") {
                Ok(div_expr(d_u, pow_expr(call1("cos", u), int_expr(2))))
            } else if str_eq(n, "asin") {
                Ok(div_expr(d_u, sqrt_one_minus_square_expr(u)))
            } else if str_eq(n, "acos") {
                Ok(negate(div_expr(d_u, sqrt_one_minus_square_expr(u))))
            } else if str_eq(n, "atan") {
                Ok(div_expr(d_u, one_plus_square_expr(u)))
            } else if str_eq(n, "sinh") {
                Ok(mul_expr(d_u, call1("cosh", u)))
            } else if str_eq(n, "cosh") {
                Ok(mul_expr(d_u, call1("sinh", u)))
            } else if str_eq(n, "tanh") {
                Ok(div_expr(d_u, pow_expr(call1("cosh", u), int_expr(2))))
            } else if str_eq(n, "exp") {
                Ok(mul_expr(d_u, call1("exp", u)))
            } else if str_eq(n, "ln") {
                Ok(div_expr(d_u, u))
            } else if str_eq(n, "log10") {
                Ok(div_expr(d_u, mul_expr(u, call1("ln", int_expr(10)))))
            } else if str_eq(n, "log2") {
                Ok(div_expr(d_u, mul_expr(u, call1("ln", int_expr(2)))))
            } else if str_eq(n, "sqrt") {
                Ok(div_expr(d_u, mul_expr(int_expr(2), call1("sqrt", u))))
            } else {
                let u2 = clone_expr(&u);
                Ok(mul_expr(d_u, div_expr(u, call1("abs", u2))))
            }
        },
        Expr::Compare { .. } => Err(EngineError::malformed("comparisons are not differentiable")),
        _ => Err(EngineError::malformed("symbolic functions require a numeric expression")),
    }
}

fn differentiate_binary(
    op: BinaryOp,
    left: &Expr,
    right: &Expr,
    variable: &str,
    budget: &mut Budget,
) -> (r: Result<Expr, EngineError>)
    ensures
        budget_ok(
            *old(budget),
            *final(budget),
            (2 + size(left@) + dcost(left@) + size(right@) + dcost(right@)) as int,
            exhausted(r),
        ),
        r matches Ok(d) ==> deriv(binary_node(op, left@, right@), variable@) == Ok::<
            ExprV,
            ErrorCode,
        >(d@),
        r matches Err(e) ==> e.code == ErrorCode::ResourceLimit || deriv(
            binary_node(op, left@, right@),
            variable@,
        ) == Err::<ExprV, ErrorCode>(e.code),
    decreases size(left@) + size(right@) + 1, 1nat,
{
    match op {
        BinaryOp::Rem => Err(
            EngineError::new(
                ErrorCode::UnsupportedOperation,
                "the remainder operator is not differentiable",
            ),
        ),
        BinaryOp::And | BinaryOp::Or => Err(
            EngineError::malformed("logical operators are not differentiable"),
        ),
        BinaryOp::Pow => differentiate_power(left, right, variable, budget),
        _ => {
            let d_left = differentiate_inner(left, variable, budget)?;
            let d_right = differentiate_inner(right, variable, budget)?;
            match op {
                BinaryOp::Add => Ok(add_expr(d_left, d_right)),
                BinaryOp::Sub => Ok(sub_expr(d_left, d_right)),
                BinaryOp::Mul => Ok(add_expr(mul_expr(d_left, clone_expr(right)), mul_expr(clone_expr(left), d_right))),
                _ => {
                    let numerator = sub_expr(mul_expr(d_left, clone_expr(right)), mul_expr(clone_expr(left), d_right));
                    Ok(div_expr(numerator, pow_expr(clone_expr(right), int_expr(2))))
                },
            }
        },
    }
}

fn differentiate_power(left: &Expr, right: &Expr, variable: &str, budget: &mut Budget) -> (r:
    Result<Expr, EngineError>)
    ensures
        budget_ok(
            *old(budget),
            *final(budget),
            (2 + size(left@) + dcost(left@) + size(right@) + dcost(right@)) as int,
            exhausted(r),
        ),
        r matches Ok(d) ==> deriv(binary_node(BinaryOp::Pow, left@, right@), variable@) == Ok::<
            ExprV,
            ErrorCode,
        >(d@),
        r matches Err(e) ==> e.code == ErrorCode::ResourceLimit || deriv(
            binary_node(BinaryOp::Pow, left@, right@),
            variable@,
        ) == Err::<ExprV, ErrorCode>(e.code),
    decreases size(left@) + size(right@) + 1, 0nat,
{
    if !contains_variable(right, variable, budget)? {
        // Power rule: d(u^v) = v * u^(v-1) * u'.
        let d_left = differentiate_inner(left, variable, budget)?;
        let inner = mul_expr(pow_expr(clone_expr(left), sub_expr(clone_expr(right), one_expr())), d_left);
        Ok(mul_expr(clone_expr(right), inner))
    } else if !contains_variable(left, variable, budget)? {
        // Exponential rule: d(u^v) = u^v * ln(u) * v'.
        let d_right = differentiate_inner(right, variable, budget)?;
        let inner = mul_expr(call1("ln", clone_expr(left)), d_right);
        Ok(mul_expr(pow_expr(clone_expr(left), clone_expr(right)), inner))
    } else {
        // General rule: d(u^v) = u^v * (v' * ln(u) + v * u' / u).
        let d_left = differentiate_inner(left, variable, budget)?;
        let d_right = differentiate_inner(right, variable, budget)?;
        let term = add_expr(
            mul_expr(d_right, call1("ln", clone_expr(left))),
            div_expr(mul_expr(clone_expr(right), d_left), clone_expr(left)),
        );
        Ok(mul_expr(pow_expr(clone_expr(left), clone_expr(right)), term))
    }
}

fn sqrt_one_minus_square_expr(u: Expr) -> (r: Expr)
    ensures
        r@ == sqrt_one_minus_square(u@),
{
    call1("sqrt", sub_expr(one_expr(), pow_expr(u, int_expr(2))))
}

fn one_plus_square_expr(u: Expr) -> (r: Expr)
    ensures
        r@ == one_plus_square(u@),
{
    add_expr(one_expr(), pow_expr(u, int_expr(2)))
}

fn has_named_argument(args: &Vec<CallArg>) -> (r: bool)
    ensures
        r == exists|i: int|
            0 <= i < args@.len() && (#[trigger] arg_names_view(args@)[i]) is Some,
{
    let ghost names = arg_names_view(args@);
    let mut i: usize = 0;
    while i < args.len()
        invariant
            i <= args.len(),
            names == arg_names_view(args@),
            forall|j: int| 0 <= j < i ==> (#[trigger] names[j]) is None,
        decreases args.len() - i,
    {
        if args[i].name.is_some() {
            assert(names[i as int] is Some);
            return true;
        }
        i = i + 1;
    }
    false
}

/// Differentiation keeps trees well formed.
pub proof fn lemma_deriv_well_formed(e: ExprV, v: Seq<char>)
    requires
        well_formed(e),
    ensures
        deriv(e, v) matches Ok(d) ==> well_formed(d),
    decreases size(e), call_tag(e),
{
    lemma_built_well_formed();
    match e {
        ExprV::Unary { arg, .. } => {
            lemma_deriv_well_formed(*arg, v);
        },
        ExprV::Binary { left, right, .. } => {
            lemma_deriv_well_formed(*left, v);
            lemma_deriv_well_formed(*right, v);
        },
        ExprV::Call { name, arg_names, args } => {
            lemma_all_well_formed(args);
            if !has_named(arg_names) && is_supported_name(name) && args.len() == arity(name) {
                if name == "pow"@ {
                    lemma_sizes_pair(args);
                    lemma_deriv_well_formed(binary_node(BinaryOp::Pow, args[0], args[1]), v);
                } else if name == "log"@ {
                    lemma_sizes_pair(args);
                    lemma_deriv_well_formed(args[0], v);
                    lemma_deriv_well_formed(args[1], v);
                } else {
                    lemma_size_elem(args, 0);
                    lemma_deriv_well_formed(args[0], v);
                }
            }
        },
        _ => {},
    }
}

/// `pow(u, w)` and `u ^ w` have the same derivative, or fail with the same
/// error.
pub proof fn lemma_pow_call_derivative(u: ExprV, w: ExprV, v: Seq<char>)
    ensures
        deriv(call_node("pow"@, seq![u, w]), v) == deriv(binary_node(BinaryOp::Pow, u, w), v),
{
    let names = unnamed(2);
    assert(!has_named(names)) by {
        if has_named(names) {
            let i = choose|i: int| 0 <= i < names.len() && (#[trigger] names[i]) is Some;
            assert(names[i] is None);
        }
    }
    assert(seq![u, w][0] == u && seq![u, w][1] == w);
}


// ---------------------------------------------------------------------------
// Literals of derivatives, and the second derivative of cosh
// ---------------------------------------------------------------------------

proof fn lemma_call1_literals()
    ensures
        forall|n: Seq<char>, u: ExprV|
            #[trigger] literals_reduced(call1_node(n, u)) == literals_reduced(u),
{
    assert forall|n: Seq<char>, u: ExprV|
        #[trigger] literals_reduced(call1_node(n, u)) == literals_reduced(u) by {
        let s = seq![u];
        assert(s.drop_last() =~= Seq::<ExprV>::empty());
        assert(s.last() == u);
        assert(all_literals_reduced(s.drop_last()));
        assert(all_literals_reduced(s) == literals_reduced(u));
    }
}

/// Differentiation keeps literals in lowest terms.
pub proof fn lemma_deriv_literals(e: ExprV, v: Seq<char>)
    requires
        literals_reduced(e),
    ensures
        deriv(e, v) matches Ok(d) ==> literals_reduced(d),
    decreases size(e), call_tag(e),
{
    lemma_built_literals();
    lemma_call1_literals();
    match e {
        ExprV::Unary { arg, .. } => {
            lemma_deriv_literals(*arg, v);
        },
        ExprV::Binary { left, right, .. } => {
            lemma_deriv_literals(*left, v);
            lemma_deriv_literals(*right, v);
        },
        ExprV::Call { name, arg_names, args } => {
            lemma_all_literals_reduced(args);
            if !has_named(arg_names) && is_supported_name(name) && args.len() == arity(name) {
                if name == "pow"@ {
                    lemma_sizes_pair(args);
                    lemma_deriv_literals(binary_node(BinaryOp::Pow, args[0], args[1]), v);
                } else if name == "log"@ {
                    lemma_sizes_pair(args);
                    lemma_deriv_literals(args[0], v);
                    lemma_deriv_literals(args[1], v);
                } else {
                    lemma_size_elem(args, 0);
                    lemma_deriv_literals(args[0], v);
                }
            }
        },
        _ => {},
    }
}

/// The derivative of `cosh` is `sinh` with its sign, and that of `sinh` is
/// `cosh`: where `u` is zero, `cosh(u)''` is `u'^2` (as
/// `cosh(u)'' = u'' sinh(u) + u'^2 cosh(u)`), whenever it has an exact value.
pub proof fn lemma_cosh_second_derivative(u: ExprV, v: Seq<char>, at: Rat)
    requires
        literals_reduced(u),
        reduced(at),
        eval_exact(u, v, at) matches Ok(z) && z.num == 0,
        deriv(call1_node("cosh"@, u), v) matches Ok(d1) && deriv(d1, v) matches Ok(d2)
            && eval_exact(d2, v, at) is Ok,
    ensures
        deriv(u, v) matches Ok(du) && eval_exact(du, v, at) matches Ok(w) && deriv(
            deriv(call1_node("cosh"@, u), v)->Ok_0,
            v,
        ) matches Ok(d2) && eval_exact(d2, v, at) == Ok::<Rat, ErrorCode>(rat_mul(w, w)),
{
    lemma_name_letters();
    lemma_built_values(v, at);
    lemma_call1_deriv("cosh"@, u, v);
    lemma_call1_deriv("sinh"@, u, v);
    lemma_call1_eval("cosh"@, u, v, at);
    lemma_call1_eval("sinh"@, u, v, at);
    let du = deriv(u, v)->Ok_0;
    assert(deriv(u, v) is Ok);
    let sh = call1_node("sinh"@, u);
    let ch = call1_node("cosh"@, u);
    let d1 = binary_node(BinaryOp::Mul, du, sh);
    assert(deriv(call1_node("cosh"@, u), v) == Ok::<ExprV, ErrorCode>(d1));
    assert(deriv(sh, v) == Ok::<ExprV, ErrorCode>(binary_node(BinaryOp::Mul, du, ch)));
    assert(deriv(du, v) is Ok);
    let ddu = deriv(du, v)->Ok_0;
    let d2 = binary_node(
        BinaryOp::Add,
        binary_node(BinaryOp::Mul, ddu, sh),
        binary_node(BinaryOp::Mul, du, binary_node(BinaryOp::Mul, du, ch)),
    );
    assert(deriv(d1, v) == Ok::<ExprV, ErrorCode>(d2));
    let z = eval_exact(u, v, at)->Ok_0;
    assert(seq![z][0] == z);
    assert(eval_exact(sh, v, at) == Ok::<Rat, ErrorCode>(rat_int(0)));
    assert(eval_exact(ch, v, at) == Ok::<Rat, ErrorCode>(rat_int(1)));
    assert(eval_exact(binary_node(BinaryOp::Mul, ddu, sh), v, at) is Ok);
    assert(eval_exact(binary_node(BinaryOp::Mul, du, binary_node(BinaryOp::Mul, du, ch)), v, at) is Ok);
    assert(eval_exact(du, v, at) is Ok);
    assert(eval_exact(ddu, v, at) is Ok);
    let w = eval_exact(du, v, at)->Ok_0;
    let ww = eval_exact(ddu, v, at)->Ok_0;
    lemma_deriv_literals(u, v);
    lemma_value_reduced(du, v, at);
    crate::rational::lemma_mul_zero(ww);
    crate::rational::lemma_mul_one(w);
    crate::rational::lemma_ops_reduced(w, w);
    crate::rational::lemma_add_zero(rat_mul(w, w));
    assert(eval_exact(binary_node(BinaryOp::Mul, du, ch), v, at) == Ok::<Rat, ErrorCode>(w));
    assert(eval_exact(binary_node(BinaryOp::Mul, ddu, sh), v, at) == Ok::<Rat, ErrorCode>(
        rat_int(0),
    ));
    assert(eval_exact(d2, v, at) == Ok::<Rat, ErrorCode>(rat_mul(w, w)));
}


/// Length and first letters of the supported names, enough to tell any two
/// apart.
proof fn lemma_name_letters()
    ensures
        "sin"@.len() == 3 && "sin"@[0] == 's' && "sin"@[1] == 'i',
        "cos"@.len() == 3 && "cos"@[0] == 'c' && "cos"@[1] == 'o',
        "tan"@.len() == 3 && "tan"@[0] == 't' && "tan"@[1] == 'a',
        "asin"@.len() == 4 && "asin"@[0] == 'a' && "asin"@[1] == 's',
        "acos"@.len() == 4 && "acos"@[0] == 'a' && "acos"@[1] == 'c',
        "atan"@.len() == 4 && "atan"@[0] == 'a' && "atan"@[1] == 't',
        "sinh"@.len() == 4 && "sinh"@[0] == 's' && "sinh"@[1] == 'i',
        "cosh"@.len() == 4 && "cosh"@[0] == 'c' && "cosh"@[1] == 'o',
        "tanh"@.len() == 4 && "tanh"@[0] == 't' && "tanh"@[1] == 'a',
        "exp"@.len() == 3 && "exp"@[0] == 'e' && "exp"@[1] == 'x',
        "ln"@.len() == 2 && "ln"@[0] == 'l' && "ln"@[1] == 'n',
        "log"@.len() == 3 && "log"@[0] == 'l' && "log"@[1] == 'o',
        "log10"@.len() == 5 && "log10"@[0] == 'l' && "log10"@[1] == 'o',
        "log2"@.len() == 4 && "log2"@[0] == 'l' && "log2"@[1] == 'o',
        "sqrt"@.len() == 4 && "sqrt"@[0] == 's' && "sqrt"@[1] == 'q',
        "abs"@.len() == 3 && "abs"@[0] == 'a' && "abs"@[1] == 'b',
        "pow"@.len() == 3 && "pow"@[0] == 'p' && "pow"@[1] == 'o',
{
    reveal_strlit("sin");
    reveal_strlit("cos");
    reveal_strlit("tan");
    reveal_strlit("asin");
    reveal_strlit("acos");
    reveal_strlit("atan");
    reveal_strlit("sinh");
    reveal_strlit("cosh");
    reveal_strlit("tanh");
    reveal_strlit("exp");
    reveal_strlit("ln");
    reveal_strlit("log");
    reveal_strlit("log10");
    reveal_strlit("log2");
    reveal_strlit("sqrt");
    reveal_strlit("abs");
    reveal_strlit("pow");
}

/// The derivative of a one-argument call is its chain rule.
proof fn lemma_call1_deriv(name: Seq<char>, u: ExprV, v: Seq<char>)
    requires
        is_supported_name(name),
        name != "pow"@,
        name != "log"@,
    ensures
        deriv(call1_node(name, u), v) == (match deriv(u, v) {
            Ok(du) => Ok(unary_rule(name, u, du)),
            Err(c) => Err(c),
        }),
{
    let names = unnamed(1);
    assert(!has_named(names)) by {
        if has_named(names) {
            let i = choose|i: int| 0 <= i < names.len() && (#[trigger] names[i]) is Some;
            assert(names[i] is None);
        }
    }
    assert(seq![u][0] == u);
    assert(arity(name) == 1);
    assert(size(u) < size(call1_node(name, u))) by {
        lemma_size_elem(seq![u], 0);
    }
}

/// The exact value of a one-argument call is that of the function on the
/// argument's value.
proof fn lemma_call1_eval(name: Seq<char>, u: ExprV, v: Seq<char>, at: Rat)
    ensures
        eval_exact(call1_node(name, u), v, at) == (match eval_exact(u, v, at) {
            Ok(z) => exact_call_result(name, seq![z]),
            Err(c) => Err(c),
        }),
{
    let names = unnamed(1);
    assert(!has_named(names)) by {
        if has_named(names) {
            let i = choose|i: int| 0 <= i < names.len() && (#[trigger] names[i]) is Some;
            assert(names[i] is None);
        }
    }
    assert(seq![u].drop_last() =~= Seq::<ExprV>::empty());
    assert(seq![u].last() == u);
    assert(eval_exact_seq(seq![u].drop_last(), v, at) == Ok::<Seq<Rat>, ErrorCode>(Seq::empty()));
    let c = call1_node(name, u);
    assert(c == ExprV::Call { name, arg_names: names, args: seq![u] });
    match eval_exact(u, v, at) {
        Ok(z) => {
            assert(Seq::<Rat>::empty().push(z) =~= seq![z]);
            assert(eval_exact_seq(seq![u], v, at) == Ok::<Seq<Rat>, ErrorCode>(seq![z]));
        },
        Err(e) => {
            assert(eval_exact_seq(seq![u], v, at) == Err::<Seq<Rat>, ErrorCode>(e));
        },
    }
}

/// The slope at zero of the one-argument functions that have an exact value
/// there: `cos` and `cosh` are flat, `acos` falls, the others rise with slope
/// one.
pub open spec fn slope_at_zero(name: Seq<char>) -> int {
    if name == "cos"@ || name == "cosh"@ {
        0
    } else if name == "acos"@ {
        -1
    } else {
        1
    }
}

/// The functions `f` for which `f(0)`, `f'(0)` and the expression of `f'`
/// have exact values at zero.
pub open spec fn smooth_at_zero(name: Seq<char>) -> bool {
    ||| name == "sin"@
    ||| name == "cos"@
    ||| name == "tan"@
    ||| name == "asin"@
    ||| name == "acos"@
    ||| name == "atan"@
    ||| name == "sinh"@
    ||| name == "cosh"@
    ||| name == "tanh"@
    ||| name == "exp"@
}

/// Chain rule at zero: where `u` is zero and `u'` has an exact value, the
/// derivative of `f(u)` has one too, and it is `f'(0) * u'`.
pub proof fn lemma_derivative_at_zero(name: Seq<char>, u: ExprV, v: Seq<char>, at: Rat)
    requires
        smooth_at_zero(name),
        literals_reduced(u),
        reduced(at),
        eval_exact(u, v, at) matches Ok(z) && z.num == 0,
        deriv(u, v) matches Ok(du) && eval_exact(du, v, at) is Ok,
    ensures
        deriv(call1_node(name, u), v) matches Ok(d) && eval_exact(d, v, at) == Ok::<Rat, ErrorCode>(
            rat_mul(rat_int(slope_at_zero(name)), eval_exact(deriv(u, v)->Ok_0, v, at)->Ok_0),
        ),
{
    lemma_name_letters();
    lemma_built_values(v, at);
    let du = deriv(u, v)->Ok_0;
    let w = eval_exact(du, v, at)->Ok_0;
    let z = eval_exact(u, v, at)->Ok_0;
    lemma_deriv_literals(u, v);
    lemma_value_reduced(du, v, at);
    lemma_value_reduced(u, v, at);
    assert(z == rat_int(0)) by {
        crate::rational::lemma_int_reduced(0);
        crate::number::lemma_reduced_unique(z, rat_int(0));
    }
    lemma_call1_deriv(name, u, v);
    let d = unary_rule(name, u, du);
    assert(deriv(call1_node(name, u), v) == Ok::<ExprV, ErrorCode>(d));
    assert(seq![z][0] == z);
    crate::rational::lemma_mul_one(w);
    crate::rational::lemma_mul_zero(w);
    crate::rational::lemma_div_one(w);
    let one = rat_int(1);
    if name == "sin"@ {
        lemma_call1_eval("cos"@, u, v, at);
        assert(eval_exact(d, v, at) == Ok::<Rat, ErrorCode>(rat_mul(w, one)));
    } else if name == "cos"@ {
        lemma_call1_eval("sin"@, u, v, at);
        assert(eval_exact(d, v, at) == Ok::<Rat, ErrorCode>(rat_neg(rat_int(0))));
    } else if name == "sinh"@ {
        lemma_call1_eval("cosh"@, u, v, at);
        assert(eval_exact(d, v, at) == Ok::<Rat, ErrorCode>(rat_mul(w, one)));
    } else if name == "cosh"@ {
        lemma_call1_eval("sinh"@, u, v, at);
        assert(eval_exact(d, v, at) == Ok::<Rat, ErrorCode>(rat_mul(w, rat_int(0))));
    } else if name == "exp"@ {
        lemma_call1_eval("exp"@, u, v, at);
        assert(eval_exact(d, v, at) == Ok::<Rat, ErrorCode>(rat_mul(w, one)));
    } else {
        // the quotient rules: the denominator is one at zero
        vstd::arithmetic::power::lemma0_pow(2);
        vstd::arithmetic::power::lemma1_pow(2);
        crate::rational::lemma_int_reduced(1);
        crate::rational::lemma_normalize_reduced(one);
        crate::rational::lemma_add_zero(one);
        assert(rat_pow(one, 2) == one);
        assert(rat_pow(z, 2) == rat_int(0));
        assert(eval_exact(int_node(1), v, at) == Ok::<Rat, ErrorCode>(one));
        assert(eval_exact(two_node(), v, at) == Ok::<Rat, ErrorCode>(rat_int(2)));
        assert(pow_result(z, rat_int(2)) == Ok::<Rat, ErrorCode>(rat_int(0)));
        let square_u = binary_node(BinaryOp::Pow, u, two_node());
        assert(eval_exact(square_u, v, at) == Ok::<Rat, ErrorCode>(rat_int(0)));
        if name == "tan"@ || name == "tanh"@ {
            let f = if name == "tan"@ {
                "cos"@
            } else {
                "cosh"@
            };
            lemma_call1_eval(f, u, v, at);
            let den = binary_node(BinaryOp::Pow, call1_node(f, u), two_node());
            assert(eval_exact(call1_node(f, u), v, at) == Ok::<Rat, ErrorCode>(one));
            assert(pow_result(one, rat_int(2)) == Ok::<Rat, ErrorCode>(one));
            assert(eval_exact(den, v, at) == Ok::<Rat, ErrorCode>(one));
            assert(eval_exact(d, v, at) == Ok::<Rat, ErrorCode>(rat_div(w, one)));
        } else if name == "atan"@ {
            assert(eval_exact(one_plus_square(u), v, at) == Ok::<Rat, ErrorCode>(one));
            assert(eval_exact(d, v, at) == Ok::<Rat, ErrorCode>(rat_div(w, one)));
        } else {
            let inner = binary_node(
                BinaryOp::Sub,
                int_node(1),
                binary_node(BinaryOp::Pow, u, two_node()),
            );
            assert(rat_sub(one, rat_int(0)) == one);
            assert(eval_exact(inner, v, at) == Ok::<Rat, ErrorCode>(one));
            lemma_call1_eval("sqrt"@, inner, v, at);
            assert(square(1) == 1);
            assert(is_square(1));
            assert(square_root(1) == 1) by {
                let r = square_root(1);
                assert(r * r == 1);
                assert(r == 1) by (nonlinear_arith)
                    requires
                        r * r == 1,
                ;
            }
            assert(sqrt_result(one) == Ok::<Rat, ErrorCode>(one));
            assert(seq![one][0] == one);
            assert(eval_exact(sqrt_one_minus_square(u), v, at) == Ok::<Rat, ErrorCode>(one));
            let q = binary_node(BinaryOp::Div, du, sqrt_one_minus_square(u));
            assert(eval_exact(q, v, at) == Ok::<Rat, ErrorCode>(rat_div(w, one)));
            if name == "acos"@ {
                crate::rational::lemma_mul_neg(one, w);
                assert(eval_exact(d, v, at) == Ok::<Rat, ErrorCode>(rat_neg(w)));
            }
        }
    }
}

/// The second derivative at zero of the functions whose derivatives are
/// again among them: `sin'' = -sin`, `cos'' = -cos`, `sinh'' = sinh`,
/// `cosh'' = cosh`, `exp'' = exp`, taken at zero.
pub open spec fn curvature_at_zero(name: Seq<char>) -> int {
    if name == "cos"@ {
        -1
    } else if name == "cosh"@ || name == "exp"@ {
        1
    } else {
        0
    }
}

pub open spec fn twice_smooth_at_zero(name: Seq<char>) -> bool {
    ||| name == "sin"@
    ||| name == "cos"@
    ||| name == "sinh"@
    ||| name == "cosh"@
    ||| name == "exp"@
}

/// Second-order chain rule at zero: where `u` is zero and `u'`, `u''` have
/// exact values, `f(u)'' = f'(0) * u'' + f''(0) * u'^2`.
pub proof fn lemma_second_derivative_at_zero(name: Seq<char>, u: ExprV, v: Seq<char>, at: Rat)
    requires
        twice_smooth_at_zero(name),
        literals_reduced(u),
        reduced(at),
        eval_exact(u, v, at) matches Ok(z) && z.num == 0,
        deriv(u, v) matches Ok(du) && (eval_exact(du, v, at) is Ok && (deriv(du, v) matches Ok(
            ddu,
        ) && eval_exact(ddu, v, at) is Ok)),
    ensures
        ({
            let du = deriv(u, v)->Ok_0;
            let w = eval_exact(du, v, at)->Ok_0;
            let ww = eval_exact(deriv(du, v)->Ok_0, v, at)->Ok_0;
            deriv(call1_node(name, u), v) matches Ok(d1) && deriv(d1, v) matches Ok(d2)
                && eval_exact(d2, v, at) == Ok::<Rat, ErrorCode>(
                rat_add(
                    rat_mul(rat_int(slope_at_zero(name)), ww),
                    rat_mul(rat_int(curvature_at_zero(name)), rat_mul(w, w)),
                ),
            )
        }),
{
    lemma_name_letters();
    lemma_built_values(v, at);
    let du = deriv(u, v)->Ok_0;
    let ddu = deriv(du, v)->Ok_0;
    let w = eval_exact(du, v, at)->Ok_0;
    let ww = eval_exact(ddu, v, at)->Ok_0;
    let z = eval_exact(u, v, at)->Ok_0;
    lemma_deriv_literals(u, v);
    lemma_deriv_literals(du, v);
    lemma_value_reduced(du, v, at);
    lemma_value_reduced(ddu, v, at);
    lemma_value_reduced(u, v, at);
    assert(z == rat_int(0)) by {
        crate::rational::lemma_int_reduced(0);
        crate::number::lemma_reduced_unique(z, rat_int(0));
    }
    assert(seq![z][0] == z);
    let one = rat_int(1);
    let zero = rat_int(0);
    let w2 = rat_mul(w, w);
    crate::rational::lemma_ops_reduced(w, w);
    crate::rational::lemma_mul_one(w);
    crate::rational::lemma_mul_one(ww);
    crate::rational::lemma_mul_one(w2);
    crate::rational::lemma_mul_zero(w);
    crate::rational::lemma_mul_zero(ww);
    crate::rational::lemma_mul_zero(w2);
    crate::rational::lemma_add_zero(ww);
    crate::rational::lemma_add_zero(w2);
    lemma_call1_deriv(name, u, v);
    let d1 = unary_rule(name, u, du);
    assert(deriv(call1_node(name, u), v) == Ok::<ExprV, ErrorCode>(d1));
    let g = if name == "sin"@ {
        "cos"@
    } else if name == "cos"@ {
        "sin"@
    } else if name == "sinh"@ {
        "cosh"@
    } else if name == "cosh"@ {
        "sinh"@
    } else {
        "exp"@
    };
    let gu = call1_node(g, u);
    let m = binary_node(BinaryOp::Mul, du, gu);
    assert(d1 == m || d1 == negated(m));
    lemma_call1_deriv(g, u, v);
    let dg = unary_rule(g, u, du);
    let dm = binary_node(
        BinaryOp::Add,
        binary_node(BinaryOp::Mul, ddu, gu),
        binary_node(BinaryOp::Mul, du, dg),
    );
    assert(deriv(m, v) == Ok::<ExprV, ErrorCode>(dm));
    lemma_call1_eval(g, u, v, at);
    lemma_call1_eval("sin"@, u, v, at);
    lemma_call1_eval("cos"@, u, v, at);
    lemma_call1_eval("sinh"@, u, v, at);
    lemma_call1_eval("cosh"@, u, v, at);
    lemma_call1_eval("exp"@, u, v, at);
    if name == "sin"@ {
        assert(eval_exact(dg, v, at) == Ok::<Rat, ErrorCode>(rat_neg(zero)));
        assert(eval_exact(binary_node(BinaryOp::Mul, ddu, gu), v, at) == Ok::<Rat, ErrorCode>(ww));
        assert(eval_exact(binary_node(BinaryOp::Mul, du, dg), v, at) == Ok::<Rat, ErrorCode>(zero));
        assert(eval_exact(dm, v, at) == Ok::<Rat, ErrorCode>(rat_add(ww, zero)));
    } else if name == "cos"@ {
        crate::rational::lemma_mul_neg(one, w2);
        crate::rational::lemma_neg_reduced(w2);
        crate::rational::lemma_add_zero(rat_neg(w2));
        assert(eval_exact(dg, v, at) == Ok::<Rat, ErrorCode>(w));
        assert(eval_exact(binary_node(BinaryOp::Mul, ddu, gu), v, at) == Ok::<Rat, ErrorCode>(zero));
        assert(eval_exact(binary_node(BinaryOp::Mul, du, dg), v, at) == Ok::<Rat, ErrorCode>(w2));
        assert(eval_exact(dm, v, at) == Ok::<Rat, ErrorCode>(rat_add(zero, w2)));
        assert(deriv(d1, v) == Ok::<ExprV, ErrorCode>(negated(dm)));
        assert(eval_exact(negated(dm), v, at) == Ok::<Rat, ErrorCode>(rat_neg(w2)));
    } else if name == "sinh"@ {
        assert(eval_exact(dg, v, at) == Ok::<Rat, ErrorCode>(zero));
        assert(eval_exact(binary_node(BinaryOp::Mul, ddu, gu), v, at) == Ok::<Rat, ErrorCode>(ww));
        assert(eval_exact(binary_node(BinaryOp::Mul, du, dg), v, at) == Ok::<Rat, ErrorCode>(zero));
        assert(eval_exact(dm, v, at) == Ok::<Rat, ErrorCode>(rat_add(ww, zero)));
    } else if name == "cosh"@ {
        assert(eval_exact(dg, v, at) == Ok::<Rat, ErrorCode>(w));
        assert(eval_exact(binary_node(BinaryOp::Mul, ddu, gu), v, at) == Ok::<Rat, ErrorCode>(zero));
        assert(eval_exact(binary_node(BinaryOp::Mul, du, dg), v, at) == Ok::<Rat, ErrorCode>(w2));
        assert(eval_exact(dm, v, at) == Ok::<Rat, ErrorCode>(rat_add(zero, w2)));
    } else {
        assert(eval_exact(dg, v, at) == Ok::<Rat, ErrorCode>(w));
        assert(eval_exact(binary_node(BinaryOp::Mul, ddu, gu), v, at) == Ok::<Rat, ErrorCode>(ww));
        assert(eval_exact(binary_node(BinaryOp::Mul, du, dg), v, at) == Ok::<Rat, ErrorCode>(w2));
        assert(eval_exact(dm, v, at) == Ok::<Rat, ErrorCode>(rat_add(ww, w2)));
    }
}

/// `u - u` and `u / u` are constant, so their derivatives are zero wherever
/// `u` and `u'` have exact values (and, for the quotient, `u` is not zero).
pub proof fn lemma_constant_combinations(u: ExprV, v: Seq<char>, at: Rat)
    requires
        literals_reduced(u),
        reduced(at),
        eval_exact(u, v, at) is Ok,
        deriv(u, v) matches Ok(du) && eval_exact(du, v, at) is Ok,
    ensures
        deriv(binary_node(BinaryOp::Sub, u, u), v) matches Ok(d) && eval_exact(d, v, at) == Ok::<
            Rat,
            ErrorCode,
        >(rat_int(0)),
        eval_exact(u, v, at)->Ok_0.num != 0 ==> (deriv(binary_node(BinaryOp::Div, u, u), v) matches Ok(
            d,
        ) && eval_exact(d, v, at) == Ok::<Rat, ErrorCode>(rat_int(0))),
{
    lemma_built_values(v, at);
    let du = deriv(u, v)->Ok_0;
    let w = eval_exact(du, v, at)->Ok_0;
    let z = eval_exact(u, v, at)->Ok_0;
    lemma_deriv_literals(u, v);
    lemma_value_reduced(du, v, at);
    lemma_value_reduced(u, v, at);
    assert(rat_sub(w, w) == rat_int(0)) by {
        assert(w.num * w.den - w.num * w.den == 0);
    }
    let sd = binary_node(BinaryOp::Sub, du, du);
    assert(deriv(binary_node(BinaryOp::Sub, u, u), v) == Ok::<ExprV, ErrorCode>(sd));
    assert(eval_exact(sd, v, at) == Ok::<Rat, ErrorCode>(rat_int(0)));
    if z.num != 0 {
        let num = binary_node(
            BinaryOp::Sub,
            binary_node(BinaryOp::Mul, du, u),
            binary_node(BinaryOp::Mul, u, du),
        );
        let den = binary_node(BinaryOp::Pow, u, two_node());
        let q = binary_node(BinaryOp::Div, num, den);
        assert(deriv(binary_node(BinaryOp::Div, u, u), v) == Ok::<ExprV, ErrorCode>(q));
        crate::rational::lemma_mul_comm(w, z);
        let x = rat_mul(w, z);
        assert(rat_sub(x, x) == rat_int(0)) by {
            assert(x.num * x.den - x.num * x.den == 0);
        }
        assert(eval_exact(binary_node(BinaryOp::Mul, du, u), v, at) == Ok::<Rat, ErrorCode>(x));
        assert(eval_exact(binary_node(BinaryOp::Mul, u, du), v, at) == Ok::<Rat, ErrorCode>(x));
        assert(eval_exact(num, v, at) == Ok::<Rat, ErrorCode>(rat_int(0)));
        assert(eval_exact(two_node(), v, at) == Ok::<Rat, ErrorCode>(rat_int(2)));
        let zz = rat_pow(z, 2);
        assert(crate::evaluate::pow_result(z, rat_int(2)) == Ok::<Rat, ErrorCode>(zz));
        assert(zz.num != 0) by {
            vstd::arithmetic::power::lemma_pow_positive(z.den, 2);
            assert(pow(z.num, 2) == z.num * z.num) by {
                vstd::arithmetic::power::lemma_square_is_pow2(z.num);
            }
            assert(z.num * z.num != 0) by (nonlinear_arith)
                requires
                    z.num != 0,
            ;
            crate::rational::lemma_normalize(pow(z.num, 2), pow(z.den, 2));
            if zz.num == 0 {
                assert(zz.num * pow(z.den, 2) == 0);
                assert(pow(z.num, 2) * zz.den != 0) by (nonlinear_arith)
                    requires
                        pow(z.num, 2) != 0,
                        zz.den > 0,
                ;
            }
        }
        assert(eval_exact(den, v, at) == Ok::<Rat, ErrorCode>(zz));
        crate::rational::lemma_div_zero(zz);
        assert(eval_exact(q, v, at) == Ok::<Rat, ErrorCode>(rat_int(0)));
    }
}

/// `u * u` and `u ^ 2` have derivatives of the same value wherever `u` and
/// `u'` have exact values: the product rule agrees with the power rule.
pub proof fn lemma_product_agrees_with_power(u: ExprV, v: Seq<char>, at: Rat)
    requires
        literals_reduced(u),
        reduced(at),
        eval_exact(u, v, at) is Ok,
        deriv(u, v) matches Ok(du) && eval_exact(du, v, at) is Ok,
    ensures
        deriv(binary_node(BinaryOp::Mul, u, u), v) matches Ok(d) && deriv(
            binary_node(BinaryOp::Pow, u, two_node()),
            v,
        ) matches Ok(e) && eval_exact(d, v, at) is Ok && eval_exact(d, v, at) == eval_exact(
            e,
            v,
            at,
        ),
{
    lemma_built_values(v, at);
    let du = deriv(u, v)->Ok_0;
    let w = eval_exact(du, v, at)->Ok_0;
    let z = eval_exact(u, v, at)->Ok_0;
    lemma_deriv_literals(u, v);
    lemma_value_reduced(du, v, at);
    lemma_value_reduced(u, v, at);
    let pd = binary_node(
        BinaryOp::Add,
        binary_node(BinaryOp::Mul, du, u),
        binary_node(BinaryOp::Mul, u, du),
    );
    assert(deriv(binary_node(BinaryOp::Mul, u, u), v) == Ok::<ExprV, ErrorCode>(pd));
    assert(!crate::ast::contains_var(two_node(), v));
    let one_less = binary_node(BinaryOp::Sub, two_node(), int_node(1));
    let qd = binary_node(
        BinaryOp::Mul,
        two_node(),
        binary_node(BinaryOp::Mul, binary_node(BinaryOp::Pow, u, one_less), du),
    );
    assert(deriv(binary_node(BinaryOp::Pow, u, two_node()), v) == Ok::<ExprV, ErrorCode>(qd));
    crate::rational::lemma_mul_comm(w, z);
    let x = rat_mul(z, w);
    assert(eval_exact(binary_node(BinaryOp::Mul, du, u), v, at) == Ok::<Rat, ErrorCode>(x));
    assert(eval_exact(binary_node(BinaryOp::Mul, u, du), v, at) == Ok::<Rat, ErrorCode>(x));
    assert(eval_exact(pd, v, at) == Ok::<Rat, ErrorCode>(rat_add(x, x)));
    assert(rat_sub(rat_int(2), rat_int(1)) == rat_int(1)) by {
        crate::rational::lemma_int_reduced(1);
        crate::rational::lemma_normalize_reduced(rat_int(1));
        assert(2 * 1 - 1 * 1 == 1 && 1 * 1 == 1);
    }
    assert(eval_exact(two_node(), v, at) == Ok::<Rat, ErrorCode>(rat_int(2)));
    assert(eval_exact(int_node(1), v, at) == Ok::<Rat, ErrorCode>(rat_int(1)));
    assert(eval_exact(one_less, v, at) == Ok::<Rat, ErrorCode>(rat_int(1)));
    vstd::arithmetic::power::lemma_pow1(z.num);
    vstd::arithmetic::power::lemma_pow1(z.den);
    crate::rational::lemma_normalize_reduced(z);
    assert(rat_pow(z, 1) == z);
    assert(eval_exact(binary_node(BinaryOp::Pow, u, one_less), v, at) == Ok::<Rat, ErrorCode>(z));
    assert(rat_add(x, x) == rat_mul(rat_int(2), x)) by {
        assert((x.num * x.den + x.num * x.den) * (1 * x.den) == (2 * x.num) * (x.den * x.den))
            by (nonlinear_arith);
        crate::rational::lemma_ops_reduced(z, w);
        assert(x.den * x.den != 0) by (nonlinear_arith)
            requires
                x.den > 0,
        ;
        crate::rational::lemma_same_value(
            x.num * x.den + x.num * x.den,
            x.den * x.den,
            2 * x.num,
            1 * x.den,
        );
    }
    assert(eval_exact(
        binary_node(BinaryOp::Mul, binary_node(BinaryOp::Pow, u, one_less), du),
        v,
        at,
    ) == Ok::<Rat, ErrorCode>(x));
    assert(eval_exact(qd, v, at) == Ok::<Rat, ErrorCode>(rat_mul(rat_int(2), x)));
}

/// Where `u` is one: `ln(u)' = u'` and `sqrt(u)' = u' / 2`, whenever `u'`
/// has an exact value.
pub proof fn lemma_derivative_at_one(u: ExprV, v: Seq<char>, at: Rat)
    requires
        literals_reduced(u),
        reduced(at),
        eval_exact(u, v, at) == Ok::<Rat, ErrorCode>(rat_int(1)),
        deriv(u, v) matches Ok(du) && eval_exact(du, v, at) is Ok,
    ensures
        ({
            let w = eval_exact(deriv(u, v)->Ok_0, v, at)->Ok_0;
            &&& deriv(call1_node("ln"@, u), v) matches Ok(d) && eval_exact(d, v, at) == Ok::<
                Rat,
                ErrorCode,
            >(w)
            &&& deriv(call1_node("sqrt"@, u), v) matches Ok(d) && eval_exact(d, v, at) == Ok::<
                Rat,
                ErrorCode,
            >(rat_mul(Rat { num: 1, den: 2 }, w))
        }),
{
    lemma_name_letters();
    lemma_built_values(v, at);
    let du = deriv(u, v)->Ok_0;
    let w = eval_exact(du, v, at)->Ok_0;
    let one = rat_int(1);
    lemma_deriv_literals(u, v);
    lemma_value_reduced(du, v, at);
    crate::rational::lemma_div_one(w);
    crate::rational::lemma_int_reduced(1);
    crate::rational::lemma_normalize_reduced(one);
    lemma_call1_deriv("ln"@, u, v);
    lemma_call1_deriv("sqrt"@, u, v);
    let dl = binary_node(BinaryOp::Div, du, u);
    assert(deriv(call1_node("ln"@, u), v) == Ok::<ExprV, ErrorCode>(dl));
    assert(eval_exact(dl, v, at) == Ok::<Rat, ErrorCode>(rat_div(w, one)));
    let root = call1_node("sqrt"@, u);
    let den = binary_node(BinaryOp::Mul, int_node(2), root);
    let ds = binary_node(BinaryOp::Div, du, den);
    assert(deriv(call1_node("sqrt"@, u), v) == Ok::<ExprV, ErrorCode>(ds));
    lemma_call1_eval("sqrt"@, u, v, at);
    assert(seq![one][0] == one);
    assert(square(1) == 1);
    assert(is_square(1));
    assert(square_root(1) == 1) by {
        let r = square_root(1);
        assert(r * r == 1);
        assert(r == 1) by (nonlinear_arith)
            requires
                r * r == 1,
        ;
    }
    assert(sqrt_result(one) == Ok::<Rat, ErrorCode>(one));
    assert(eval_exact(root, v, at) == Ok::<Rat, ErrorCode>(one));
    crate::rational::lemma_int_reduced(2);
    crate::rational::lemma_mul_one(rat_int(2));
    assert(eval_exact(int_node(2), v, at) == Ok::<Rat, ErrorCode>(rat_int(2)));
    assert(eval_exact(den, v, at) == Ok::<Rat, ErrorCode>(rat_int(2)));
    assert(rat_div(w, rat_int(2)) == rat_mul(Rat { num: 1, den: 2 }, w)) by {
        assert(w.num * 1 == 1 * w.num && w.den * 2 == 2 * w.den);
    }
    assert(eval_exact(ds, v, at) == Ok::<Rat, ErrorCode>(rat_div(w, rat_int(2))));
}

/// Away from zero, `abs(u)' = u'` where `u` is positive and `-u'` where it is
/// negative.
pub proof fn lemma_abs_derivative(u: ExprV, v: Seq<char>, at: Rat)
    requires
        literals_reduced(u),
        reduced(at),
        eval_exact(u, v, at) matches Ok(z) && z.num != 0,
        deriv(u, v) matches Ok(du) && eval_exact(du, v, at) is Ok,
    ensures
        ({
            let z = eval_exact(u, v, at)->Ok_0;
            let w = eval_exact(deriv(u, v)->Ok_0, v, at)->Ok_0;
            deriv(call1_node("abs"@, u), v) matches Ok(d) && eval_exact(d, v, at) == Ok::<
                Rat,
                ErrorCode,
            >(
                if z.num > 0 {
                    w
                } else {
                    rat_neg(w)
                },
            )
        }),
{
    lemma_name_letters();
    lemma_built_values(v, at);
    let du = deriv(u, v)->Ok_0;
    let w = eval_exact(du, v, at)->Ok_0;
    let z = eval_exact(u, v, at)->Ok_0;
    let one = rat_int(1);
    lemma_deriv_literals(u, v);
    lemma_value_reduced(du, v, at);
    lemma_value_reduced(u, v, at);
    lemma_call1_deriv("abs"@, u, v);
    lemma_call1_eval("abs"@, u, v, at);
    assert(seq![z][0] == z);
    let a = call1_node("abs"@, u);
    let ratio = binary_node(BinaryOp::Div, u, a);
    let d = binary_node(BinaryOp::Mul, du, ratio);
    assert(deriv(a, v) == Ok::<ExprV, ErrorCode>(d));
    let az = crate::number::rat_abs(z);
    assert(eval_exact(a, v, at) == Ok::<Rat, ErrorCode>(az));
    let s: int = if z.num > 0 {
        1
    } else {
        -1
    };
    crate::rational::lemma_int_reduced(s);
    crate::rational::lemma_normalize_reduced(rat_int(s));
    assert(rat_div(z, az) == rat_int(s)) by {
        assert(az.num == s * z.num);
        assert((z.num * az.den) * 1 == s * (z.den * az.num)) by (nonlinear_arith)
            requires
                az.den == z.den,
                az.num == s * z.num,
                s * s == 1,
        ;
        assert(z.den * az.num != 0) by (nonlinear_arith)
            requires
                z.den > 0,
                az.num == s * z.num,
                z.num != 0,
                s * s == 1,
        ;
        crate::rational::lemma_same_value(z.num * az.den, z.den * az.num, s, 1);
    }
    assert(eval_exact(ratio, v, at) == Ok::<Rat, ErrorCode>(rat_int(s)));
    crate::rational::lemma_mul_one(w);
    crate::rational::lemma_mul_neg(w, one);
    assert(eval_exact(d, v, at) == Ok::<Rat, ErrorCode>(rat_mul(w, rat_int(s))));
}

/// `u + u` and `2 * u` have derivatives of the same value, and `(-u) + u`,
/// being constant, has derivative zero, wherever `u` and `u'` have exact
/// values.
pub proof fn lemma_sum_rules(u: ExprV, v: Seq<char>, at: Rat)
    requires
        literals_reduced(u),
        reduced(at),
        eval_exact(u, v, at) is Ok,
        deriv(u, v) matches Ok(du) && eval_exact(du, v, at) is Ok,
    ensures
        deriv(binary_node(BinaryOp::Add, u, u), v) matches Ok(d) && deriv(
            binary_node(BinaryOp::Mul, int_node(2), u),
            v,
        ) matches Ok(e) && eval_exact(d, v, at) is Ok && eval_exact(d, v, at) == eval_exact(
            e,
            v,
            at,
        ),
        deriv(
            binary_node(BinaryOp::Add, ExprV::Unary { op: UnaryOp::Neg, arg: Box::new(u) }, u),
            v,
        ) matches Ok(d) && eval_exact(d, v, at) == Ok::<Rat, ErrorCode>(rat_int(0)),
{
    lemma_built_values(v, at);
    let du = deriv(u, v)->Ok_0;
    let w = eval_exact(du, v, at)->Ok_0;
    let z = eval_exact(u, v, at)->Ok_0;
    lemma_deriv_literals(u, v);
    lemma_value_reduced(du, v, at);
    lemma_value_reduced(u, v, at);
    let two = int_node(2);
    let sd = binary_node(BinaryOp::Add, du, du);
    assert(deriv(binary_node(BinaryOp::Add, u, u), v) == Ok::<ExprV, ErrorCode>(sd));
    assert(deriv(two, v) == Ok::<ExprV, ErrorCode>(int_node(0)));
    let md = binary_node(
        BinaryOp::Add,
        binary_node(BinaryOp::Mul, int_node(0), u),
        binary_node(BinaryOp::Mul, two, du),
    );
    assert(deriv(binary_node(BinaryOp::Mul, two, u), v) == Ok::<ExprV, ErrorCode>(md));
    crate::rational::lemma_mul_zero(z);
    crate::rational::lemma_ops_reduced(rat_int(2), w);
    crate::rational::lemma_add_zero(rat_mul(rat_int(2), w));
    assert(eval_exact(int_node(0), v, at) == Ok::<Rat, ErrorCode>(rat_int(0)));
    assert(eval_exact(two, v, at) == Ok::<Rat, ErrorCode>(rat_int(2)));
    assert(eval_exact(binary_node(BinaryOp::Mul, int_node(0), u), v, at) == Ok::<Rat, ErrorCode>(
        rat_int(0),
    ));
    assert(eval_exact(binary_node(BinaryOp::Mul, two, du), v, at) == Ok::<Rat, ErrorCode>(
        rat_mul(rat_int(2), w),
    ));
    assert(eval_exact(md, v, at) == Ok::<Rat, ErrorCode>(rat_mul(rat_int(2), w)));
    assert(rat_add(w, w) == rat_mul(rat_int(2), w)) by {
        assert((w.num * w.den + w.num * w.den) * (1 * w.den) == (2 * w.num) * (w.den * w.den))
            by (nonlinear_arith);
        assert(w.den * w.den != 0) by (nonlinear_arith)
            requires
                w.den > 0,
        ;
        crate::rational::lemma_same_value(
            w.num * w.den + w.num * w.den,
            w.den * w.den,
            2 * w.num,
            1 * w.den,
        );
    }
    assert(eval_exact(sd, v, at) == Ok::<Rat, ErrorCode>(rat_add(w, w)));
    // (-u) + u
    let nu = ExprV::Unary { op: UnaryOp::Neg, arg: Box::new(u) };
    assert(deriv(nu, v) == Ok::<ExprV, ErrorCode>(negated(du)));
    let nd = binary_node(BinaryOp::Add, negated(du), du);
    assert(deriv(binary_node(BinaryOp::Add, nu, u), v) == Ok::<ExprV, ErrorCode>(nd));
    assert(eval_exact(negated(du), v, at) == Ok::<Rat, ErrorCode>(rat_neg(w)));
    crate::rational::lemma_add_neg(w);
    assert(eval_exact(nd, v, at) == Ok::<Rat, ErrorCode>(rat_int(0)));
}

} // verus!
